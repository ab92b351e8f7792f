//! Rasterization into a texel raster stored bottom row last.
//!
//! Pixel `(x, y)` uses a y axis that points up, while the raster is laid out
//! in scanline order: it lives at index `(height - 1 - y) * width + x`.

use vstd::prelude::*;
use vstd::arithmetic::div_mod::{lemma_fundamental_div_mod, lemma_fundamental_div_mod_converse};

verus! {

/// Index of pixel `(x, y)` in a raster of the given size (y flipped).
pub open spec fn texel_index(width: int, height: int, x: int, y: int) -> int {
    (height - 1 - y) * width + x
}

/// Column of the texel stored at index `i`.
pub open spec fn texel_x(width: int, i: int) -> int {
    i % width
}

/// Row of the texel stored at index `i`, counted upward from the bottom.
pub open spec fn texel_y(width: int, height: int, i: int) -> int {
    height - 1 - i / width
}

/// Every index of the raster names one pixel, and back.
pub proof fn lemma_texel_coords(width: int, height: int, i: int)
    requires
        width >= 0,
        height >= 0,
        0 <= i < width * height,
    ensures
        0 <= texel_x(width, i) < width,
        0 <= texel_y(width, height, i) < height,
        texel_index(width, height, texel_x(width, i), texel_y(width, height, i)) == i,
{
    assert(width > 0 && height > 0) by (nonlinear_arith)
        requires width >= 0, height >= 0, 0 <= i < width * height;
    lemma_fundamental_div_mod(i, width);
    let q = i / width;
    let r = i % width;
    assert(0 <= r < width);
    assert(q >= 0) by (nonlinear_arith)
        requires i == width * q + r, 0 <= i, 0 <= r < width, width > 0;
    assert(q < height) by (nonlinear_arith)
        requires i == width * q + r, i < width * height, 0 <= r, width > 0;
    assert((height - 1 - (height - 1 - q)) * width + r == i) by (nonlinear_arith)
        requires i == width * q + r;
}

/// The index of a pixel inside the raster lies inside the raster and leads
/// back to that pixel.
pub proof fn lemma_texel_index(width: int, height: int, x: int, y: int)
    requires
        0 <= x < width,
        0 <= y < height,
    ensures
        0 <= texel_index(width, height, x, y) < width * height,
        texel_x(width, texel_index(width, height, x, y)) == x,
        texel_y(width, height, texel_index(width, height, x, y)) == y,
{
    let q = height - 1 - y;
    let i = q * width + x;
    assert(0 <= q < height);
    lemma_fundamental_div_mod_converse(i, width, q, x);
    assert(0 <= i < width * height) by (nonlinear_arith)
        requires i == q * width + x, 0 <= q < height, 0 <= x < width;
}

/// Something that can be scan converted into a raster of texels.
pub trait Rasterize {
    /// Whether the pixel `(x, y)` of a `width` x `height` raster is visited.
    spec fn covers(&self, width: int, height: int, x: int, y: int) -> bool;

    /// Writes `value` into every covered texel of `slice` and leaves the
    /// others as they were.
    fn rasterize_to_slice<P: Copy>(&self, slice: &mut Vec<P>, width: usize, height: usize, value: P)
        requires
            old(slice)@.len() == width * height,
        ensures
            final(slice)@.len() == old(slice)@.len(),
            forall|i: int|
                0 <= i < width * height ==> #[trigger] final(slice)@[i] == if self.covers(
                    width as int,
                    height as int,
                    texel_x(width as int, i),
                    texel_y(width as int, height as int, i),
                ) {
                    value
                } else {
                    old(slice)@[i]
                },
    ;
}

/// `after` is `before` rasterized with `shape`: every covered texel holds
/// `value`, every other texel is unchanged.
pub open spec fn rasterized<R: Rasterize, P>(
    shape: R,
    width: int,
    height: int,
    value: P,
    before: Seq<P>,
    after: Seq<P>,
) -> bool {
    &&& before.len() == width * height
    &&& after.len() == before.len()
    &&& forall|i: int|
        0 <= i < width * height ==> #[trigger] after[i] == if shape.covers(
            width,
            height,
            texel_x(width, i),
            texel_y(width, height, i),
        ) {
            value
        } else {
            before[i]
        }
}

/// Rasterizing a shape is deterministic: rasterizing it twice into buffers
/// that start out alike gives buffers that end alike.
pub proof fn lemma_rasterize_deterministic<R: Rasterize, P>(
    shape: R,
    width: int,
    height: int,
    value: P,
    before: Seq<P>,
    first: Seq<P>,
    second: Seq<P>,
)
    requires
        rasterized(shape, width, height, value, before, first),
        rasterized(shape, width, height, value, before, second),
    ensures
        first == second,
{
    assert(first =~= second);
}

/// Writes `value` into every texel of the rectangle `[x_lo, x_hi) x [y_lo, y_hi)`
/// and leaves the others as they were.
pub fn fill_rect<P: Copy>(
    slice: &mut Vec<P>,
    width: usize,
    height: usize,
    x_lo: usize,
    x_hi: usize,
    y_lo: usize,
    y_hi: usize,
    value: P,
)
    requires
        old(slice)@.len() == width * height,
        x_hi <= width,
        y_hi <= height,
    ensures
        final(slice)@.len() == old(slice)@.len(),
        forall|i: int|
            0 <= i < width * height ==> #[trigger] final(slice)@[i] == if x_lo <= texel_x(width as int, i) < x_hi
                && y_lo <= texel_y(width as int, height as int, i) < y_hi {
                value
            } else {
                old(slice)@[i]
            },
{
    let ghost w = width as int;
    let ghost h = height as int;
    let ghost old_slice = slice@;
    let len = slice.len();
    let mut y: usize = y_lo;
    while y < y_hi
        invariant
            y_lo <= y,
            y <= y_hi || y == y_lo,
            x_hi <= width,
            y_hi <= height,
            slice@.len() == w * h,
            len == w * h,
            w == width,
            h == height,
            old_slice.len() == w * h,
            forall|i: int|
                0 <= i < w * h ==> #[trigger] slice@[i] == if x_lo <= texel_x(w, i) < x_hi && y_lo
                    <= texel_y(w, h, i) < y {
                    value
                } else {
                    old_slice[i]
                },
        decreases y_hi - y,
    {
        let mut x: usize = x_lo;
        while x < x_hi
            invariant
                y_lo <= y < y_hi,
                x_lo <= x,
                x <= x_hi || x == x_lo,
                x_hi <= width,
                y_hi <= height,
                slice@.len() == w * h,
                len == w * h,
                w == width,
                h == height,
                old_slice.len() == w * h,
                forall|i: int|
                    0 <= i < w * h ==> #[trigger] slice@[i] == if x_lo <= texel_x(w, i) < x_hi && (y_lo
                        <= texel_y(w, h, i) < y || (texel_y(w, h, i) == y && texel_x(w, i) < x)) {
                        value
                    } else {
                        old_slice[i]
                    },
            decreases x_hi - x,
        {
            proof {
                lemma_texel_index(w, h, x as int, y as int);
                assert(0 <= (height - 1 - y) * width <= (height - 1 - y) * width + x) by (nonlinear_arith)
                    requires y < height, 0 <= x;
            }
            let idx: usize = (height - 1 - y) * width + x;
            let ghost before = slice@;
            slice.set(idx, value);
            proof {
                assert forall|i: int| 0 <= i < w * h implies #[trigger] slice@[i] == if x_lo <= texel_x(w, i)
                    < x_hi && (y_lo <= texel_y(w, h, i) < y || (texel_y(w, h, i) == y && texel_x(w, i) < x
                    + 1)) {
                    value
                } else {
                    old_slice[i]
                } by {
                    lemma_texel_coords(w, h, i);
                    if i != idx {
                        assert(before[i] == slice@[i]);
                    }
                }
            }
            x = x + 1;
        }
        proof {
            assert forall|i: int| 0 <= i < w * h implies #[trigger] slice@[i] == if x_lo <= texel_x(w, i)
                < x_hi && y_lo <= texel_y(w, h, i) < y + 1 {
                value
            } else {
                old_slice[i]
            } by {
                lemma_texel_coords(w, h, i);
            }
        }
        y = y + 1;
    }
    proof {
        assert forall|i: int| 0 <= i < w * h implies #[trigger] slice@[i] == if x_lo <= texel_x(w, i) < x_hi
            && y_lo <= texel_y(w, h, i) < y_hi {
            value
        } else {
            old_slice[i]
        } by {
            lemma_texel_coords(w, h, i);
        }
    }
}

/// A point in 28.4 fixed point: each coordinate counts sixteenths of a pixel.
#[derive(Clone, Copy, Debug)]
pub struct FixedPoint {
    pub x: i32,
    pub y: i32,
}

/// Twice the signed area spanned by the edge `a -> b` and the point `p`:
/// positive where `p` lies left of the edge (y up).
pub open spec fn edge_function(a: FixedPoint, b: FixedPoint, px: int, py: int) -> int {
    (b.x - a.x) * (py - a.y) - (b.y - a.y) * (px - a.x)
}

/// The edges whose own points count as inside: those that run downward, and
/// the horizontal ones that run to the right.
pub open spec fn is_inclusive_edge(a: FixedPoint, b: FixedPoint) -> bool {
    b.y - a.y < 0 || (b.y - a.y == 0 && b.x - a.x > 0)
}

/// The half-edge test after the fill-convention correction.
pub open spec fn edge_admits(a: FixedPoint, b: FixedPoint, px: int, py: int) -> bool {
    edge_function(a, b, px, py) + (if is_inclusive_edge(a, b) { 1int } else { 0int }) > 0
}

pub open spec fn min3(a: int, b: int, c: int) -> int {
    if a <= b && a <= c { a } else if b <= c { b } else { c }
}

pub open spec fn max3(a: int, b: int, c: int) -> int {
    if a >= b && a >= c { a } else if b >= c { b } else { c }
}

/// The first whole pixel at or after a fixed-point coordinate.
pub open spec fn ceil_pixel(v: int) -> int {
    (v + 15) / 16
}

/// `v` kept inside `[0, limit]`.
pub open spec fn clamp_to(v: int, limit: int) -> int {
    if v < 0 {
        0
    } else if v > limit {
        limit
    } else {
        v
    }
}

/// Whether pixel `(x, y)` lies in the triangle's bounding box.
pub open spec fn in_bounding_box(a: FixedPoint, b: FixedPoint, c: FixedPoint, x: int, y: int) -> bool {
    &&& ceil_pixel(min3(a.x as int, b.x as int, c.x as int)) <= x
    &&& x < ceil_pixel(max3(a.x as int, b.x as int, c.x as int))
    &&& ceil_pixel(min3(a.y as int, b.y as int, c.y as int)) <= y
    &&& y < ceil_pixel(max3(a.y as int, b.y as int, c.y as int))
}

/// Whether the triangle `a, b, c` fills pixel `(x, y)` of a raster: the
/// pixel lies in the raster and in the bounding box, and its sample point
/// `(16 x, 16 y)` passes all three half-edge tests.
pub open spec fn triangle_covers(
    a: FixedPoint,
    b: FixedPoint,
    c: FixedPoint,
    width: int,
    height: int,
    x: int,
    y: int,
) -> bool {
    &&& 0 <= x < width
    &&& 0 <= y < height
    &&& in_bounding_box(a, b, c, x, y)
    &&& edge_admits(a, b, 16 * x, 16 * y)
    &&& edge_admits(b, c, 16 * x, 16 * y)
    &&& edge_admits(c, a, 16 * x, 16 * y)
}

/// The half-edge test of the edge `a -> b` at the sample point `(px, py)`.
fn edge_test(a: FixedPoint, b: FixedPoint, px: i64, py: i64) -> (r: bool)
    requires
        -0x100_0000_0000 <= px <= 0x100_0000_0000,
        -0x100_0000_0000 <= py <= 0x100_0000_0000,
    ensures
        r == edge_admits(a, b, px as int, py as int),
{
    let dx: i128 = b.x as i128 - a.x as i128;
    let dy: i128 = b.y as i128 - a.y as i128;
    let ox: i128 = px as i128 - a.x as i128;
    let oy: i128 = py as i128 - a.y as i128;
    assert(-0x2_0000_0000 <= dx <= 0x2_0000_0000);
    assert(-0x200_0000_0000 <= oy <= 0x200_0000_0000);
    assert(-0x200_0000_0000 <= ox <= 0x200_0000_0000);
    assert(-0x1_0000_0000_0000_0000_0000 <= dx * oy <= 0x1_0000_0000_0000_0000_0000) by (nonlinear_arith)
        requires
            -0x2_0000_0000 <= dx <= 0x2_0000_0000,
            -0x200_0000_0000 <= oy <= 0x200_0000_0000,
    ;
    assert(-0x1_0000_0000_0000_0000_0000 <= dy * ox <= 0x1_0000_0000_0000_0000_0000) by (nonlinear_arith)
        requires
            -0x2_0000_0000 <= dy <= 0x2_0000_0000,
            -0x200_0000_0000 <= ox <= 0x200_0000_0000,
    ;
    let mut e: i128 = dx * oy - dy * ox;
    if dy < 0 || (dy == 0 && dx > 0) {
        e = e + 1;
    }
    e > 0
}

/// The first whole pixel at or after the fixed-point coordinate `v`, kept
/// inside `[0, limit]`.
fn first_pixel(v: i32, limit: usize) -> (r: usize)
    ensures
        r == clamp_to(ceil_pixel(v as int), limit as int),
        r <= 0x1000_0000,
{
    let shifted: i64 = v as i64 + 15;
    if shifted < 0 {
        0
    } else {
        let p: u64 = (shifted as u64) / 16;
        if p >= limit as u64 {
            limit
        } else {
            p as usize
        }
    }
}

fn min_of(a: i32, b: i32, c: i32) -> (r: i32)
    ensures
        r == min3(a as int, b as int, c as int),
{
    if a <= b && a <= c {
        a
    } else if b <= c {
        b
    } else {
        c
    }
}

fn max_of(a: i32, b: i32, c: i32) -> (r: i32)
    ensures
        r == max3(a as int, b as int, c as int),
{
    if a >= b && a >= c {
        a
    } else if b >= c {
        b
    } else {
        c
    }
}

/// Fills the triangle `a, b, c` with a top-left style fill convention: every
/// pixel of the clamped bounding box whose sample point passes the three
/// corrected half-edge tests receives `value`.
pub fn fill_triangle<P: Copy>(
    a: FixedPoint,
    b: FixedPoint,
    c: FixedPoint,
    slice: &mut Vec<P>,
    width: usize,
    height: usize,
    value: P,
)
    requires
        old(slice)@.len() == width * height,
    ensures
        final(slice)@.len() == old(slice)@.len(),
        forall|i: int|
            0 <= i < width * height ==> #[trigger] final(slice)@[i] == if triangle_covers(
                a,
                b,
                c,
                width as int,
                height as int,
                texel_x(width as int, i),
                texel_y(width as int, height as int, i),
            ) {
                value
            } else {
                old(slice)@[i]
            },
{
    let min_x = first_pixel(min_of(a.x, b.x, c.x), width);
    let max_x = first_pixel(max_of(a.x, b.x, c.x), width);
    let min_y = first_pixel(min_of(a.y, b.y, c.y), height);
    let max_y = first_pixel(max_of(a.y, b.y, c.y), height);
    let ghost w = width as int;
    let ghost h = height as int;
    let ghost old_slice = slice@;
    let len = slice.len();
    let mut y: usize = min_y;
    while y < max_y
        invariant
            min_y <= y,
            max_y <= height,
            max_y <= 0x1000_0000,
            min_x <= width,
            max_x <= width,
            max_x <= 0x1000_0000,
            slice@.len() == w * h,
            len == w * h,
            w == width,
            h == height,
            old_slice.len() == w * h,
            min_x == clamp_to(ceil_pixel(min3(a.x as int, b.x as int, c.x as int)), w),
            max_x == clamp_to(ceil_pixel(max3(a.x as int, b.x as int, c.x as int)), w),
            min_y == clamp_to(ceil_pixel(min3(a.y as int, b.y as int, c.y as int)), h),
            max_y == clamp_to(ceil_pixel(max3(a.y as int, b.y as int, c.y as int)), h),
            forall|i: int|
                0 <= i < w * h ==> #[trigger] slice@[i] == if triangle_covers(
                    a, b, c, w, h, texel_x(w, i), texel_y(w, h, i),
                ) && texel_y(w, h, i) < y {
                    value
                } else {
                    old_slice[i]
                },
        decreases max_y - y,
    {
        let mut x: usize = min_x;
        while x < max_x
            invariant
                min_y <= y < max_y,
                max_y <= height,
                max_y <= 0x1000_0000,
                min_x <= x,
                max_x <= width,
                max_x <= 0x1000_0000,
                slice@.len() == w * h,
                len == w * h,
                w == width,
                h == height,
                old_slice.len() == w * h,
                min_x == clamp_to(ceil_pixel(min3(a.x as int, b.x as int, c.x as int)), w),
                max_x == clamp_to(ceil_pixel(max3(a.x as int, b.x as int, c.x as int)), w),
                min_y == clamp_to(ceil_pixel(min3(a.y as int, b.y as int, c.y as int)), h),
                max_y == clamp_to(ceil_pixel(max3(a.y as int, b.y as int, c.y as int)), h),
                forall|i: int|
                    0 <= i < w * h ==> #[trigger] slice@[i] == if triangle_covers(
                        a, b, c, w, h, texel_x(w, i), texel_y(w, h, i),
                    ) && (texel_y(w, h, i) < y || (texel_y(w, h, i) == y && texel_x(w, i) < x)) {
                        value
                    } else {
                        old_slice[i]
                    },
            decreases max_x - x,
        {
            let px: i64 = 16 * (x as i64);
            let py: i64 = 16 * (y as i64);
            if edge_test(a, b, px, py) && edge_test(b, c, px, py) && edge_test(c, a, px, py) {
                proof {
                    lemma_texel_index(w, h, x as int, y as int);
                    assert(0 <= (height - 1 - y) * width <= (height - 1 - y) * width + x) by (nonlinear_arith)
                        requires y < height, 0 <= x;
                }
                let idx: usize = (height - 1 - y) * width + x;
                let ghost before = slice@;
                slice.set(idx, value);
                proof {
                    assert forall|i: int| 0 <= i < w * h implies #[trigger] slice@[i] == if triangle_covers(
                        a, b, c, w, h, texel_x(w, i), texel_y(w, h, i),
                    ) && (texel_y(w, h, i) < y || (texel_y(w, h, i) == y && texel_x(w, i) < x + 1)) {
                        value
                    } else {
                        old_slice[i]
                    } by {
                        lemma_texel_coords(w, h, i);
                        if i != idx {
                            assert(before[i] == slice@[i]);
                        }
                    }
                }
            } else {
                proof {
                    assert forall|i: int| 0 <= i < w * h implies #[trigger] slice@[i] == if triangle_covers(
                        a, b, c, w, h, texel_x(w, i), texel_y(w, h, i),
                    ) && (texel_y(w, h, i) < y || (texel_y(w, h, i) == y && texel_x(w, i) < x + 1)) {
                        value
                    } else {
                        old_slice[i]
                    } by {
                        lemma_texel_coords(w, h, i);
                    }
                }
            }
            x = x + 1;
        }
        proof {
            assert forall|i: int| 0 <= i < w * h implies #[trigger] slice@[i] == if triangle_covers(
                a, b, c, w, h, texel_x(w, i), texel_y(w, h, i),
            ) && texel_y(w, h, i) < y + 1 {
                value
            } else {
                old_slice[i]
            } by {
                lemma_texel_coords(w, h, i);
            }
        }
        y = y + 1;
    }
    proof {
        assert forall|i: int| 0 <= i < w * h implies #[trigger] slice@[i] == if triangle_covers(
            a, b, c, w, h, texel_x(w, i), texel_y(w, h, i),
        ) {
            value
        } else {
            old_slice[i]
        } by {
            lemma_texel_coords(w, h, i);
        }
    }
}

} // verus!
