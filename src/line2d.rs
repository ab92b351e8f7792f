//! Bresenham lines, and lines stroked with a square pen.

use vstd::prelude::*;
use vstd::arithmetic::div_mod::lemma_fundamental_div_mod_converse;
use crate::raster::{Rasterize, fill_rect, texel_x, texel_y};

verus! {

pub open spec fn abs_int(v: int) -> int {
    if v < 0 {
        -v
    } else {
        v
    }
}

/// The direction in which a walk from `a` to `b` moves along one axis.
pub open spec fn step_toward(a: int, b: int) -> int {
    if a < b {
        1
    } else {
        -1
    }
}

/// The smallest integer `q` with `q * d >= n`.
pub open spec fn ceil_div(n: int, d: int) -> int {
    (n + d - 1) / d
}

/// The number of steps of the walk from `(x0, y0)` to `(x1, y1)`: one per
/// pixel along the major axis.
pub open spec fn line_steps(x0: int, y0: int, x1: int, y1: int) -> int {
    let dx = abs_int(x1 - x0);
    let dy = abs_int(y1 - y0);
    if dx > dy {
        dx
    } else {
        dy
    }
}

/// The `k`-th pixel of the Bresenham walk from `(x0, y0)` to `(x1, y1)`.
/// Along the major axis the walk moves one pixel per step; along the minor
/// axis it has moved, after `k` steps, `minor * k / major` rounded to the
/// nearest integer (halves rounded down).
pub open spec fn line_point(x0: int, y0: int, x1: int, y1: int, k: int) -> (int, int) {
    let dx = abs_int(x1 - x0);
    let dy = abs_int(y1 - y0);
    let sx = step_toward(x0, x1);
    let sy = step_toward(y0, y1);
    if dx > dy {
        (x0 + sx * k, y0 + sy * ceil_div(dy * k - dx / 2, dx))
    } else if dy > 0 {
        (x0 + sx * ceil_div(dx * k - dy / 2, dy), y0 + sy * k)
    } else {
        (x0, y0)
    }
}

pub open spec fn in_raster(p: (int, int), width: int, height: int) -> bool {
    0 <= p.0 < width && 0 <= p.1 < height
}

/// The pixels among the first `count` of the walk that lie in the raster, in
/// walk order.
pub open spec fn visible_points(
    x0: int,
    y0: int,
    x1: int,
    y1: int,
    width: int,
    height: int,
    count: nat,
) -> Seq<(usize, usize)>
    decreases count,
{
    if count == 0 {
        Seq::empty()
    } else {
        let rest = visible_points(x0, y0, x1, y1, width, height, (count - 1) as nat);
        let p = line_point(x0, y0, x1, y1, count - 1);
        if in_raster(p, width, height) {
            rest.push((p.0 as usize, p.1 as usize))
        } else {
            rest
        }
    }
}

/// The pixels of the whole walk from `p0` to `p1` that lie in the raster.
pub open spec fn line_pixels(p0: (i32, i32), p1: (i32, i32), width: int, height: int) -> Seq<(usize, usize)> {
    visible_points(
        p0.0 as int,
        p0.1 as int,
        p1.0 as int,
        p1.1 as int,
        width,
        height,
        (line_steps(p0.0 as int, p0.1 as int, p1.0 as int, p1.1 as int) + 1) as nat,
    )
}

proof fn lemma_ceil_div_unique(n: int, d: int, q: int)
    requires
        d > 0,
        n <= q * d < n + d,
    ensures
        ceil_div(n, d) == q,
{
    let r = n + d - 1 - q * d;
    assert(0 <= r < d);
    lemma_fundamental_div_mod_converse(n + d - 1, d, q, r);
}

/// The walk starts at its first end point and, after `line_steps` steps,
/// stops at the second.
pub proof fn lemma_line_walk_endpoints(x0: int, y0: int, x1: int, y1: int)
    ensures
        line_point(x0, y0, x1, y1, 0) == (x0, y0),
        line_point(x0, y0, x1, y1, line_steps(x0, y0, x1, y1)) == (x1, y1),
{
    let dx = abs_int(x1 - x0);
    let dy = abs_int(y1 - y0);
    let sx = step_toward(x0, x1);
    let sy = step_toward(y0, y1);
    assert(sx * dx == x1 - x0 && sy * dy == y1 - y0 && sx * 0 == 0 && sy * 0 == 0) by (nonlinear_arith)
        requires
            sx == (if x0 < x1 { 1int } else { -1int }),
            sy == (if y0 < y1 { 1int } else { -1int }),
            dx == (if x1 - x0 < 0 { -(x1 - x0) } else { x1 - x0 }),
            dy == (if y1 - y0 < 0 { -(y1 - y0) } else { y1 - y0 }),
    ;
    if dx > dy {
        lemma_ceil_div_unique(dy * 0 - dx / 2, dx, 0);
        lemma_ceil_div_unique(dy * dx - dx / 2, dx, dy);
    } else if dy > 0 {
        lemma_ceil_div_unique(dx * 0 - dy / 2, dy, 0);
        lemma_ceil_div_unique(dx * dy - dy / 2, dy, dx);
    }
}

/// Rasterizes a line with the Bresenham algorithm and returns the pixels of
/// the walk from `p0` to `p1` that lie in the raster, in walk order.
///
/// Used to draw the outlines of UV islands, so that they bleed a little into
/// the surrounding space and hide texture seams.
pub fn rasterize_line(p0: (i32, i32), p1: (i32, i32), raster_width: usize, raster_height: usize) -> (r: Vec<(usize, usize)>)
    ensures
        r@ == line_pixels(p0, p1, raster_width as int, raster_height as int),
{
    let (x0, y0) = p0;
    let (x1, y1) = p1;
    let dx: i64 = if x1 as i64 >= x0 as i64 { x1 as i64 - x0 as i64 } else { x0 as i64 - x1 as i64 };
    let dy: i64 = if y1 as i64 >= y0 as i64 { y1 as i64 - y0 as i64 } else { y0 as i64 - y1 as i64 };
    let sx: i64 = if x0 < x1 { 1 } else { -1 };
    let sy: i64 = if y0 < y1 { 1 } else { -1 };
    let steps: i64 = if dx > dy { dx } else { dy };
    let err0: i64 = if dx > dy { dx / 2 } else { -(dy / 2) };
    let mut err: i64 = err0;
    let mut x: i64 = x0 as i64;
    let mut y: i64 = y0 as i64;
    let mut k: i64 = 0;
    let ghost mut a: int = 0;
    let ghost mut b: int = 0;
    let ghost (gx0, gy0, gx1, gy1) = (x0 as int, y0 as int, x1 as int, y1 as int);
    let ghost w = raster_width as int;
    let ghost h = raster_height as int;
    let mut pixels: Vec<(usize, usize)> = Vec::new();
    while k <= steps
        invariant
            dx == abs_int(gx1 - gx0),
            dy == abs_int(gy1 - gy0),
            sx == step_toward(gx0, gx1),
            sy == step_toward(gy0, gy1),
            steps == line_steps(gx0, gy0, gx1, gy1),
            0 <= dx <= 0x1_0000_0000,
            0 <= dy <= 0x1_0000_0000,
            err0 == if dx > dy { dx / 2 } else { -(dy / 2) },
            0 <= k <= steps + 1,
            0 <= a <= k,
            0 <= b <= k,
            x == gx0 + sx * a,
            y == gy0 + sy * b,
            err == err0 - dy * a + dx * b,
            k <= steps && dx > dy ==> a == k && 0 <= err < dx,
            k <= steps && dx <= dy && dy > 0 ==> b == k && -dy < err <= 0,
            dx == 0 && dy == 0 ==> a == 0 && b == 0,
            w == raster_width,
            h == raster_height,
            gx0 == x0,
            gy0 == y0,
            gx1 == x1,
            gy1 == y1,
            pixels@ == visible_points(gx0, gy0, gx1, gy1, w, h, k as nat),
        decreases steps + 1 - k,
    {
        proof {
            if dx > dy {
                assert(b * dx == dy * k - err0 + err) by (nonlinear_arith)
                    requires err == err0 - dy * a + dx * b, a == k;
                lemma_ceil_div_unique(dy * k - dx / 2, dx as int, b);
            } else if dy > 0 {
                assert(a * dy == dx * k + err0 - err) by (nonlinear_arith)
                    requires err == err0 - dy * a + dx * b, b == k;
                lemma_ceil_div_unique(dx * k - dy / 2, dy as int, a);
            }
            assert(line_point(gx0, gy0, gx1, gy1, k as int) == (x as int, y as int));
        }
        if x >= 0 && (x as u128) < (raster_width as u128) && y >= 0 && (y as u128) < (raster_height as u128) {
            pixels.push((x as usize, y as usize));
        }
        if k < steps {
            let e2 = err;
            if e2 > -dx {
                proof {
                    assert(dy * (a + 1) == dy * a + dy) by (nonlinear_arith);
                    a = a + 1;
                }
                err = err - dy;
                x = x + sx;
            }
            if e2 < dy {
                proof {
                    assert(dx * (b + 1) == dx * b + dx) by (nonlinear_arith);
                    b = b + 1;
                }
                err = err + dx;
                y = y + sy;
            }
        }
        k = k + 1;
    }
    pixels
}

/// A line between two pixels, drawn with a square pen `stroke_width` pixels
/// wide.
#[derive(Clone, Copy, Debug)]
pub struct Line2D {
    pub start: (i32, i32),
    pub end: (i32, i32),
    pub stroke_width: usize,
}

/// Whether `(x, y)` lies in the pen square laid on pixel `p`: it reaches
/// `back` pixels below and left of `p`, and up to `forward` pixels above and
/// right of it, `p` included.
pub open spec fn in_pen_square(p: (usize, usize), back: int, forward: int, x: int, y: int) -> bool {
    &&& p.0 - back <= x < p.0 + forward
    &&& p.1 - back <= y < p.1 + forward
}

impl Line2D {
    /// How far the pen reaches below and left of a line pixel.
    pub open spec fn back_extent(&self) -> int {
        self.stroke_width as int / 2
    }

    /// How far the pen reaches above and right of a line pixel, the pixel
    /// included.
    pub open spec fn forward_extent(&self) -> int {
        self.stroke_width - self.back_extent()
    }
}

impl Rasterize for Line2D {
    /// A pixel of the raster is covered where the pen square of some pixel
    /// of the line walk inside the raster reaches it. A zero-width pen
    /// covers nothing.
    open spec fn covers(&self, width: int, height: int, x: int, y: int) -> bool {
        let pixels = line_pixels(self.start, self.end, width, height);
        &&& self.stroke_width > 0
        &&& 0 <= x < width
        &&& 0 <= y < height
        &&& exists|j: int|
            0 <= j < pixels.len() && #[trigger] in_pen_square(
                pixels[j],
                self.back_extent(),
                self.forward_extent(),
                x,
                y,
            )
    }

    fn rasterize_to_slice<P: Copy>(&self, slice: &mut Vec<P>, width: usize, height: usize, value: P) {
        if self.stroke_width == 0 {
            return;
        }
        let back: usize = self.stroke_width / 2;
        let forward: usize = self.stroke_width - back;
        let pixels = rasterize_line(self.start, self.end, width, height);
        let ghost w = width as int;
        let ghost h = height as int;
        let ghost old_slice = slice@;
        let ghost line = line_pixels(self.start, self.end, w, h);
        proof {
            lemma_visible_points_in_raster(
                self.start.0 as int,
                self.start.1 as int,
                self.end.0 as int,
                self.end.1 as int,
                w,
                h,
                (line_steps(self.start.0 as int, self.start.1 as int, self.end.0 as int, self.end.1 as int)
                    + 1) as nat,
            );
        }
        let mut j: usize = 0;
        while j < pixels.len()
            invariant
                pixels@ == line,
                forall|m: int| 0 <= m < line.len() ==> #[trigger] line[m].0 < w && line[m].1 < h,
                back == self.back_extent(),
                forward == self.forward_extent(),
                self.stroke_width > 0,
                w == width,
                h == height,
                slice@.len() == w * h,
                old_slice.len() == w * h,
                0 <= j <= pixels.len(),
                forall|i: int|
                    0 <= i < w * h ==> #[trigger] slice@[i] == if exists|m: int|
                        0 <= m < j && #[trigger] in_pen_square(
                            line[m],
                            back as int,
                            forward as int,
                            texel_x(w, i),
                            texel_y(w, h, i),
                        ) {
                        value
                    } else {
                        old_slice[i]
                    },
            decreases pixels.len() - j,
        {
            let (px, py) = pixels[j];
            let x_lo: usize = if px >= back { px - back } else { 0 };
            let x_hi: usize = if forward >= width - px { width } else { px + forward };
            let y_lo: usize = if py >= back { py - back } else { 0 };
            let y_hi: usize = if forward >= height - py { height } else { py + forward };
            let ghost before = slice@;
            fill_rect(slice, width, height, x_lo, x_hi, y_lo, y_hi, value);
            proof {
                assert forall|i: int| 0 <= i < w * h implies #[trigger] slice@[i] == if exists|m: int|
                    0 <= m < j + 1 && #[trigger] in_pen_square(
                        line[m],
                        back as int,
                        forward as int,
                        texel_x(w, i),
                        texel_y(w, h, i),
                    ) {
                    value
                } else {
                    old_slice[i]
                } by {
                    crate::raster::lemma_texel_coords(w, h, i);
                    let tx = texel_x(w, i);
                    let ty = texel_y(w, h, i);
                    if in_pen_square(line[j as int], back as int, forward as int, tx, ty) {
                        assert(x_lo <= tx < x_hi && y_lo <= ty < y_hi);
                    } else {
                        assert(!(x_lo <= tx < x_hi && y_lo <= ty < y_hi));
                        if exists|m: int|
                            0 <= m < j + 1 && #[trigger] in_pen_square(
                                line[m],
                                back as int,
                                forward as int,
                                tx,
                                ty,
                            ) {
                            let m = choose|m: int|
                                0 <= m < j + 1 && #[trigger] in_pen_square(
                                    line[m],
                                    back as int,
                                    forward as int,
                                    tx,
                                    ty,
                                );
                            assert(m < j);
                        }
                    }
                }
            }
            j = j + 1;
        }
        proof {
            assert forall|i: int| 0 <= i < w * h implies #[trigger] slice@[i] == if self.covers(
                w,
                h,
                texel_x(w, i),
                texel_y(w, h, i),
            ) {
                value
            } else {
                old_slice[i]
            } by {
                crate::raster::lemma_texel_coords(w, h, i);
            }
        }
    }
}

/// Every pixel that the walk keeps lies in the raster.
proof fn lemma_visible_points_in_raster(
    x0: int,
    y0: int,
    x1: int,
    y1: int,
    width: int,
    height: int,
    count: nat,
)
    requires
        0 <= width <= usize::MAX,
        0 <= height <= usize::MAX,
    ensures
        forall|m: int|
            0 <= m < visible_points(x0, y0, x1, y1, width, height, count).len() ==> #[trigger] visible_points(
                x0,
                y0,
                x1,
                y1,
                width,
                height,
                count,
            )[m].0 < width && visible_points(x0, y0, x1, y1, width, height, count)[m].1 < height,
    decreases count,
{
    if count > 0 {
        lemma_visible_points_in_raster(x0, y0, x1, y1, width, height, (count - 1) as nat);
        let rest = visible_points(x0, y0, x1, y1, width, height, (count - 1) as nat);
        let all = visible_points(x0, y0, x1, y1, width, height, count);
        assert forall|m: int| 0 <= m < all.len() implies #[trigger] all[m].0 < width && all[m].1 < height by {
            let p = line_point(x0, y0, x1, y1, count - 1);
            if in_raster(p, width, height) {
                assert(all == rest.push((p.0 as usize, p.1 as usize)));
                if m < rest.len() {
                    assert(all[m] == rest[m]);
                } else {
                    assert(all[m] == (p.0 as usize, p.1 as usize));
                }
            } else {
                assert(all == rest);
            }
        }
    }
}

} // verus!
