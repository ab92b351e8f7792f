//! The texel coverage of a mesh in UV space: which triangle each texel of a
//! baked raster takes its interpolated attributes from.

use vstd::prelude::*;
use crate::line2d::Line2D;
use crate::raster::{FixedPoint, Rasterize, texel_x, texel_y};
use crate::uv_triangle::UvTriangle;

verus! {

/// The pixel nearest to a fixed-point coordinate (halves round up).
pub open spec fn nearest_pixel_spec(v: int) -> int {
    (v + 8) / 16
}

/// The pixel nearest to a fixed-point coordinate (halves round up).
pub fn nearest_pixel(v: i32) -> (r: i32)
    ensures
        r == nearest_pixel_spec(v as int),
{
    let s: i64 = v as i64 + 8;
    if s >= 0 {
        (s / 16) as i32
    } else {
        let q: i64 = (-s + 15) / 16;
        -q as i32
    }
}

/// The pixel nearest to a fixed-point position.
pub open spec fn pixel_of(p: FixedPoint) -> (i32, i32) {
    (nearest_pixel_spec(p.x as int) as i32, nearest_pixel_spec(p.y as int) as i32)
}

/// The outline edge of `t` that starts at vertex `e` (0, 1 or 2), stroked
/// with a pen `stroke_width` pixels wide.
pub open spec fn outline_edge<A>(t: UvTriangle<A>, e: int, stroke_width: usize) -> Line2D {
    let (start, end) = if e == 0 {
        (t.v0.uv_position, t.v1.uv_position)
    } else if e == 1 {
        (t.v1.uv_position, t.v2.uv_position)
    } else {
        (t.v2.uv_position, t.v0.uv_position)
    };
    Line2D { start: pixel_of(start), end: pixel_of(end), stroke_width }
}

/// Whether the stroked outline of `t` reaches pixel `(x, y)`.
pub open spec fn outline_covers<A>(t: UvTriangle<A>, stroke_width: usize, width: int, height: int, x: int, y: int) -> bool {
    ||| outline_edge(t, 0, stroke_width).covers(width, height, x, y)
    ||| outline_edge(t, 1, stroke_width).covers(width, height, x, y)
    ||| outline_edge(t, 2, stroke_width).covers(width, height, x, y)
}

/// The last of the first `n` triangles whose stroked outline reaches `(x, y)`.
pub open spec fn last_outline<A>(
    triangles: Seq<UvTriangle<A>>,
    stroke_width: usize,
    n: nat,
    width: int,
    height: int,
    x: int,
    y: int,
) -> Option<usize>
    decreases n,
{
    if n == 0 {
        None
    } else if outline_covers(triangles[n - 1], stroke_width, width, height, x, y) {
        Some((n - 1) as usize)
    } else {
        last_outline(triangles, stroke_width, (n - 1) as nat, width, height, x, y)
    }
}

/// The last of the first `n` solid triangles whose interior fill reaches `(x, y)`.
pub open spec fn last_interior<A>(
    triangles: Seq<UvTriangle<A>>,
    solid: Seq<bool>,
    n: nat,
    width: int,
    height: int,
    x: int,
    y: int,
) -> Option<usize>
    decreases n,
{
    if n == 0 {
        None
    } else if solid[n - 1] && triangles[n - 1].covers(width, height, x, y) {
        Some((n - 1) as usize)
    } else {
        last_interior(triangles, solid, (n - 1) as nat, width, height, x, y)
    }
}

/// The triangle whose attributes texel `(x, y)` takes: the last solid
/// triangle whose interior covers it; failing that, where island bleed is
/// on, the last triangle whose outline, stroked `2 * island_bleed` wide,
/// reaches it; failing that, none.
pub open spec fn texel_source<A>(
    triangles: Seq<UvTriangle<A>>,
    solid: Seq<bool>,
    island_bleed: usize,
    width: int,
    height: int,
    x: int,
    y: int,
) -> Option<usize> {
    match last_interior(triangles, solid, triangles.len(), width, height, x, y) {
        Some(t) => Some(t),
        None => if island_bleed > 0 {
            last_outline(triangles, (2 * island_bleed) as usize, triangles.len(), width, height, x, y)
        } else {
            None
        },
    }
}

/// Bakes the texel coverage of the triangles into a `width` x `height`
/// raster (bottom row last), naming for each texel the index of the triangle
/// whose attributes it takes, or `None` outside every UV island.
///
/// Where `island_bleed` is positive, the outlines of all triangles are first
/// stroked `2 * island_bleed` pixels wide; then the interiors of the
/// triangles marked solid are filled over them, so interior values always
/// win over bleed values.
pub fn bake_texel_sources<A>(
    triangles: &Vec<UvTriangle<A>>,
    solid: &Vec<bool>,
    width: usize,
    height: usize,
    island_bleed: usize,
) -> (r: Vec<Option<usize>>)
    requires
        solid@.len() == triangles@.len(),
        width * height <= usize::MAX,
        2 * island_bleed <= usize::MAX,
    ensures
        r@.len() == width * height,
        forall|i: int|
            0 <= i < width * height ==> #[trigger] r@[i] == texel_source(
                triangles@,
                solid@,
                island_bleed,
                width as int,
                height as int,
                texel_x(width as int, i),
                texel_y(width as int, height as int, i),
            ),
{
    let ghost w = width as int;
    let ghost h = height as int;
    let size: usize = width * height;
    let mut texels: Vec<Option<usize>> = Vec::new();
    while texels.len() < size
        invariant
            size == w * h,
            texels@.len() <= size,
            forall|i: int| 0 <= i < texels@.len() ==> #[trigger] texels@[i] == None::<usize>,
        decreases size - texels@.len(),
    {
        texels.push(None);
    }
    let n = triangles.len();
    let stroke: usize = 2 * island_bleed;
    if island_bleed > 0 {
        let mut t: usize = 0;
        while t < n
            invariant
                n == triangles@.len(),
                stroke == 2 * island_bleed,
                0 <= t <= n,
                size == w * h,
                w == width,
                h == height,
                texels@.len() == size,
                forall|i: int|
                    0 <= i < size ==> #[trigger] texels@[i] == last_outline(
                        triangles@,
                        stroke,
                        t as nat,
                        w,
                        h,
                        texel_x(w, i),
                        texel_y(w, h, i),
                    ),
            decreases n - t,
        {
            let tri = &triangles[t];
            let lines = [
                Line2D { start: pixel_of_exec(tri.v0.uv_position), end: pixel_of_exec(tri.v1.uv_position), stroke_width: stroke },
                Line2D { start: pixel_of_exec(tri.v1.uv_position), end: pixel_of_exec(tri.v2.uv_position), stroke_width: stroke },
                Line2D { start: pixel_of_exec(tri.v2.uv_position), end: pixel_of_exec(tri.v0.uv_position), stroke_width: stroke },
            ];
            lines[0].rasterize_to_slice(&mut texels, width, height, Some(t));
            lines[1].rasterize_to_slice(&mut texels, width, height, Some(t));
            lines[2].rasterize_to_slice(&mut texels, width, height, Some(t));
            proof {
                assert(lines[0] == outline_edge(triangles@[t as int], 0, stroke));
                assert(lines[1] == outline_edge(triangles@[t as int], 1, stroke));
                assert(lines[2] == outline_edge(triangles@[t as int], 2, stroke));
                assert(forall|i: int| 0 <= i < size ==> #[trigger] texels@[i] == last_outline(
                    triangles@,
                    stroke,
                    (t + 1) as nat,
                    w,
                    h,
                    texel_x(w, i),
                    texel_y(w, h, i),
                ));
            }
            t = t + 1;
        }
    }
    let ghost outlined = texels@;
    let mut t: usize = 0;
    while t < n
        invariant
            n == triangles@.len(),
            n == solid@.len(),
            0 <= t <= n,
            size == w * h,
            w == width,
            h == height,
            texels@.len() == size,
            outlined.len() == size,
            forall|i: int|
                0 <= i < size ==> #[trigger] outlined[i] == if island_bleed > 0 {
                    last_outline(triangles@, (2 * island_bleed) as usize, n as nat, w, h, texel_x(w, i), texel_y(w, h, i))
                } else {
                    None
                },
            forall|i: int|
                0 <= i < size ==> #[trigger] texels@[i] == match last_interior(
                    triangles@,
                    solid@,
                    t as nat,
                    w,
                    h,
                    texel_x(w, i),
                    texel_y(w, h, i),
                ) {
                    Some(s) => Some(s),
                    None => outlined[i],
                },
        decreases n - t,
    {
        if solid[t] {
            triangles[t].rasterize_to_slice(&mut texels, width, height, Some(t));
            proof {
                assert(forall|i: int| 0 <= i < size ==> #[trigger] texels@[i] == match last_interior(
                    triangles@,
                    solid@,
                    (t + 1) as nat,
                    w,
                    h,
                    texel_x(w, i),
                    texel_y(w, h, i),
                ) {
                    Some(s) => Some(s),
                    None => outlined[i],
                });
            }
        }
        t = t + 1;
    }
    texels
}

/// The pixel nearest to a fixed-point position.
fn pixel_of_exec(p: FixedPoint) -> (r: (i32, i32))
    ensures
        r == pixel_of(p),
{
    (nearest_pixel(p.x), nearest_pixel(p.y))
}

} // verus!
