//! The fill convention of the triangle rasterizer: where two triangles of a
//! tessellation share an edge, every pixel near it is filled by exactly one
//! of them.

use vstd::prelude::*;
use vstd::arithmetic::mul::{
    lemma_mul_is_commutative, lemma_mul_is_distributive_add, lemma_mul_is_distributive_sub,
    lemma_mul_is_distributive_sub_other_way,
};
use crate::raster::{
    FixedPoint, edge_admits, edge_function, in_bounding_box, is_inclusive_edge, max3, min3, triangle_covers,
};

verus! {

/// An edge and the same edge walked the other way have opposite edge
/// functions.
pub proof fn lemma_edge_function_antisymmetric(a: FixedPoint, b: FixedPoint, px: int, py: int)
    ensures
        edge_function(b, a, px, py) == -edge_function(a, b, px, py),
{
    let (ax, ay, bx, by) = (a.x as int, a.y as int, b.x as int, b.y as int);
    assert((ax - bx) * (py - by) - (ay - by) * (px - bx) == -((bx - ax) * (py - ay) - (by - ay) * (px
        - ax))) by (nonlinear_arith);
}

/// Of two triangles that share an edge, walked in opposite directions, at
/// most one admits any sample point through that edge's test: no point on a
/// shared edge is shaded twice.
pub proof fn lemma_shared_edge_admits_at_most_once(a: FixedPoint, b: FixedPoint, px: int, py: int)
    ensures
        !(edge_admits(a, b, px, py) && edge_admits(b, a, px, py)),
{
    lemma_edge_function_antisymmetric(a, b, px, py);
}

/// A sample point on the line through a proper edge is admitted through the
/// test of exactly one of its two directions: no point on a shared edge is
/// left out.
pub proof fn lemma_shared_edge_admits_once(a: FixedPoint, b: FixedPoint, px: int, py: int)
    requires
        a != b,
        edge_function(a, b, px, py) == 0,
    ensures
        edge_admits(a, b, px, py) != edge_admits(b, a, px, py),
{
    lemma_edge_function_antisymmetric(a, b, px, py);
}

/// Two triangles `a, b, c` and `b, a, d` that share the edge `a - b` never
/// fill the same pixel.
pub proof fn lemma_adjacent_triangles_disjoint(
    a: FixedPoint,
    b: FixedPoint,
    c: FixedPoint,
    d: FixedPoint,
    width: int,
    height: int,
    x: int,
    y: int,
)
    ensures
        !(triangle_covers(a, b, c, width, height, x, y) && triangle_covers(b, a, d, width, height, x, y)),
{
    lemma_shared_edge_admits_at_most_once(a, b, 16 * x, 16 * y);
}

/// The edge functions of a point are its barycentric weights, scaled by
/// twice the area of the triangle.
pub proof fn lemma_barycentric(a: FixedPoint, b: FixedPoint, c: FixedPoint, px: int, py: int)
    ensures
        edge_function(b, c, px, py) + edge_function(c, a, px, py) + edge_function(a, b, px, py)
            == edge_function(a, b, c.x as int, c.y as int),
        edge_function(b, c, px, py) * a.x + edge_function(c, a, px, py) * b.x + edge_function(a, b, px, py)
            * c.x == edge_function(a, b, c.x as int, c.y as int) * px,
        edge_function(b, c, px, py) * a.y + edge_function(c, a, px, py) * b.y + edge_function(a, b, px, py)
            * c.y == edge_function(a, b, c.x as int, c.y as int) * py,
{
    let (ax, ay, bx, by, cx, cy) = (a.x as int, a.y as int, b.x as int, b.y as int, c.x as int, c.y as int);
    let (ux, uy, vx, vy, wx, wy) = (ax - px, ay - py, bx - px, by - py, cx - px, cy - py);
    let e1 = edge_function(b, c, px, py);
    let e2 = edge_function(c, a, px, py);
    let e3 = edge_function(a, b, px, py);
    let s = edge_function(a, b, cx, cy);
    lemma_edge_function_as_cross(b, c, px, py);
    lemma_edge_function_as_cross(c, a, px, py);
    lemma_edge_function_as_cross(a, b, px, py);
    assert(e3 + e1 + e2 == s) by (nonlinear_arith)
        requires
            e3 == ux * vy - vx * uy,
            e1 == vx * wy - wx * vy,
            e2 == wx * uy - ux * wy,
            s == (bx - ax) * (cy - ay) - (by - ay) * (cx - ax),
            ux == ax - px, uy == ay - py, vx == bx - px, vy == by - py, wx == cx - px, wy == cy - py;
    lemma_cross_weights_cancel(ux, uy, vx, vy, wx, wy);
    lemma_cross_weights_cancel(uy, ux, vy, vx, wy, wx);
    assert(e1 * ax + e2 * bx + e3 * cx == s * px) by (nonlinear_arith)
        requires
            e1 * ux + e2 * vx + e3 * wx == 0,
            e1 + e2 + e3 == s,
            ux == ax - px, vx == bx - px, wx == cx - px;
    assert(e1 * ay + e2 * by + e3 * cy == s * py) by (nonlinear_arith)
        requires
            e1 * uy + e2 * vy + e3 * wy == 0,
            e1 + e2 + e3 == s,
            uy == ay - py, vy == by - py, wy == cy - py;
}

/// `cross(v, w) * u.x + cross(w, u) * v.x + cross(u, v) * w.x == 0`.
proof fn lemma_cross_weights_cancel(ux: int, uy: int, vx: int, vy: int, wx: int, wy: int)
    ensures
        (vx * wy - wx * vy) * ux + (wx * uy - ux * wy) * vx + (ux * vy - vx * uy) * wx == 0,
        (wy * vx - vy * wx) * uy + (uy * wx - wy * ux) * vy + (vy * ux - uy * vx) * wy == 0,
{
    lemma_mul_is_distributive_sub_other_way(ux, vx * wy, wx * vy);
    lemma_mul_is_distributive_sub_other_way(vx, wx * uy, ux * wy);
    lemma_mul_is_distributive_sub_other_way(wx, ux * vy, vx * uy);
    lemma_mul_is_distributive_sub_other_way(uy, wy * vx, vy * wx);
    lemma_mul_is_distributive_sub_other_way(vy, uy * wx, wy * ux);
    lemma_mul_is_distributive_sub_other_way(wy, vy * ux, uy * vx);
    assert((vx * wy) * ux == (ux * wy) * vx) by (nonlinear_arith);
    assert((wx * vy) * ux == (ux * vy) * wx) by (nonlinear_arith);
    assert((wx * uy) * vx == (vx * uy) * wx) by (nonlinear_arith);
    assert((wy * vx) * uy == (uy * vx) * wy) by (nonlinear_arith);
    assert((vy * wx) * uy == (uy * wx) * vy) by (nonlinear_arith);
    assert((wy * ux) * vy == (vy * ux) * wy) by (nonlinear_arith);
}

/// Seen from the sample point, the edge function is the cross product of
/// the two vertices of the edge.
proof fn lemma_edge_function_as_cross(a: FixedPoint, b: FixedPoint, px: int, py: int)
    ensures
        edge_function(a, b, px, py) == (a.x - px) * (b.y - py) - (b.x - px) * (a.y - py),
{
    let (ax, ay, bx, by) = (a.x as int, a.y as int, b.x as int, b.y as int);
    assert((bx - ax) * (py - ay) - (by - ay) * (px - ax) == (ax - px) * (by - py) - (bx - px) * (ay - py))
        by (nonlinear_arith);
}

/// A weighted mean with non-negative weights lies between the least and
/// the greatest value, and reaches the greatest one only where every value
/// of positive weight is the greatest.
proof fn lemma_weighted_mean_bounds(w1: int, w2: int, w3: int, v1: int, v2: int, v3: int, s: int, p: int)
    requires
        w1 >= 0,
        w2 >= 0,
        w3 >= 0,
        s == w1 + w2 + w3,
        s > 0,
        w1 * v1 + w2 * v2 + w3 * v3 == s * p,
    ensures
        min3(v1, v2, v3) <= p <= max3(v1, v2, v3),
        p == max3(v1, v2, v3) ==> (w1 == 0 || v1 == p) && (w2 == 0 || v2 == p) && (w3 == 0 || v3 == p),
{
    let lo = min3(v1, v2, v3);
    let hi = max3(v1, v2, v3);
    assert(v1 >= lo && v2 >= lo && v3 >= lo && v1 <= hi && v2 <= hi && v3 <= hi);
    assert(w1 * (v1 - lo) >= 0 && w2 * (v2 - lo) >= 0 && w3 * (v3 - lo) >= 0) by (nonlinear_arith)
        requires w1 >= 0, w2 >= 0, w3 >= 0, v1 >= lo, v2 >= lo, v3 >= lo;
    assert(w1 * (hi - v1) >= 0 && w2 * (hi - v2) >= 0 && w3 * (hi - v3) >= 0) by (nonlinear_arith)
        requires w1 >= 0, w2 >= 0, w3 >= 0, v1 <= hi, v2 <= hi, v3 <= hi;
    lemma_mean_shift(w1, w2, w3, v1, v2, v3, s, p, lo);
    lemma_mean_shift(w1, w2, w3, v1, v2, v3, s, p, hi);
    assert(p >= lo) by (nonlinear_arith)
        requires s > 0, s * (p - lo) >= 0;
    assert(p <= hi) by (nonlinear_arith)
        requires s > 0, s * (hi - p) >= 0;
    if p == hi {
        assert(s * (hi - p) == 0) by (nonlinear_arith)
            requires p == hi;
        assert((w1 == 0 || v1 == p) && (w2 == 0 || v2 == p) && (w3 == 0 || v3 == p)) by (nonlinear_arith)
            requires
                w1 * (hi - v1) >= 0,
                w2 * (hi - v2) >= 0,
                w3 * (hi - v3) >= 0,
                w1 * (hi - v1) + w2 * (hi - v2) + w3 * (hi - v3) == 0,
                w1 >= 0,
                w2 >= 0,
                w3 >= 0,
                v1 <= hi,
                v2 <= hi,
                v3 <= hi,
                p == hi,
        ;
    }
}

proof fn lemma_mean_shift(w1: int, w2: int, w3: int, v1: int, v2: int, v3: int, s: int, p: int, t: int)
    requires
        s == w1 + w2 + w3,
        w1 * v1 + w2 * v2 + w3 * v3 == s * p,
    ensures
        s * (p - t) == w1 * (v1 - t) + w2 * (v2 - t) + w3 * (v3 - t),
        s * (t - p) == w1 * (t - v1) + w2 * (t - v2) + w3 * (t - v3),
{
    lemma_mul_is_distributive_sub(s, p, t);
    lemma_mul_is_distributive_sub(s, t, p);
    lemma_mul_is_distributive_sub(w1, v1, t);
    lemma_mul_is_distributive_sub(w2, v2, t);
    lemma_mul_is_distributive_sub(w3, v3, t);
    lemma_mul_is_distributive_sub(w1, t, v1);
    lemma_mul_is_distributive_sub(w2, t, v2);
    lemma_mul_is_distributive_sub(w3, t, v3);
    lemma_mul_is_distributive_add(t, w1 + w2, w3);
    lemma_mul_is_distributive_add(t, w1, w2);
    lemma_mul_is_commutative(t, s);
    lemma_mul_is_commutative(t, w1);
    lemma_mul_is_commutative(t, w2);
    lemma_mul_is_commutative(t, w3);
}

/// Where the rightmost (or topmost) point of a counter-clockwise triangle
/// is a vertex `a` alone, that vertex is not admitted through both of its
/// edges.
proof fn lemma_extreme_vertex_excluded(a: FixedPoint, b: FixedPoint, c: FixedPoint)
    requires
        edge_function(a, b, c.x as int, c.y as int) > 0,
        (a.x > b.x && a.x > c.x) || (a.y > b.y && a.y > c.y),
    ensures
        !(is_inclusive_edge(c, a) && is_inclusive_edge(a, b)),
{
    let (ax, ay, bx, by, cx, cy) = (a.x as int, a.y as int, b.x as int, b.y as int, c.x as int, c.y as int);
    if a.x > b.x && a.x > c.x && is_inclusive_edge(c, a) && is_inclusive_edge(a, b) {
        assert(by < ay && ay <= cy);
        assert((bx - ax) * (cy - ay) <= 0) by (nonlinear_arith)
            requires bx - ax < 0, cy - ay >= 0;
        assert((by - ay) * (cx - ax) > 0) by (nonlinear_arith)
            requires by - ay < 0, cx - ax < 0;
    }
}

/// Where the rightmost (or topmost) points of a counter-clockwise triangle
/// form its edge `a -> b`, that edge is not inclusive.
proof fn lemma_extreme_edge_excluded(a: FixedPoint, b: FixedPoint, c: FixedPoint)
    requires
        edge_function(a, b, c.x as int, c.y as int) > 0,
        (a.x == b.x && a.x > c.x) || (a.y == b.y && a.y > c.y),
    ensures
        !is_inclusive_edge(a, b),
{
    let (ax, ay, bx, by, cx, cy) = (a.x as int, a.y as int, b.x as int, b.y as int, c.x as int, c.y as int);
    if a.x == b.x && a.x > c.x {
        assert((bx - ax) * (cy - ay) == 0) by (nonlinear_arith)
            requires bx - ax == 0;
        assert(by - ay > 0) by (nonlinear_arith)
            requires -((by - ay) * (cx - ax)) > 0, cx - ax < 0;
    } else {
        assert((by - ay) * (cx - ax) == 0) by (nonlinear_arith)
            requires by - ay == 0;
        assert(bx - ax < 0) by (nonlinear_arith)
            requires (bx - ax) * (cy - ay) > 0, cy - ay < 0;
    }
}

/// Rotating the vertices of a triangle keeps its area.
proof fn lemma_area_rotation_invariant(a: FixedPoint, b: FixedPoint, c: FixedPoint)
    ensures
        edge_function(a, b, c.x as int, c.y as int) == edge_function(b, c, a.x as int, a.y as int),
{
    lemma_barycentric(a, b, c, a.x as int, a.y as int);
    let (ax, ay, bx, by) = (a.x as int, a.y as int, b.x as int, b.y as int);
    assert((bx - ax) * (ay - ay) - (by - ay) * (ax - ax) == 0) by (nonlinear_arith);
    let (cx, cy) = (c.x as int, c.y as int);
    assert((ax - cx) * (ay - cy) - (ay - cy) * (ax - cx) == 0) by (nonlinear_arith);
}

/// No sample point at the right or top end of a counter-clockwise
/// triangle, with the vertex `a` among the extreme points, passes all three
/// half-edge tests.
proof fn lemma_not_admitted_at_far_side(a: FixedPoint, b: FixedPoint, c: FixedPoint, px: int, py: int)
    requires
        edge_function(a, b, c.x as int, c.y as int) > 0,
        edge_function(b, c, px, py) >= 0,
        edge_function(c, a, px, py) >= 0,
        edge_function(a, b, px, py) >= 0,
        (px == a.x && a.x >= b.x && a.x >= c.x && (edge_function(c, a, px, py) == 0 || b.x == a.x) && (
        edge_function(a, b, px, py) == 0 || c.x == a.x)) || (py == a.y && a.y >= b.y && a.y >= c.y && (
        edge_function(c, a, px, py) == 0 || b.y == a.y) && (edge_function(a, b, px, py) == 0 || c.y == a.y)),
    ensures
        !(edge_admits(a, b, px, py) && edge_admits(b, c, px, py) && edge_admits(c, a, px, py)),
{
    let (ax, ay, bx, by, cx, cy) = (a.x as int, a.y as int, b.x as int, b.y as int, c.x as int, c.y as int);
    let xside = px == a.x && a.x >= b.x && a.x >= c.x && (edge_function(c, a, px, py) == 0 || b.x == a.x) && (
        edge_function(a, b, px, py) == 0 || c.x == a.x);
    if xside {
        if b.x == a.x && c.x == a.x {
            assert((bx - ax) * (cy - ay) - (by - ay) * (cx - ax) == 0) by (nonlinear_arith)
                requires bx == ax, cx == ax;
        } else if b.x == a.x {
            lemma_extreme_edge_excluded(a, b, c);
        } else if c.x == a.x {
            lemma_area_rotation_invariant(c, a, b);
            lemma_area_rotation_invariant(a, b, c);
            lemma_extreme_edge_excluded(c, a, b);
        } else {
            lemma_extreme_vertex_excluded(a, b, c);
        }
    } else {
        if b.y == a.y && c.y == a.y {
            assert((bx - ax) * (cy - ay) - (by - ay) * (cx - ax) == 0) by (nonlinear_arith)
                requires by == ay, cy == ay;
        } else if b.y == a.y {
            lemma_extreme_edge_excluded(a, b, c);
        } else if c.y == a.y {
            lemma_area_rotation_invariant(c, a, b);
            lemma_area_rotation_invariant(a, b, c);
            lemma_extreme_edge_excluded(c, a, b);
        } else {
            lemma_extreme_vertex_excluded(a, b, c);
        }
    }
}

/// Every sample point that passes the three half-edge tests of a
/// counter-clockwise triangle lies in the triangle's bounding box: the
/// bounding box clips no pixel that the fill convention admits.
pub proof fn lemma_admitted_in_bounding_box(a: FixedPoint, b: FixedPoint, c: FixedPoint, x: int, y: int)
    requires
        edge_function(a, b, c.x as int, c.y as int) > 0,
        edge_admits(a, b, 16 * x, 16 * y),
        edge_admits(b, c, 16 * x, 16 * y),
        edge_admits(c, a, 16 * x, 16 * y),
    ensures
        in_bounding_box(a, b, c, x, y),
{
    let (px, py) = (16 * x, 16 * y);
    let (ax, ay, bx, by, cx, cy) = (a.x as int, a.y as int, b.x as int, b.y as int, c.x as int, c.y as int);
    let e1 = edge_function(b, c, px, py);
    let e2 = edge_function(c, a, px, py);
    let e3 = edge_function(a, b, px, py);
    let area = edge_function(a, b, cx, cy);
    lemma_barycentric(a, b, c, px, py);
    lemma_weighted_mean_bounds(e1, e2, e3, ax, bx, cx, area, px);
    lemma_weighted_mean_bounds(e1, e2, e3, ay, by, cy, area, py);
    lemma_area_rotation_invariant(a, b, c);
    lemma_area_rotation_invariant(b, c, a);
    if px == max3(ax, bx, cx) {
        if ax == px {
            lemma_not_admitted_at_far_side(a, b, c, px, py);
        } else if bx == px {
            lemma_not_admitted_at_far_side(b, c, a, px, py);
        } else {
            lemma_not_admitted_at_far_side(c, a, b, px, py);
        }
    }
    if py == max3(ay, by, cy) {
        if ay == py {
            lemma_not_admitted_at_far_side(a, b, c, px, py);
        } else if by == py {
            lemma_not_admitted_at_far_side(b, c, a, px, py);
        } else {
            lemma_not_admitted_at_far_side(c, a, b, px, py);
        }
    }
}

/// Whether the sample point of pixel `(x, y)` lies strictly inside the
/// triangle `a, b, c`.
pub open spec fn strictly_inside(a: FixedPoint, b: FixedPoint, c: FixedPoint, x: int, y: int) -> bool {
    &&& edge_function(a, b, 16 * x, 16 * y) > 0
    &&& edge_function(b, c, 16 * x, 16 * y) > 0
    &&& edge_function(c, a, 16 * x, 16 * y) > 0
}

/// Whether the sample point of pixel `(x, y)` lies on the open edge shared
/// by the triangles `a, b, c` and `b, a, d`: on the line through `a` and
/// `b`, strictly inside the other four edges.
pub open spec fn on_shared_edge(a: FixedPoint, b: FixedPoint, c: FixedPoint, d: FixedPoint, x: int, y: int) -> bool {
    &&& edge_function(a, b, 16 * x, 16 * y) == 0
    &&& edge_function(b, c, 16 * x, 16 * y) > 0
    &&& edge_function(c, a, 16 * x, 16 * y) > 0
    &&& edge_function(a, d, 16 * x, 16 * y) > 0
    &&& edge_function(d, b, 16 * x, 16 * y) > 0
}

/// A pixel of the raster whose sample point passes the three half-edge
/// tests, where at least one passes strictly, is filled.
proof fn lemma_admitted_is_covered(a: FixedPoint, b: FixedPoint, c: FixedPoint, width: int, height: int, x: int, y: int)
    requires
        0 <= x < width,
        0 <= y < height,
        edge_admits(a, b, 16 * x, 16 * y),
        edge_admits(b, c, 16 * x, 16 * y),
        edge_admits(c, a, 16 * x, 16 * y),
        edge_function(a, b, 16 * x, 16 * y) > 0 || edge_function(b, c, 16 * x, 16 * y) > 0
            || edge_function(c, a, 16 * x, 16 * y) > 0,
    ensures
        triangle_covers(a, b, c, width, height, x, y),
{
    lemma_barycentric(a, b, c, 16 * x, 16 * y);
    lemma_admitted_in_bounding_box(a, b, c, x, y);
}

/// Fill convention of a tessellation: of two triangles `a, b, c` and
/// `b, a, d` that share the edge `a - b`, exactly one fills each pixel of
/// the raster whose sample point lies strictly inside their union, that is
/// strictly inside one of them or on the open shared edge.
pub proof fn lemma_adjacent_triangles_fill_once(
    a: FixedPoint,
    b: FixedPoint,
    c: FixedPoint,
    d: FixedPoint,
    width: int,
    height: int,
    x: int,
    y: int,
)
    requires
        a != b,
        0 <= x < width,
        0 <= y < height,
        strictly_inside(a, b, c, x, y) || strictly_inside(b, a, d, x, y) || on_shared_edge(a, b, c, d, x, y),
    ensures
        triangle_covers(a, b, c, width, height, x, y) != triangle_covers(b, a, d, width, height, x, y),
{
    let (px, py) = (16 * x, 16 * y);
    lemma_adjacent_triangles_disjoint(a, b, c, d, width, height, x, y);
    lemma_edge_function_antisymmetric(a, b, px, py);
    lemma_edge_function_antisymmetric(d, a, px, py);
    if strictly_inside(a, b, c, x, y) {
        lemma_admitted_is_covered(a, b, c, width, height, x, y);
    } else if strictly_inside(b, a, d, x, y) {
        lemma_admitted_is_covered(b, a, d, width, height, x, y);
    } else {
        lemma_shared_edge_admits_once(a, b, px, py);
        if edge_admits(a, b, px, py) {
            lemma_admitted_is_covered(a, b, c, width, height, x, y);
        } else {
            lemma_admitted_is_covered(b, a, d, width, height, x, y);
        }
    }
}

} // verus!
