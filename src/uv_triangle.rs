//! Triangles in UV image space, wound counter-clockwise for the rasterizer.

use vstd::prelude::*;
use crate::raster::{FixedPoint, Rasterize, edge_function, fill_triangle, triangle_covers};

verus! {

/// A vertex placed in UV image space (28.4 fixed point, y up), carrying the
/// attributes of the mesh vertex it came from.
#[derive(Clone, Copy, Debug)]
pub struct UvVtx<A> {
    pub uv_position: FixedPoint,
    pub attributes: A,
}

impl<A> UvVtx<A> {
    /// The position of the vertex in UV image space.
    pub fn position(&self) -> (r: FixedPoint)
        ensures
            r == self.uv_position,
    {
        self.uv_position
    }
}

/// A triangle in UV image space.
#[derive(Clone, Copy, Debug)]
pub struct UvTriangle<A> {
    pub v0: UvVtx<A>,
    pub v1: UvVtx<A>,
    pub v2: UvVtx<A>,
}

/// The shoelace sum `sum (x[i+1] - x[i]) * (y[i+1] + y[i])` over the three
/// edges: twice the signed area with the sign flipped, so it is negative for
/// a counter-clockwise triangle (y up).
pub open spec fn shoelace(t: (FixedPoint, FixedPoint, FixedPoint)) -> int {
    (t.1.x - t.0.x) * (t.1.y + t.0.y) + (t.2.x - t.1.x) * (t.2.y + t.1.y) + (t.0.x - t.2.x) * (t.0.y
        + t.2.y)
}

/// Counter-clockwise (y up), or degenerate.
pub open spec fn is_ccw_spec(t: (FixedPoint, FixedPoint, FixedPoint)) -> bool {
    shoelace(t) <= 0
}

/// Swaps the last two elements of a triple, reversing its order.
pub open spec fn flip_spec<T>(t: (T, T, T)) -> (T, T, T) {
    (t.0, t.2, t.1)
}

/// The shoelace sum is the edge function of the first edge at the third
/// vertex, negated: a counter-clockwise triangle has its third vertex on the
/// inner side of its first edge.
pub proof fn lemma_shoelace_is_negated_area(t: (FixedPoint, FixedPoint, FixedPoint))
    ensures
        shoelace(t) == -edge_function(t.0, t.1, t.2.x as int, t.2.y as int),
{
    let (x0, y0, x1, y1, x2, y2) = (
        t.0.x as int,
        t.0.y as int,
        t.1.x as int,
        t.1.y as int,
        t.2.x as int,
        t.2.y as int,
    );
    assert((x1 - x0) * (y1 + y0) + (x2 - x1) * (y2 + y1) + (x0 - x2) * (y0 + y2) == -((x1 - x0) * (y2
        - y0) - (y1 - y0) * (x2 - x0))) by (nonlinear_arith);
}

/// Flipping a triangle negates its shoelace sum.
pub proof fn lemma_flip_negates_shoelace(t: (FixedPoint, FixedPoint, FixedPoint))
    ensures
        shoelace(flip_spec(t)) == -shoelace(t),
{
    let (x0, y0, x1, y1, x2, y2) = (
        t.0.x as int,
        t.0.y as int,
        t.1.x as int,
        t.1.y as int,
        t.2.x as int,
        t.2.y as int,
    );
    assert((x2 - x0) * (y2 + y0) + (x1 - x2) * (y1 + y2) + (x0 - x1) * (y0 + y1) == -((x1 - x0) * (y1
        + y0) + (x2 - x1) * (y2 + y1) + (x0 - x2) * (y0 + y2))) by (nonlinear_arith);
}

/// Checks whether the triangle is wound counter-clockwise in a y-up
/// coordinate system, by the sign of the shoelace sum. Degenerate triangles
/// count as counter-clockwise.
pub fn is_ccw(texcoords: &(FixedPoint, FixedPoint, FixedPoint)) -> (r: bool)
    ensures
        r == is_ccw_spec(*texcoords),
{
    let (p0, p1, p2) = *texcoords;
    let (x0, y0) = (p0.x as i128, p0.y as i128);
    let (x1, y1) = (p1.x as i128, p1.y as i128);
    let (x2, y2) = (p2.x as i128, p2.y as i128);
    assert(-0x8_0000_0000_0000_0000 <= (x1 - x0) * (y1 + y0) <= 0x8_0000_0000_0000_0000) by (nonlinear_arith)
        requires -0x1_0000_0000 <= x1 - x0 <= 0x1_0000_0000, -0x1_0000_0000 <= y1 + y0 <= 0x1_0000_0000;
    assert(-0x8_0000_0000_0000_0000 <= (x2 - x1) * (y2 + y1) <= 0x8_0000_0000_0000_0000) by (nonlinear_arith)
        requires -0x1_0000_0000 <= x2 - x1 <= 0x1_0000_0000, -0x1_0000_0000 <= y2 + y1 <= 0x1_0000_0000;
    assert(-0x8_0000_0000_0000_0000 <= (x0 - x2) * (y0 + y2) <= 0x8_0000_0000_0000_0000) by (nonlinear_arith)
        requires -0x1_0000_0000 <= x0 - x2 <= 0x1_0000_0000, -0x1_0000_0000 <= y0 + y2 <= 0x1_0000_0000;
    (x1 - x0) * (y1 + y0) + (x2 - x1) * (y2 + y1) + (x0 - x2) * (y0 + y2) <= 0
}

/// Swaps two elements in a triple to reverse its order.
pub fn flip<T>(tuple: (T, T, T)) -> (r: (T, T, T))
    ensures
        r == flip_spec(tuple),
{
    let (a, b, c) = tuple;
    (a, c, b)
}

impl<A> UvTriangle<A> {
    /// The positions of the three vertices, in order.
    pub open spec fn positions(&self) -> (FixedPoint, FixedPoint, FixedPoint) {
        (self.v0.uv_position, self.v1.uv_position, self.v2.uv_position)
    }
}

/// Builds a triangle in UV image space from three vertices already placed
/// there, keeping their order where they wind counter-clockwise (y up) and
/// swapping the last two, with their attributes, where they do not, so that
/// every triangle reaches the rasterizer with the same winding. Degenerate
/// triangles pass through unchanged.
pub fn triangle_into_uv_image_space<A>(vertices: (UvVtx<A>, UvVtx<A>, UvVtx<A>)) -> (r: UvTriangle<A>)
    ensures
        is_ccw_spec((vertices.0.uv_position, vertices.1.uv_position, vertices.2.uv_position)) ==> r
            == (UvTriangle { v0: vertices.0, v1: vertices.1, v2: vertices.2 }),
        !is_ccw_spec((vertices.0.uv_position, vertices.1.uv_position, vertices.2.uv_position)) ==> r
            == (UvTriangle { v0: vertices.0, v1: vertices.2, v2: vertices.1 }),
        is_ccw_spec(r.positions()),
        edge_function(r.v0.uv_position, r.v1.uv_position, r.v2.uv_position.x as int, r.v2.uv_position.y as int)
            >= 0,
{
    let positions = (vertices.0.uv_position, vertices.1.uv_position, vertices.2.uv_position);
    proof {
        lemma_shoelace_is_negated_area(positions);
        lemma_shoelace_is_negated_area(flip_spec(positions));
    }
    if is_ccw(&positions) {
        let (v0, v1, v2) = vertices;
        UvTriangle { v0, v1, v2 }
    } else {
        proof {
            lemma_flip_negates_shoelace(positions);
        }
        let (v0, v1, v2) = flip(vertices);
        UvTriangle { v0, v1, v2 }
    }
}

impl<A> Rasterize for UvTriangle<A> {
    /// The pixels that the fixed-point fill of the triangle visits.
    open spec fn covers(&self, width: int, height: int, x: int, y: int) -> bool {
        triangle_covers(self.v0.uv_position, self.v1.uv_position, self.v2.uv_position, width, height, x, y)
    }

    fn rasterize_to_slice<P: Copy>(&self, slice: &mut Vec<P>, width: usize, height: usize, value: P) {
        fill_triangle(self.v0.uv_position, self.v1.uv_position, self.v2.uv_position, slice, width, height, value);
    }
}

} // verus!
