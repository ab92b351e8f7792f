use aitios_tex::raster::FixedPoint;
use aitios_tex::uv_triangle::{flip, is_ccw, triangle_into_uv_image_space, UvVtx};

fn p(x: i32, y: i32) -> FixedPoint {
    FixedPoint { x, y }
}

/// The unit corners (0, 0), (1, 0), (0, 1) in 28.4 fixed point.
fn ccw_coordinates() -> (FixedPoint, FixedPoint, FixedPoint) {
    (p(0, 0), p(16, 0), p(0, 16))
}

#[test]
fn ccw() {
    assert!(
        is_ccw(&ccw_coordinates()),
        "Triangle should report as counter-clockwise."
    );
}

#[test]
fn cw() {
    println!("{:?}", flip(ccw_coordinates()));

    assert!(
        !is_ccw(&flip(ccw_coordinates())),
        "Triangle should report as clockwise after flipping the counter-clockwise one."
    );
}

#[test]
fn degenerate_triangle_counts_as_ccw() {
    assert!(is_ccw(&(p(0, 0), p(16, 16), p(32, 32))));
}

#[test]
fn mapper_keeps_ccw_order() {
    let t = triangle_into_uv_image_space((
        UvVtx { uv_position: p(0, 0), attributes: 'a' },
        UvVtx { uv_position: p(16, 0), attributes: 'b' },
        UvVtx { uv_position: p(0, 16), attributes: 'c' },
    ));
    assert_eq!((t.v0.attributes, t.v1.attributes, t.v2.attributes), ('a', 'b', 'c'));
}

#[test]
fn mapper_flips_cw_with_attributes() {
    let t = triangle_into_uv_image_space((
        UvVtx { uv_position: p(0, 0), attributes: 'a' },
        UvVtx { uv_position: p(0, 16), attributes: 'b' },
        UvVtx { uv_position: p(16, 0), attributes: 'c' },
    ));
    assert_eq!((t.v0.attributes, t.v1.attributes, t.v2.attributes), ('a', 'c', 'b'));
    assert_eq!((t.v1.position().x, t.v1.position().y), (16, 0));
    assert!(is_ccw(&(t.v0.uv_position, t.v1.uv_position, t.v2.uv_position)));
}
