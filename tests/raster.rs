use aitios_tex::raster::{fill_triangle, FixedPoint, Rasterize};
use aitios_tex::uv_triangle::{UvTriangle, UvVtx};

fn p(x: i32, y: i32) -> FixedPoint {
    FixedPoint { x, y }
}

fn tri(a: FixedPoint, b: FixedPoint, c: FixedPoint) -> UvTriangle<()> {
    UvTriangle {
        v0: UvVtx { uv_position: a, attributes: () },
        v1: UvVtx { uv_position: b, attributes: () },
        v2: UvVtx { uv_position: c, attributes: () },
    }
}

/// Pixel `(x, y)` (y up) of a raster `width` x `height`.
fn at<T: Copy>(buf: &[T], width: usize, height: usize, x: usize, y: usize) -> T {
    buf[(height - 1 - y) * width + x]
}

#[test]
fn fills_pixels_with_x_plus_y_below_four() {
    let mut buf = vec![0u8; 16];
    tri(p(0, 0), p(64, 0), p(0, 64)).rasterize_to_slice(&mut buf, 4, 4, 1);
    for x in 0..4 {
        for y in 0..4 {
            let expected = if x + y < 4 { 1 } else { 0 };
            assert_eq!(at(&buf, 4, 4, x, y), expected, "pixel ({}, {})", x, y);
        }
    }
}

#[test]
fn clockwise_triangle_fills_nothing() {
    let mut buf = vec![0u8; 16];
    tri(p(0, 0), p(0, 64), p(64, 0)).rasterize_to_slice(&mut buf, 4, 4, 1);
    assert!(buf.iter().all(|&v| v == 0));
}

#[test]
fn degenerate_triangle_fills_nothing() {
    let mut buf = vec![0u8; 64];
    fill_triangle(p(0, 0), p(32, 32), p(96, 96), &mut buf, 8, 8, 1);
    assert!(buf.iter().all(|&v| v == 0));
}

#[test]
fn off_raster_triangle_is_clipped() {
    let mut buf = vec![0u8; 4];
    tri(p(-64, -64), p(160, -64), p(-64, 160)).rasterize_to_slice(&mut buf, 2, 2, 7);
    assert_eq!(buf, vec![7, 7, 7, 7]);
    let mut far = vec![0u8; 4];
    tri(p(1600, 1600), p(1700, 1600), p(1600, 1700)).rasterize_to_slice(&mut far, 2, 2, 7);
    assert_eq!(far, vec![0, 0, 0, 0]);
}

#[test]
fn untouched_texels_keep_their_value() {
    let mut buf = vec![9u8; 16];
    tri(p(0, 0), p(32, 0), p(0, 32)).rasterize_to_slice(&mut buf, 4, 4, 1);
    assert_eq!(at(&buf, 4, 4, 0, 0), 1);
    assert_eq!(at(&buf, 4, 4, 3, 3), 9);
}

#[test]
fn rasterizing_twice_gives_identical_pixels() {
    let t = tri(p(3, 5), p(117, 20), p(40, 99));
    let mut first = vec![0u8; 64];
    let mut second = vec![0u8; 64];
    t.rasterize_to_slice(&mut first, 8, 8, 1);
    t.rasterize_to_slice(&mut second, 8, 8, 1);
    assert_eq!(first, second);
    assert!(first.iter().any(|&v| v == 1));
}

#[test]
fn square_split_on_its_diagonal_is_filled_exactly_once() {
    // Two triangles sharing the diagonal (0, 0) - (4, 4), both counter-clockwise.
    let lower = tri(p(0, 0), p(64, 0), p(64, 64));
    let upper = tri(p(64, 64), p(0, 64), p(0, 0));
    let mut a = vec![0u8; 16];
    let mut b = vec![0u8; 16];
    lower.rasterize_to_slice(&mut a, 4, 4, 1);
    upper.rasterize_to_slice(&mut b, 4, 4, 1);
    for i in 0..16 {
        assert_eq!(a[i] + b[i], 1, "texel {}", i);
    }
}

#[test]
fn fan_around_a_center_is_filled_exactly_once() {
    // Four triangles around the center (2.5, 2.5) of a 5 x 5 square.
    let c = p(40, 40);
    let corners = [p(0, 0), p(80, 0), p(80, 80), p(0, 80)];
    let mut count = vec![0u8; 25];
    for k in 0..4 {
        let t = tri(corners[k], corners[(k + 1) % 4], c);
        let mut buf = vec![0u8; 25];
        t.rasterize_to_slice(&mut buf, 5, 5, 1);
        for i in 0..25 {
            count[i] += buf[i];
        }
    }
    assert!(count.iter().all(|&n| n == 1), "{:?}", count);
}
