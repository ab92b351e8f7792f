use aitios_tex::geom_tex::{bake_texel_sources, nearest_pixel};
use aitios_tex::raster::FixedPoint;
use aitios_tex::uv_triangle::{UvTriangle, UvVtx};

fn tri(a: (i32, i32), b: (i32, i32), c: (i32, i32)) -> UvTriangle<()> {
    let v = |p: (i32, i32)| UvVtx { uv_position: FixedPoint { x: p.0, y: p.1 }, attributes: () };
    UvTriangle { v0: v(a), v1: v(b), v2: v(c) }
}

fn at(texels: &[Option<usize>], width: usize, height: usize, x: usize, y: usize) -> Option<usize> {
    texels[(height - 1 - y) * width + x]
}

#[test]
fn nearest_pixel_rounds_halves_up() {
    assert_eq!(nearest_pixel(0), 0);
    assert_eq!(nearest_pixel(7), 0);
    assert_eq!(nearest_pixel(8), 1);
    assert_eq!(nearest_pixel(24), 2);
    assert_eq!(nearest_pixel(-8), 0);
    assert_eq!(nearest_pixel(-9), -1);
    assert_eq!(nearest_pixel(-24), -1);
    assert_eq!(nearest_pixel(-25), -2);
}

#[test]
fn interior_without_bleed() {
    let tris = vec![tri((0, 0), (64, 0), (0, 64))];
    let texels = bake_texel_sources(&tris, &vec![true], 6, 6, 0);
    assert_eq!(texels.len(), 36);
    for x in 0..6 {
        for y in 0..6 {
            let expected = if x + y < 4 { Some(0) } else { None };
            assert_eq!(at(&texels, 6, 6, x, y), expected, "texel ({}, {})", x, y);
        }
    }
}

#[test]
fn bleed_widens_the_island() {
    let tris = vec![tri((0, 0), (64, 0), (0, 64))];
    let texels = bake_texel_sources(&tris, &vec![true], 6, 6, 1);
    for x in 0..6 {
        for y in 0..6 {
            let expected = if x + y <= 4 { Some(0) } else { None };
            assert_eq!(at(&texels, 6, 6, x, y), expected, "texel ({}, {})", x, y);
        }
    }
}

#[test]
fn degenerate_triangle_only_bleeds() {
    let tris = vec![tri((0, 0), (64, 0), (0, 64))];
    let texels = bake_texel_sources(&tris, &vec![false], 6, 6, 0);
    assert!(texels.iter().all(|t| t.is_none()));
    let bled = bake_texel_sources(&tris, &vec![false], 6, 6, 1);
    assert_eq!(at(&bled, 6, 6, 2, 2), Some(0));
    assert_eq!(at(&bled, 6, 6, 1, 1), Some(0));
}

#[test]
fn interior_wins_over_later_bleed() {
    let tris = vec![tri((0, 0), (64, 0), (0, 64)), tri((16, 16), (48, 16), (16, 48))];
    let texels = bake_texel_sources(&tris, &vec![true, false], 6, 6, 1);
    assert_eq!(at(&texels, 6, 6, 1, 1), Some(0));
    let outlines_only = bake_texel_sources(&tris, &vec![false, false], 6, 6, 1);
    assert_eq!(at(&outlines_only, 6, 6, 1, 1), Some(1));
}

#[test]
fn later_interior_overwrites_earlier_one() {
    let tris = vec![tri((0, 0), (64, 0), (0, 64)), tri((0, 0), (64, 0), (0, 64))];
    let texels = bake_texel_sources(&tris, &vec![true, true], 4, 4, 0);
    assert_eq!(at(&texels, 4, 4, 0, 0), Some(1));
}
