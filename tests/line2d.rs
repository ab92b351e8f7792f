use aitios_tex::line2d::{rasterize_line, Line2D};
use aitios_tex::raster::Rasterize;

fn covered(line: Line2D, width: usize, height: usize) -> Vec<(usize, usize)> {
    let mut buf = vec![false; width * height];
    line.rasterize_to_slice(&mut buf, width, height, true);
    let mut pixels = Vec::new();
    for y in 0..height {
        for x in 0..width {
            if buf[(height - 1 - y) * width + x] {
                pixels.push((x, y));
            }
        }
    }
    pixels
}

#[test]
fn shallow_line_walks_every_column() {
    assert_eq!(
        rasterize_line((0, 0), (5, 2), 10, 10),
        vec![(0, 0), (1, 0), (2, 1), (3, 1), (4, 2), (5, 2)]
    );
}

#[test]
fn steep_line_in_negative_direction() {
    assert_eq!(
        rasterize_line((3, 3), (2, 0), 10, 10),
        vec![(3, 3), (3, 2), (2, 1), (2, 0)]
    );
}

#[test]
fn walk_is_the_same_backwards_for_diagonals() {
    assert_eq!(rasterize_line((0, 0), (3, 3), 4, 4), vec![(0, 0), (1, 1), (2, 2), (3, 3)]);
    assert_eq!(rasterize_line((3, 3), (0, 0), 4, 4), vec![(3, 3), (2, 2), (1, 1), (0, 0)]);
}

#[test]
fn single_point_line() {
    assert_eq!(rasterize_line((2, 1), (2, 1), 4, 4), vec![(2, 1)]);
}

#[test]
fn line_pixels_outside_the_raster_are_skipped() {
    assert_eq!(rasterize_line((0, 0), (5, 2), 3, 3), vec![(0, 0), (1, 0), (2, 1)]);
    assert_eq!(rasterize_line((-2, 1), (2, 1), 3, 3), vec![(0, 1), (1, 1), (2, 1)]);
}

#[test]
fn zero_stroke_width_visits_nothing() {
    let line = Line2D { start: (0, 0), end: (3, 3), stroke_width: 0 };
    assert!(covered(line, 4, 4).is_empty());
}

#[test]
fn even_stroke_reaches_one_pixel_back() {
    let line = Line2D { start: (1, 1), end: (1, 1), stroke_width: 2 };
    assert_eq!(covered(line, 4, 4), vec![(0, 0), (1, 0), (0, 1), (1, 1)]);
}

#[test]
fn odd_stroke_is_centered() {
    let line = Line2D { start: (1, 1), end: (1, 1), stroke_width: 3 };
    assert_eq!(
        covered(line, 4, 4),
        vec![(0, 0), (1, 0), (2, 0), (0, 1), (1, 1), (2, 1), (0, 2), (1, 2), (2, 2)]
    );
}

#[test]
fn stroke_is_clamped_to_the_raster() {
    let line = Line2D { start: (0, 0), end: (1, 0), stroke_width: 4 };
    assert_eq!(
        covered(line, 3, 2),
        vec![(0, 0), (1, 0), (2, 0), (0, 1), (1, 1), (2, 1)]
    );
}
