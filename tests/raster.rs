use pixelsynth::color::Color;
use pixelsynth::raster::{Raster, RasterPoint};

const RED: u32 = 0xFFFF_0000;

fn red() -> Color {
    Color::rgb(255, 0, 0)
}

fn set_pixels(r: &Raster) -> Vec<(usize, usize)> {
    let (w, _) = r.size();
    let mut out = Vec::new();
    for (i, p) in r.borrow_buffer().iter().enumerate() {
        if *p != 0 {
            assert_eq!(*p, RED);
            out.push((i % w, i / w));
        }
    }
    out.sort();
    out
}

fn sorted(mut v: Vec<(usize, usize)>) -> Vec<(usize, usize)> {
    v.sort();
    v
}

#[test]
fn new_raster_is_blank() {
    let r = Raster::new(8, 6);
    assert_eq!(r.size(), (8, 6));
    assert_eq!(r.dimensions(), (8, 6));
    assert_eq!(r.borrow_buffer().len(), 48);
    assert!(r.borrow_buffer().iter().all(|p| *p == 0));
}

#[test]
fn fill_sets_every_pixel() {
    let mut r = Raster::new(3, 2);
    r.fill(&Color::rgb(16, 18, 33));
    assert_eq!(r.borrow_buffer(), &vec![0xFF10_1221u32; 6]);
}

#[test]
fn put_pixel_writes_row_major() {
    let mut r = Raster::new(4, 3);
    r.put_pixel(2, 1, &red());
    assert_eq!(r.borrow_buffer()[6], RED);
    assert_eq!(set_pixels(&r), vec![(2, 1)]);
    r.put_pixel_unsafe(3, 2, &red());
    assert_eq!(r.borrow_buffer()[11], RED);
}

#[test]
fn put_pixel_out_of_bounds_is_ignored() {
    let mut r = Raster::new(4, 3);
    let before = r.borrow_buffer().clone();
    r.put_pixel(-1, 0, &red());
    r.put_pixel(0, -1, &red());
    r.put_pixel(4, 0, &red());
    r.put_pixel(0, 3, &red());
    r.put_pixel(isize::MIN, isize::MAX, &red());
    assert_eq!(r.borrow_buffer(), &before);
}

#[test]
fn draw_line_horizontal() {
    let mut r = Raster::new(8, 4);
    r.draw_line(&RasterPoint::new(0, 0), &RasterPoint::new(4, 0), &red());
    assert_eq!(set_pixels(&r), vec![(0, 0), (1, 0), (2, 0), (3, 0), (4, 0)]);
}

#[test]
fn draw_line_diagonal() {
    let mut r = Raster::new(8, 8);
    r.draw_line(&RasterPoint::new(0, 0), &RasterPoint::new(3, 3), &red());
    assert_eq!(set_pixels(&r), vec![(0, 0), (1, 1), (2, 2), (3, 3)]);
}

#[test]
fn draw_line_steep() {
    let mut r = Raster::new(4, 4);
    r.draw_line(&RasterPoint::new(0, 0), &RasterPoint::new(1, 3), &red());
    assert_eq!(set_pixels(&r), vec![(0, 0), (0, 1), (1, 2), (1, 3)]);
}

#[test]
fn draw_line_backwards_and_single_point() {
    let mut r = Raster::new(8, 4);
    r.draw_line(&RasterPoint::new(5, 2), &RasterPoint::new(2, 2), &red());
    assert_eq!(set_pixels(&r), vec![(2, 2), (3, 2), (4, 2), (5, 2)]);
    let mut s = Raster::new(4, 4);
    s.draw_line(&RasterPoint::new(1, 1), &RasterPoint::new(1, 1), &red());
    assert_eq!(set_pixels(&s), vec![(1, 1)]);
}

#[test]
fn draw_line_is_clipped() {
    let mut r = Raster::new(4, 4);
    r.draw_line(&RasterPoint::new(-2, 1), &RasterPoint::new(2, 1), &red());
    assert_eq!(set_pixels(&r), vec![(0, 1), (1, 1), (2, 1)]);
}

#[test]
fn draw_polyline_open_and_closed() {
    let pts = vec![RasterPoint::new(0, 0), RasterPoint::new(3, 0), RasterPoint::new(3, 2)];
    let mut r = Raster::new(5, 5);
    r.draw_polyline(&pts, &red(), false);
    let open = sorted(vec![(0, 0), (1, 0), (2, 0), (3, 0), (3, 1), (3, 2)]);
    assert_eq!(set_pixels(&r), open);
    let mut c = Raster::new(5, 5);
    c.draw_polyline(&pts, &red(), true);
    let closed = sorted(vec![(0, 0), (1, 0), (2, 0), (3, 0), (3, 1), (3, 2), (1, 1), (2, 1)]);
    assert_eq!(set_pixels(&c), closed);
}

#[test]
fn fill_rect_half_open() {
    let mut r = Raster::new(4, 4);
    r.fill_rect(RasterPoint::new(0, 0), RasterPoint::new(2, 2), &red());
    assert_eq!(set_pixels(&r), vec![(0, 0), (0, 1), (1, 0), (1, 1)]);
}

#[test]
fn fill_rect_reversed_draws_nothing() {
    let mut r = Raster::new(4, 4);
    r.fill_rect(RasterPoint::new(3, 3), RasterPoint::new(1, 1), &red());
    r.fill_rect(RasterPoint::new(1, 3), RasterPoint::new(3, 1), &red());
    assert_eq!(set_pixels(&r), vec![]);
}

#[test]
fn fill_rect_is_clipped() {
    let mut r = Raster::new(3, 3);
    r.fill_rect(RasterPoint::new(-5, 2), RasterPoint::new(10, 7), &red());
    assert_eq!(set_pixels(&r), vec![(0, 2), (1, 2), (2, 2)]);
}

#[test]
fn fill_polygon_triangle() {
    let mut r = Raster::new(6, 6);
    let tri = vec![RasterPoint::new(0, 0), RasterPoint::new(4, 0), RasterPoint::new(0, 4)];
    r.fill_polygon(tri, &red());
    let mut expected = Vec::new();
    for y in 0..4usize {
        for x in 0..(4 - y) {
            expected.push((x, y));
        }
    }
    assert_eq!(set_pixels(&r), sorted(expected));
}

#[test]
fn fill_polygon_square() {
    let mut r = Raster::new(6, 6);
    let sq = vec![
        RasterPoint::new(1, 1),
        RasterPoint::new(4, 1),
        RasterPoint::new(4, 3),
        RasterPoint::new(1, 3),
    ];
    r.fill_polygon(sq, &red());
    assert_eq!(
        set_pixels(&r),
        vec![(1, 1), (1, 2), (2, 1), (2, 2), (3, 1), (3, 2)]
    );
}

#[test]
fn fill_polygon_single_point_draws_nothing() {
    let mut r = Raster::new(3, 3);
    r.fill_polygon(vec![RasterPoint::new(1, 1)], &red());
    assert_eq!(set_pixels(&r), vec![]);
}

#[test]
fn draw_line_far_beyond_the_raster() {
    let mut r = Raster::new(8, 2);
    r.draw_line(&RasterPoint::new(0, 0), &RasterPoint::new(20000, 0), &red());
    let expected: Vec<(usize, usize)> = (0..8).map(|x| (x, 0)).collect();
    assert_eq!(set_pixels(&r), expected);
    let mut d = Raster::new(4, 4);
    d.draw_line(&RasterPoint::new(-100000, -100000), &RasterPoint::new(100000, 100000), &red());
    assert_eq!(set_pixels(&d), vec![(0, 0), (1, 1), (2, 2), (3, 3)]);
}

#[test]
fn draw_polyline_with_far_points() {
    let pts = vec![
        RasterPoint::new(-30000, 1),
        RasterPoint::new(30000, 1),
        RasterPoint::new(30000, 2),
    ];
    let mut r = Raster::new(4, 4);
    r.draw_polyline(&pts, &red(), false);
    assert_eq!(set_pixels(&r), vec![(0, 1), (1, 1), (2, 1), (3, 1)]);
}
