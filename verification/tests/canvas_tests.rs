use redline::Canvas;
use redline::Circle;
use redline::Color;
use redline::Line;
use redline::Rect;
use redline::Triangle;

fn pixel(buf: &[u32], width: usize, x: usize, y: usize) -> u32 {
    buf[y * width + x]
}

#[test]
fn new_canvas_is_zeroed() {
    let canvas = Canvas::new((7, 5));
    let buf = canvas.pixels_raw();
    assert_eq!(buf.len(), 35);
    assert!(buf.iter().all(|&p| p == 0));
}

#[test]
fn new_canvas_empty_dimensions() {
    assert_eq!(Canvas::new((0, 9)).pixels_raw().len(), 0);
    assert_eq!(Canvas::new((9, 0)).pixels_raw().len(), 0);
    assert_eq!(Canvas::new((0, 0)).pixels_raw().len(), 0);
}

#[test]
fn clear_overwrites_everything() {
    let mut canvas = Canvas::new((4, 3));
    canvas.fill_rect(Rect::new((0, 0), 2, 2), Color::Hex(0x11223344));
    canvas.clear(Color::Hex(0xdeadbeef));
    let buf = canvas.pixels_raw();
    assert_eq!(buf.len(), 12);
    assert!(buf.iter().all(|&p| p == 0xdeadbeef));
}

#[test]
fn fill_rect_inside_sets_exactly_the_rect() {
    let mut canvas = Canvas::new((10, 10));
    canvas.fill_rect(Rect::new((2, 3), 4, 2), Color::Hex(0xff0000ff));
    let buf = canvas.pixels_raw();
    for y in 0..10 {
        for x in 0..10 {
            let expected = if (2..6).contains(&x) && (3..5).contains(&y) {
                0xff0000ff
            } else {
                0
            };
            assert_eq!(pixel(&buf, 10, x, y), expected);
        }
    }
}

#[test]
fn fill_rect_clips_to_canvas() {
    let mut canvas = Canvas::new((10, 10));
    canvas.fill_rect(Rect::new((8, 8), 5, 5), Color::Hex(1));
    let buf = canvas.pixels_raw();
    for y in 0..10 {
        for x in 0..10 {
            let expected = if x >= 8 && y >= 8 { 1 } else { 0 };
            assert_eq!(pixel(&buf, 10, x, y), expected);
        }
    }
}

#[test]
fn fill_rect_fully_outside_is_noop() {
    let mut canvas = Canvas::new((10, 10));
    canvas.clear(Color::Hex(7));
    canvas.fill_rect(Rect::new((20, 20), 5, 5), Color::Hex(1));
    assert!(canvas.pixels_raw().iter().all(|&p| p == 7));
}

#[test]
fn fill_rect_zero_size_is_noop() {
    let mut canvas = Canvas::new((10, 10));
    canvas.fill_rect(Rect::new((2, 2), 0, 5), Color::Hex(1));
    canvas.fill_rect(Rect::new((2, 2), 5, 0), Color::Hex(1));
    assert!(canvas.pixels_raw().iter().all(|&p| p == 0));
}

#[test]
fn fill_circle_membership_is_distance_based() {
    let mut canvas = Canvas::new((20, 20));
    canvas.fill_circle(Circle::new((10, 10), 3), Color::Hex(0xabcdef01));
    let buf = canvas.pixels_raw();
    for y in 0..20usize {
        for x in 0..20usize {
            let dx = (x as i64) - 10;
            let dy = (y as i64) - 10;
            let expected = if dx * dx + dy * dy <= 9 { 0xabcdef01 } else { 0 };
            assert_eq!(pixel(&buf, 20, x, y), expected, "pixel ({x}, {y})");
        }
    }
}

#[test]
fn fill_circle_boundary_inclusive() {
    let mut canvas = Canvas::new((20, 20));
    canvas.fill_circle(Circle::new((10, 10), 3), Color::Hex(5));
    let buf = canvas.pixels_raw();
    assert_eq!(pixel(&buf, 20, 13, 10), 5);
    assert_eq!(pixel(&buf, 20, 10, 13), 5);
    assert_eq!(pixel(&buf, 20, 7, 10), 5);
    assert_eq!(pixel(&buf, 20, 14, 10), 0);
}

#[test]
fn fill_circle_zero_radius_paints_center() {
    let mut canvas = Canvas::new((5, 5));
    canvas.fill_circle(Circle::new((2, 3), 0), Color::Hex(9));
    let buf = canvas.pixels_raw();
    for y in 0..5 {
        for x in 0..5 {
            let expected = if x == 2 && y == 3 { 9 } else { 0 };
            assert_eq!(pixel(&buf, 5, x, y), expected);
        }
    }
}

#[test]
fn fill_circle_clipped_near_origin() {
    let mut canvas = Canvas::new((5, 5));
    canvas.fill_circle(Circle::new((0, 0), 2), Color::Hex(3));
    let buf = canvas.pixels_raw();
    for y in 0..5usize {
        for x in 0..5usize {
            let expected = if x * x + y * y <= 4 { 3 } else { 0 };
            assert_eq!(pixel(&buf, 5, x, y), expected);
        }
    }
}

#[test]
fn circle_contains_matches_distance_test() {
    let c = Circle::new((10, 10), 5);
    assert!(c.contains(10, 10));
    assert!(c.contains(15, 10));
    assert!(c.contains(13, 14));
    assert!(!c.contains(16, 10));
    assert!(!c.contains(14, 14));
}

#[test]
fn line_shallow_one_pixel_per_column() {
    let mut canvas = Canvas::new((10, 10));
    canvas.line(Line::new((0, 0), (4, 2)), Color::Hex(0xff));
    let buf = canvas.pixels_raw();
    let expected_rows = [0usize, 0, 1, 1, 2];
    for x in 0..10usize {
        let filled: Vec<usize> = (0..10).filter(|&y| pixel(&buf, 10, x, y) == 0xff).collect();
        if x <= 4 {
            assert_eq!(filled, vec![expected_rows[x]], "column {x}");
        } else {
            assert!(filled.is_empty(), "column {x}");
        }
    }
}

#[test]
fn line_endpoints_are_filled() {
    let mut canvas = Canvas::new((10, 10));
    canvas.line(Line::new((1, 2), (7, 5)), Color::Hex(0xff));
    let buf = canvas.pixels_raw();
    assert_eq!(pixel(&buf, 10, 1, 2), 0xff);
    assert_eq!(pixel(&buf, 10, 7, 5), 0xff);
}

#[test]
fn line_endpoint_order_does_not_matter() {
    let mut a = Canvas::new((10, 10));
    let mut b = Canvas::new((10, 10));
    a.line(Line::new((1, 2), (7, 5)), Color::Hex(0xff));
    b.line(Line::new((7, 5), (1, 2)), Color::Hex(0xff));
    assert_eq!(a.pixels_raw(), b.pixels_raw());
}

#[test]
fn line_vertical_one_pixel_per_row() {
    let mut canvas = Canvas::new((10, 10));
    canvas.line(Line::new((3, 4), (3, 1)), Color::Hex(0xee));
    let buf = canvas.pixels_raw();
    for y in 0..10usize {
        let filled: Vec<usize> = (0..10).filter(|&x| pixel(&buf, 10, x, y) == 0xee).collect();
        if (1..=4).contains(&y) {
            assert_eq!(filled, vec![3], "row {y}");
        } else {
            assert!(filled.is_empty(), "row {y}");
        }
    }
}

#[test]
fn line_single_point() {
    let mut canvas = Canvas::new((5, 5));
    canvas.line(Line::new((2, 2), (2, 2)), Color::Hex(4));
    let buf = canvas.pixels_raw();
    for y in 0..5 {
        for x in 0..5 {
            let expected = if x == 2 && y == 2 { 4 } else { 0 };
            assert_eq!(pixel(&buf, 5, x, y), expected);
        }
    }
}

#[test]
fn line_clips_out_of_range_pixels() {
    let mut canvas = Canvas::new((5, 5));
    canvas.line(Line::new((0, 0), (9, 0)), Color::Hex(2));
    let buf = canvas.pixels_raw();
    for x in 0..5 {
        assert_eq!(pixel(&buf, 5, x, 0), 2);
    }
    for y in 1..5 {
        for x in 0..5 {
            assert_eq!(pixel(&buf, 5, x, y), 0);
        }
    }
}

#[test]
fn triangle_area2_exact() {
    let t = Triangle::new((0, 0), (4, 0), (0, 3));
    assert_eq!(t.area2(), 12);
    assert_eq!(t.area2() as f64 / 2.0, 6.0);
    let degenerate = Triangle::new((1, 1), (3, 3), (5, 5));
    assert_eq!(degenerate.area2(), 0);
}

#[test]
fn triangle_vertices_are_filled() {
    let mut canvas = Canvas::new((10, 10));
    let t = Triangle::new((1, 1), (6, 2), (3, 7));
    canvas.fill_triangle(t, Color::Hex(0xcc));
    let buf = canvas.pixels_raw();
    assert_eq!(pixel(&buf, 10, 1, 1), 0xcc);
    assert_eq!(pixel(&buf, 10, 6, 2), 0xcc);
    assert_eq!(pixel(&buf, 10, 3, 7), 0xcc);
}

#[test]
fn triangle_inside_filled_outside_not() {
    let mut canvas = Canvas::new((10, 10));
    let t = Triangle::new((0, 0), (8, 0), (0, 8));
    canvas.fill_triangle(t, Color::Hex(0xcc));
    let buf = canvas.pixels_raw();
    assert_eq!(pixel(&buf, 10, 2, 2), 0xcc);
    assert_eq!(pixel(&buf, 10, 1, 3), 0xcc);
    assert_eq!(pixel(&buf, 10, 9, 9), 0);
    assert_eq!(pixel(&buf, 10, 5, 6), 0);
}

#[test]
fn triangle_contains_matches_hull() {
    let t = Triangle::new((0, 0), (8, 0), (0, 8));
    assert!(t.contains(0, 0));
    assert!(t.contains(8, 0));
    assert!(t.contains(0, 8));
    assert!(t.contains(4, 4));
    assert!(t.contains(2, 2));
    assert!(!t.contains(5, 5));
    assert!(!t.contains(9, 9));
}

#[test]
fn pixels_colors_wraps_raw_values() {
    let mut canvas = Canvas::new((2, 1));
    canvas.fill_rect(Rect::new((0, 0), 1, 1), Color::Hex(0x12345678));
    let raw = canvas.pixels_raw();
    let colors = canvas.pixels_colors();
    assert_eq!(colors.len(), raw.len());
    assert_eq!(colors[0], Color::Hex(0x12345678));
    assert_eq!(colors[1], Color::Hex(0));
}

#[test]
fn pixels_raw_is_a_snapshot() {
    let mut canvas = Canvas::new((2, 2));
    canvas.clear(Color::Hex(1));
    let before = canvas.pixels_raw();
    canvas.clear(Color::Hex(2));
    assert!(before.iter().all(|&p| p == 1));
    assert!(canvas.pixels_raw().iter().all(|&p| p == 2));
}

#[test]
fn end_to_end_scene() {
    let mut canvas = Canvas::new((640, 320));
    canvas.clear(Color::Hex(0xd1d5dbff));
    canvas.fill_circle(Circle::new((200, 200), 150), Color::Hex(0xb91c1cff));
    canvas.fill_rect(Rect::new((300, 100), 320, 100), Color::Hex(0xf87171ff));
    let buf = canvas.pixels_raw();
    assert_eq!(pixel(&buf, 640, 310, 110), 0xf87171ff);
    assert_eq!(pixel(&buf, 640, 0, 0), 0xd1d5dbff);
    assert_eq!(pixel(&buf, 640, 200, 200), 0xb91c1cff);
}

#[test]
fn ppm_export_two_by_one() {
    let mut canvas = Canvas::new((2, 1));
    canvas.clear(Color::Hex(0x0102ff00));
    let bytes = redline::ppm::ppm_bytes(&canvas.pixels_raw(), 2, 1);
    assert_eq!(bytes, b"P3 2 1 255\n1 2 255\n1 2 255\n".to_vec());
}

#[test]
fn ppm_header_for_empty_canvas() {
    let canvas = Canvas::new((0, 0));
    let bytes = redline::ppm::ppm_bytes(&canvas.pixels_raw(), 0, 0);
    assert_eq!(bytes, b"P3 0 0 255\n".to_vec());
}

#[test]
fn ppm_multi_digit_channels() {
    let pixels = vec![0xff800a00u32];
    let bytes = redline::ppm::ppm_bytes(&pixels, 1, 1);
    assert_eq!(bytes, b"P3 1 1 255\n255 128 10\n".to_vec());
}
