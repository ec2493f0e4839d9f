use rtracer::{Canvas, Color};

#[test]
fn new_canvas_is_black() {
    let c = Canvas::new(3, 2);
    assert_eq!(c.width(), 3);
    assert_eq!(c.height(), 2);
    for y in 0..2 {
        for x in 0..3 {
            assert_eq!(c.get_pixel(x, y), Color::new(0, 0, 0));
        }
    }
}

#[test]
fn put_pixel_sets_one_cell() {
    let mut c = Canvas::new(3, 2);
    c.put_pixel(2, 1, Color::new(10, 20, 30));
    assert_eq!(c.get_pixel(2, 1), Color::new(10, 20, 30));
    assert_eq!(c.get_pixel(1, 1), Color::black());
    assert_eq!(c.get_pixel(2, 0), Color::black());
}

#[test]
fn put_pixel_outside_is_ignored() {
    let mut c = Canvas::new(2, 2);
    c.put_pixel(-1, 0, Color::new(1, 1, 1));
    c.put_pixel(0, -1, Color::new(1, 1, 1));
    c.put_pixel(2, 0, Color::new(1, 1, 1));
    c.put_pixel(0, 2, Color::new(1, 1, 1));
    c.put_pixel(i32::MIN, i32::MAX, Color::new(1, 1, 1));
    for y in 0..2 {
        for x in 0..2 {
            assert_eq!(c.get_pixel(x, y), Color::black());
        }
    }
}

#[test]
fn from_colors_fills_row_by_row() {
    let colors = vec![
        Color::new(1, 2, 3),
        Color::new(4, 5, 6),
        Color::new(7, 8, 9),
        Color::new(10, 11, 12),
    ];
    let c = Canvas::from_colors(2, 2, &colors);
    assert_eq!(c.get_pixel(0, 0), Color::new(1, 2, 3));
    assert_eq!(c.get_pixel(1, 0), Color::new(4, 5, 6));
    assert_eq!(c.get_pixel(0, 1), Color::new(7, 8, 9));
    assert_eq!(c.get_pixel(1, 1), Color::new(10, 11, 12));
}

#[test]
fn empty_canvas() {
    let c = Canvas::new(0, 0);
    assert_eq!(c.width(), 0);
    assert_eq!(c.to_ppm(), b"P3\n0 0\n255\n".to_vec());
}

#[test]
fn centered_pixels_map_to_cells() {
    let mut c = Canvas::new(4, 2);
    c.put_centered(-2, 0, Color::new(1, 0, 0));
    c.put_centered(1, -1, Color::new(2, 0, 0));
    c.put_centered(2, 0, Color::new(3, 0, 0));
    c.put_centered(0, 1, Color::new(4, 0, 0));
    assert_eq!(c.get_pixel(0, 0), Color::new(1, 0, 0));
    assert_eq!(c.get_pixel(3, 1), Color::new(2, 0, 0));
    let mut lit = 0;
    for y in 0..2 {
        for x in 0..4 {
            if c.get_pixel(x, y) != Color::black() {
                lit += 1;
            }
        }
    }
    assert_eq!(lit, 2);
}
