use rtracer::{parse_decimal, parse_pixel, push_decimal, Canvas, Color};

#[test]
fn encodes_header_and_pixels() {
    let mut c = Canvas::new(2, 1);
    c.put_pixel(1, 0, Color::new(255, 7, 0));
    let text = String::from_utf8(c.to_ppm()).unwrap();
    assert_eq!(text, "P3\n2 1\n255\n0 0 0\n255 7 0\n");
}

#[test]
fn round_trip_keeps_every_pixel() {
    let mut c = Canvas::new(4, 3);
    for y in 0..3 {
        for x in 0..4 {
            c.put_pixel(x, y, Color::new((x * 60) as u8, (y * 100) as u8, (x * y + 9) as u8));
        }
    }
    let back = Canvas::from_ppm(&c.to_ppm()).unwrap();
    assert_eq!(back.width(), 4);
    assert_eq!(back.height(), 3);
    for y in 0..3u32 {
        for x in 0..4u32 {
            assert_eq!(back.get_pixel(x, y), c.get_pixel(x, y));
        }
    }
}

#[test]
fn decodes_written_text() {
    let c = Canvas::from_ppm(b"P3\n1 2\n255\n1 22 255\n0 100 9\n").unwrap();
    assert_eq!(c.width(), 1);
    assert_eq!(c.height(), 2);
    assert_eq!(c.get_pixel(0, 0), Color::new(1, 22, 255));
    assert_eq!(c.get_pixel(0, 1), Color::new(0, 100, 9));
}

#[test]
fn rejects_malformed_text() {
    assert!(Canvas::from_ppm(b"").is_none());
    assert!(Canvas::from_ppm(b"P6\n1 1\n255\n0 0 0\n").is_none());
    assert!(Canvas::from_ppm(b"P3\n1 1\n255\n256 0 0\n").is_none());
    assert!(Canvas::from_ppm(b"P3\n1 1\n255\n00 0 0\n").is_none());
    assert!(Canvas::from_ppm(b"P3\n2 1\n255\n0 0 0\n").is_none());
    assert!(Canvas::from_ppm(b"P3\n1 1\n255\n0 0 0\n0 0 0\n").is_none());
    assert!(Canvas::from_ppm(b"P3\n1 1\n255\n0 0 0").is_none());
    assert!(Canvas::from_ppm(b"P3\n1 1\n100\n0 0 0\n").is_none());
    assert!(Canvas::from_ppm(b"P3\n1  1\n255\n0 0 0\n").is_none());
}

#[test]
fn decimal_spelling() {
    let mut out = b"x".to_vec();
    push_decimal(&mut out, 0);
    push_decimal(&mut out, 4294967295);
    assert_eq!(out, b"x04294967295".to_vec());
}

#[test]
fn decimal_reading() {
    assert_eq!(parse_decimal(b"12 ", 0, 255), Some((12, 2)));
    assert_eq!(parse_decimal(b"a4294967295\n", 1, u32::MAX), Some((4294967295, 11)));
    assert_eq!(parse_decimal(b"4294967296", 0, u32::MAX), None);
    assert_eq!(parse_decimal(b"012", 0, 255), None);
    assert_eq!(parse_decimal(b"x", 0, 255), None);
    assert_eq!(parse_decimal(b"255", 0, 254), None);
}

#[test]
fn pixel_line_reading() {
    assert_eq!(parse_pixel(b"9 80 255\nrest", 0), Some((Color::new(9, 80, 255), 9)));
    assert_eq!(parse_pixel(b"9 80 255 ", 0), None);
}
