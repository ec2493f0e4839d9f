use rtracer::{Color, SampleSum};

#[test]
fn average_of_samples() {
    let mut s = SampleSum::new();
    s.add(Color::new(255, 0, 10));
    s.add(Color::new(0, 0, 11));
    s.add(Color::new(100, 3, 12));
    assert_eq!(s.count(), 3);
    assert_eq!(s.average(), Color::new(118, 1, 11));
}

#[test]
fn average_of_sixty_four_white_samples() {
    let mut s = SampleSum::new();
    for _ in 0..64 {
        s.add(Color::new(255, 255, 255));
    }
    assert_eq!(s.average(), Color::new(255, 255, 255));
}
