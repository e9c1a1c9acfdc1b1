use morpion::point::Point;

#[test]
fn new_keeps_both_coordinates() {
    let p = Point::new(-7, 12);
    assert_eq!(p.x, -7);
    assert_eq!(p.y, 12);
    assert_eq!(p, Point { x: -7, y: 12 });
}

#[test]
fn points_compare_by_value() {
    assert_eq!(Point::new(3, 4), Point::new(3, 4));
    assert_ne!(Point::new(3, 4), Point::new(4, 3));
}

#[test]
fn step_adds_the_vector() {
    let mut p = Point::new(2, -5);
    p.step((1, -1));
    assert_eq!(p, Point::new(3, -6));
    p.step((-4, 4));
    assert_eq!(p, Point::new(-1, -2));
    p.step((0, 0));
    assert_eq!(p, Point::new(-1, -2));
}

#[test]
fn packed_puts_x_above_y() {
    assert_eq!(Point::new(0, 0).packed(), 0);
    assert_eq!(Point::new(1, 0).packed(), 65536);
    assert_eq!(Point::new(0, 1).packed(), 1);
    assert_eq!(Point::new(3, -2).packed(), 3 * 65536 - 2);
    assert_eq!(Point::new(-3, 2).packed(), -3 * 65536 + 2);
    assert_eq!(Point::new(i16::MAX, i16::MAX).packed(), 32767 * 65536 + 32767);
    assert_eq!(Point::new(i16::MIN, 0).packed(), i32::MIN);
}

#[test]
fn packed_tells_points_apart() {
    let mut seen = Vec::new();
    for x in -6i16..=6 {
        for y in -6i16..=6 {
            let packed = Point::new(x, y).packed();
            assert!(!seen.contains(&packed));
            seen.push(packed);
        }
    }
}

#[test]
fn quadrant_counts_counter_clockwise() {
    assert_eq!(Point::new(1, 0).quadrant(), 0);
    assert_eq!(Point::new(5, 5).quadrant(), 0);
    assert_eq!(Point::new(0, 0).quadrant(), 1);
    assert_eq!(Point::new(-3, 2).quadrant(), 1);
    assert_eq!(Point::new(0, -1).quadrant(), 2);
    assert_eq!(Point::new(-3, -2).quadrant(), 2);
    assert_eq!(Point::new(1, -1).quadrant(), 3);
    assert_eq!(Point::new(4, -5).quadrant(), 3);
}
