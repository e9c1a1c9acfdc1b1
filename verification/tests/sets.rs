use morpion::hashed::{Candidates, LineSet};
use morpion::line::{Direction, Line};
use morpion::point::Point;

const ALL: [Direction; 4] = [Direction::V, Direction::SP, Direction::H, Direction::SN];

#[test]
fn a_new_line_set_is_empty() {
    let set = LineSet::new();
    assert_eq!(set.len(), 0);
    assert!(!set.contains(&Line { start_x: 0, start_y: 0, direction: Direction::H }));
    assert_eq!(LineSet::with_capacity(10).len(), 0);
}

#[test]
fn a_line_set_holds_each_line_once() {
    let mut set = LineSet::new();
    let a = Line { start_x: 1, start_y: 2, direction: Direction::H };
    let b = Line { start_x: 1, start_y: 2, direction: Direction::V };
    let c = Line { start_x: 2, start_y: 1, direction: Direction::H };
    assert!(set.insert(a));
    assert_eq!(set.len(), 1);
    assert!(set.contains(&a));
    assert!(!set.contains(&b));
    assert!(!set.contains(&c));
    assert!(!set.insert(a));
    assert_eq!(set.len(), 1);
    assert!(set.insert(b));
    assert!(set.insert(c));
    assert_eq!(set.len(), 3);
    assert!(set.contains(&a) && set.contains(&b) && set.contains(&c));
}

#[test]
fn a_line_set_tells_all_axes_and_anchors_apart() {
    let mut set = LineSet::new();
    let mut count = 0;
    for x in -3i16..=3 {
        for y in -3i16..=3 {
            for d in ALL {
                assert!(set.insert(Line { start_x: x, start_y: y, direction: d }));
                count += 1;
                assert_eq!(set.len(), count);
            }
        }
    }
    for x in -3i16..=3 {
        for y in -3i16..=3 {
            for d in ALL {
                assert!(set.contains(&Line { start_x: x, start_y: y, direction: d }));
            }
        }
    }
    assert!(!set.contains(&Line { start_x: 4, start_y: 0, direction: Direction::H }));
}

#[test]
fn a_new_candidate_set_is_empty() {
    let set = Candidates::new();
    assert_eq!(set.len(), 0);
    assert!(set.into_vec().is_empty());
    assert_eq!(Candidates::with_capacity(60).len(), 0);
}

#[test]
fn a_candidate_set_holds_each_candidate_once() {
    let mut set = Candidates::new();
    let line = Line { start_x: 1, start_y: 2, direction: Direction::SP };
    let other = Line { start_x: 1, start_y: 2, direction: Direction::SN };
    let point = Point::new(3, 4);
    assert!(set.insert((7, line, point)));
    assert!(!set.insert((7, line, point)));
    assert!(set.insert((8, line, point)));
    assert!(set.insert((7, other, point)));
    assert!(set.insert((7, line, Point::new(4, 3))));
    assert_eq!(set.len(), 4);
    let mut items = set.into_vec();
    items.sort_by_key(|(n, l, p)| (*n, l.packed(), p.packed()));
    assert_eq!(
        items,
        vec![
            (7, line, point),
            (7, line, Point::new(4, 3)),
            (7, other, point),
            (8, line, point),
        ]
    );
}
