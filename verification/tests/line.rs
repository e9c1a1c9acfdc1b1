use morpion::extras::DirectionIter;
use morpion::line::{Direction, Line};
use morpion::point::Point;

const ALL: [Direction; 4] = [Direction::V, Direction::SP, Direction::H, Direction::SN];

#[test]
fn steps_of_each_axis() {
    assert_eq!(Direction::H.single_step(), (1, 0));
    assert_eq!(Direction::V.single_step(), (0, 1));
    assert_eq!(Direction::SP.single_step(), (1, 1));
    assert_eq!(Direction::SN.single_step(), (1, -1));
    assert_eq!(Direction::H.full_step(), (4, 0));
    assert_eq!(Direction::V.full_step(), (0, 4));
    assert_eq!(Direction::SP.full_step(), (4, 4));
    assert_eq!(Direction::SN.full_step(), (4, -4));
    assert_eq!(Direction::H.opposite_single_step(), (-1, 0));
    assert_eq!(Direction::V.opposite_single_step(), (0, -1));
    assert_eq!(Direction::SP.opposite_single_step(), (-1, -1));
    assert_eq!(Direction::SN.opposite_single_step(), (-1, 1));
    assert_eq!(Direction::H.opposite_full_step(), (-4, 0));
    assert_eq!(Direction::V.opposite_full_step(), (0, -4));
    assert_eq!(Direction::SP.opposite_full_step(), (-4, -4));
    assert_eq!(Direction::SN.opposite_full_step(), (-4, 4));
}

#[test]
fn masks_of_each_axis() {
    assert_eq!(Direction::V.get_in_mask(), 0b0000_0001);
    assert_eq!(Direction::SP.get_in_mask(), 0b0000_0010);
    assert_eq!(Direction::H.get_in_mask(), 0b0000_0100);
    assert_eq!(Direction::SN.get_in_mask(), 0b0000_1000);
    assert_eq!(Direction::V.get_out_mask(), 0b0001_0000);
    assert_eq!(Direction::SP.get_out_mask(), 0b0010_0000);
    assert_eq!(Direction::H.get_out_mask(), 0b0100_0000);
    assert_eq!(Direction::SN.get_out_mask(), 0b1000_0000);
    assert_eq!(Direction::V.get_inout_mask(), 0b0001_0001);
    assert_eq!(Direction::SP.get_inout_mask(), 0b0010_0010);
    assert_eq!(Direction::H.get_inout_mask(), 0b0100_0100);
    assert_eq!(Direction::SN.get_inout_mask(), 0b1000_1000);
}

#[test]
fn setting_masks_equal_reading_masks_and_clearing_masks_are_their_complements() {
    for d in ALL {
        assert_eq!(d.set_in_t_mask(), d.get_in_mask());
        assert_eq!(d.set_out_t_mask(), d.get_out_mask());
        assert_eq!(d.set_inout_t_mask(), d.get_inout_mask());
        assert_eq!(d.set_in_f_mask(), !d.get_in_mask());
        assert_eq!(d.set_out_f_mask(), !d.get_out_mask());
        assert_eq!(d.set_inout_f_mask(), !d.get_inout_mask());
        assert_eq!(d.get_inout_mask(), d.get_in_mask() | d.get_out_mask());
    }
}

#[test]
fn the_eight_bits_are_shared_out_among_the_axes() {
    let mut all = 0u8;
    for d in ALL {
        assert_eq!(all & d.get_inout_mask(), 0);
        all |= d.get_inout_mask();
    }
    assert_eq!(all, 255);
}

#[test]
fn offset_range_follows_the_flags() {
    for d in ALL {
        assert_eq!(d.offset_range(0), (0, 5));
        assert_eq!(d.offset_range(d.get_in_mask()), (0, 1));
        assert_eq!(d.offset_range(d.get_out_mask()), (4, 5));
        assert_eq!(d.offset_range(d.get_inout_mask()), (0, 0));
        assert_eq!(d.offset_range(255), (0, 0));
        assert_eq!(d.offset_range(!d.get_inout_mask()), (0, 5));
    }
}

#[test]
fn new_shifts_the_anchor_back_by_the_offset() {
    let pivot = Point::new(10, -3);
    assert_eq!(
        Line::new(pivot, Direction::H, 0),
        Line { start_x: 10, start_y: -3, direction: Direction::H }
    );
    assert_eq!(
        Line::new(pivot, Direction::H, 3),
        Line { start_x: 7, start_y: -3, direction: Direction::H }
    );
    assert_eq!(
        Line::new(pivot, Direction::V, 4),
        Line { start_x: 10, start_y: -7, direction: Direction::V }
    );
    assert_eq!(
        Line::new(pivot, Direction::SP, 2),
        Line { start_x: 8, start_y: -5, direction: Direction::SP }
    );
    assert_eq!(
        Line::new(pivot, Direction::SN, 1),
        Line { start_x: 9, start_y: -2, direction: Direction::SN }
    );
}

#[test]
fn the_pivot_holds_position_offset() {
    let pivot = Point::new(-2, 6);
    for d in ALL {
        for offset in 0..5i16 {
            let line = Line::new(pivot, d, offset);
            let points = five_points(&line);
            assert_eq!(points[offset as usize], pivot);
        }
    }
}

fn five_points(line: &Line) -> Vec<Point> {
    let mut it = line.iter();
    let mut points = Vec::new();
    while let Some(p) = it.next() {
        points.push(p);
    }
    points
}

#[test]
fn a_line_spans_five_points_along_its_axis() {
    let line = Line { start_x: 1, start_y: 2, direction: Direction::SN };
    assert_eq!(
        five_points(&line),
        vec![
            Point::new(1, 2),
            Point::new(2, 1),
            Point::new(3, 0),
            Point::new(4, -1),
            Point::new(5, -2)
        ]
    );
    let mut it = line.iter();
    for _ in 0..5 {
        assert!(it.next().is_some());
    }
    assert_eq!(it.next(), None);
    assert_eq!(it.next(), None);
}

#[test]
fn a_line_at_the_edge_of_the_lattice_can_be_walked() {
    let line = Line { start_x: i16::MAX - 4, start_y: i16::MIN + 4, direction: Direction::SN };
    let points = five_points(&line);
    assert_eq!(points.len(), 5);
    assert_eq!(points[4], Point::new(i16::MAX, i16::MIN));
}

#[test]
fn start_point_is_the_anchor() {
    let line = Line { start_x: -4, start_y: 9, direction: Direction::V };
    assert_eq!(line.start_point(), Point::new(-4, 9));
}

#[test]
fn lines_are_equal_if_anchor_and_axis_are() {
    let a = Line::new(Point::new(0, 0), Direction::H, 0);
    let b = Line::new(Point::new(4, 0), Direction::H, 4);
    let c = Line::new(Point::new(0, 0), Direction::V, 0);
    assert_eq!(a, b);
    assert_ne!(a, c);
}

#[test]
fn packed_puts_the_axis_above_the_anchor() {
    let line = Line { start_x: 1, start_y: 2, direction: Direction::H };
    assert_eq!(line.packed(), 65538 + (4i64 << 32));
    let line = Line { start_x: -1, start_y: -2, direction: Direction::V };
    assert_eq!(line.packed(), -65538 + (1i64 << 32));
    let line = Line { start_x: 0, start_y: 0, direction: Direction::SN };
    assert_eq!(line.packed(), 8i64 << 32);
    let line = Line { start_x: i16::MIN, start_y: -1, direction: Direction::SP };
    assert_eq!(line.packed(), -32768i64 * 65536 - 1 + (2i64 << 32));
}

#[test]
fn packed_tells_lines_apart() {
    let mut seen = Vec::new();
    for x in -3i16..=3 {
        for y in -3i16..=3 {
            for d in ALL {
                let packed = Line { start_x: x, start_y: y, direction: d }.packed();
                assert!(!seen.contains(&packed));
                seen.push(packed);
            }
        }
    }
}

#[test]
fn the_axes_come_in_their_fixed_order() {
    let mut it = DirectionIter::new();
    assert_eq!(it.next(), Some(Direction::V));
    assert_eq!(it.next(), Some(Direction::SP));
    assert_eq!(it.next(), Some(Direction::H));
    assert_eq!(it.next(), Some(Direction::SN));
    assert_eq!(it.next(), None);
    assert_eq!(it.next(), None);
}
