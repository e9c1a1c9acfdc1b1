//! The board: which points exist, which roles they already play, and which
//! lines have been placed.

use crate::board::{
    lemma_flag_bits, lemma_one_new_point, starting_cross, Board, STARTING_XS, STARTING_YS,
};
use crate::extras::{directions, DirectionIter};
use crate::hashed::{
    flag_entries, flags_clone, flags_get, flags_insert, flags_items, flags_remove,
    flags_with_capacity, FlagTable, LineSet,
};
use crate::line::{
    lemma_free_role_in_range, lemma_line_points, lemma_next_position, lemma_position_in_range,
    lemma_unit_multiple, Direction, Line,
};
use crate::point::Point;
use vstd::prelude::*;

verus! {

/// The 36 points of the starting cross, in their fixed order.
pub fn starting_points() -> (points: Vec<Point>)
    ensures
        points@ == starting_cross(),
{
    let mut points: Vec<Point> = Vec::with_capacity(36);
    let mut i: usize = 0;
    while i < 36
        invariant
            i <= 36,
            points@.len() == i,
            forall|j: int| 0 <= j < i ==> #[trigger] points@[j] == starting_cross()[j],
        decreases 36 - i,
    {
        points.push(Point::new(STARTING_XS[i], STARTING_YS[i]));
        i += 1;
    }
    assert(points@ =~= starting_cross());
    points
}

/// Every axis is one of the four that the engine walks.
proof fn lemma_directions_complete(d: Direction)
    ensures
        exists|m: int| 0 <= m < 4 && directions()[m] == d,
{
    match d {
        Direction::V => assert(directions()[0] == d),
        Direction::SP => assert(directions()[1] == d),
        Direction::H => assert(directions()[2] == d),
        Direction::SN => assert(directions()[3] == d),
    }
}

/// The line along `direction` on which `point` holds position `offset`.
pub open spec fn line_through(point: Point, direction: Direction, offset: int) -> Line {
    Line {
        start_x: (point.x - offset * direction.dx()) as i16,
        start_y: (point.y - offset * direction.dy()) as i16,
        direction,
    }
}

/// The lines along `direction` on which a point with the flag byte `flags`
/// may hold a position, in ascending order of that position.
pub open spec fn lines_along(point: Point, flags: u8, direction: Direction) -> Seq<Line> {
    Seq::new(
        (direction.offsets(flags).1 - direction.offsets(flags).0) as nat,
        |k: int| line_through(point, direction, direction.offsets(flags).0 + k),
    )
}

/// The lines along the first `n` axes on which a point with the flag byte
/// `flags` may hold a position, axis by axis.
pub open spec fn lines_along_first(point: Point, flags: u8, n: int) -> Seq<Line>
    decreases n,
{
    if n <= 0 {
        Seq::empty()
    } else {
        lines_along_first(point, flags, n - 1) + lines_along(point, flags, directions()[n - 1])
    }
}

/// The lines through `point` on which the point may hold a position, given
/// its flag byte: for each axis in turn, one line for each position that
/// `Direction::offsets` allows. Every legal move through the point is among
/// them.
pub fn candidates_at(point: Point, flags: u8) -> (lines: Vec<Line>)
    requires
        i16::MIN + 4 <= point.x <= i16::MAX - 4,
        i16::MIN + 4 <= point.y <= i16::MAX - 4,
    ensures
        lines@ == lines_along_first(point, flags, 4),
        forall|k: int| 0 <= k < lines@.len() ==> (#[trigger] lines@[k]).fits(),
        forall|k: int| 0 <= k < lines@.len() ==> (#[trigger] lines@[k]).covers(point),
        forall|line: Line, i: int|
            0 <= i < 5 && line.fits() && #[trigger] line.point_at(i) == point && flags
                & line.role_mask(i) == 0 ==> lines@.contains(line),
{
    let mut lines: Vec<Line> = Vec::new();
    let mut it = DirectionIter::new();
    let mut next = it.next();
    let ghost mut n: int = 0;
    while next.is_some()
        invariant
            0 <= n <= 4,
            i16::MIN + 4 <= point.x <= i16::MAX - 4,
            i16::MIN + 4 <= point.y <= i16::MAX - 4,
            next matches Some(d) ==> n < 4 && d == directions()[n] && it.upcoming()
                == directions().skip(n + 1),
            next is None ==> n == 4,
            lines@ == lines_along_first(point, flags, n),
            forall|k: int| 0 <= k < lines@.len() ==> (#[trigger] lines@[k]).fits(),
            forall|k: int| 0 <= k < lines@.len() ==> (#[trigger] lines@[k]).covers(point),
            forall|line: Line, i: int, m: int|
                0 <= i < 5 && 0 <= m < n && line.fits() && #[trigger] line.point_at(i) == point
                    && flags & line.role_mask(i) == 0 && #[trigger] directions()[m]
                    == line.direction ==> lines@.contains(line),
        decreases 4 - n,
    {
        let direction = next.unwrap();
        let (offset_lb, offset_ub) = direction.offset_range(flags);
        let mut offset = offset_lb;
        assert(lines@ =~= lines_along_first(point, flags, n) + lines_along(
            point,
            flags,
            direction,
        ).take(0));
        while offset < offset_ub
            invariant
                0 <= offset_lb <= offset <= offset_ub <= 5,
                offset_lb == direction.offsets(flags).0,
                offset_ub == direction.offsets(flags).1,
                0 <= n < 4,
                direction == directions()[n],
                i16::MIN + 4 <= point.x <= i16::MAX - 4,
                i16::MIN + 4 <= point.y <= i16::MAX - 4,
                lines@ == lines_along_first(point, flags, n) + lines_along(
                    point,
                    flags,
                    direction,
                ).take(offset - offset_lb),
                forall|k: int| 0 <= k < lines@.len() ==> (#[trigger] lines@[k]).fits(),
                forall|k: int| 0 <= k < lines@.len() ==> (#[trigger] lines@[k]).covers(point),
                forall|line: Line, i: int, m: int|
                    0 <= i < 5 && 0 <= m < n && line.fits() && #[trigger] line.point_at(i)
                        == point && flags & line.role_mask(i) == 0 && #[trigger] directions()[m]
                        == line.direction ==> lines@.contains(line),
                forall|line: Line, i: int|
                    offset_lb <= i < offset && line.fits() && #[trigger] line.point_at(i) == point
                        && line.direction == direction ==> lines@.contains(line),
            decreases offset_ub - offset,
        {
            proof {
                lemma_unit_multiple(offset as int, direction.dx());
                lemma_unit_multiple(offset as int, direction.dy());
                lemma_unit_multiple(4, direction.dx());
                lemma_unit_multiple(4, direction.dy());
            }
            let set = Line::new(point, direction, offset);
            let ghost before = lines@;
            lines.push(set);
            proof {
                let along = lines_along(point, flags, direction);
                assert(along[offset - offset_lb] == set);
                assert(along.take(offset + 1 - offset_lb) =~= along.take(offset - offset_lb).push(
                    set,
                ));
                assert(lines@ =~= lines_along_first(point, flags, n) + along.take(
                    offset + 1 - offset_lb,
                ));
                lemma_position_in_range(set, offset as int);
                assert(set.point_at(offset as int) == point);
                assert(lines@[before.len() as int] == set);
                assert forall|line: Line| before.contains(line) implies lines@.contains(line) by {
                    let k = choose|k: int| 0 <= k < before.len() && before[k] == line;
                    assert(lines@[k] == line);
                }
                assert forall|line: Line, i: int|
                    offset_lb <= i < offset + 1 && line.fits() && #[trigger] line.point_at(i)
                        == point && line.direction == direction implies lines@.contains(line) by {
                    if i == offset {
                        lemma_position_in_range(line, i);
                        assert(line == set);
                    }
                }
            }
            offset += 1;
        }
        proof {
            assert forall|line: Line, i: int, m: int|
                0 <= i < 5 && 0 <= m < n + 1 && line.fits() && #[trigger] line.point_at(i) == point
                    && flags & line.role_mask(i) == 0 && #[trigger] directions()[m]
                    == line.direction implies lines@.contains(line) by {
                if m == n {
                    lemma_free_role_in_range(direction, flags, i);
                }
            }
            let along = lines_along(point, flags, direction);
            assert(along.take(offset_ub - offset_lb) =~= along);
            assert(lines@ == lines_along_first(point, flags, n + 1));
            n = n + 1;
        }
        next = it.next();
        proof {
            if n < 4 {
                assert(directions().skip(n).len() == 4 - n);
                assert(directions().skip(n)[0] == directions()[n]);
                assert(directions().skip(n).skip(1) =~= directions().skip(n + 1));
            } else {
                assert(directions().skip(4).len() == 0);
            }
        }
    }
    proof {
        assert forall|line: Line, i: int|
            0 <= i < 5 && line.fits() && #[trigger] line.point_at(i) == point && flags
                & line.role_mask(i) == 0 implies lines@.contains(line) by {
            lemma_directions_complete(line.direction);
            let m = choose|m: int| 0 <= m < 4 && directions()[m] == line.direction;
            assert(directions()[m] == line.direction);
        }
    }
    lines
}

/// A board in play.
#[derive(Debug)]
pub struct Game {
    points: FlagTable,
    sets: Vec<Line>,
}

impl View for Game {
    type V = Board;

    closed spec fn view(&self) -> Board {
        Board {
            points: Map::new(
                |p: Point| flag_entries(self.points).contains_key(p.key()),
                |p: Point| flag_entries(self.points)[p.key()],
            ),
            lines: self.sets@,
        }
    }
}

impl Clone for Game {
    /// A second board with the same points, flags and lines.
    fn clone(&self) -> (copy: Self)
        ensures
            copy@ == self@,
    {
        let sets = self.sets.clone();
        let copy = Game { points: flags_clone(&self.points), sets };
        assert(copy@.lines =~= self@.lines);
        assert(copy@.points =~= self@.points);
        copy
    }
}

impl Game {
    /// A board with the starting cross and no line.
    pub fn new() -> (game: Self)
        ensures
            game@ == Board::initial(),
    {
        let start = starting_points();
        let mut points = flags_with_capacity(start.len());
        let mut i: usize = 0;
        while i < start.len()
            invariant
                i <= start.len(),
                start@ == starting_cross(),
                forall|key: (i16, i16)| #[trigger]
                    flag_entries(points).contains_key(key) <==> exists|j: int|
                        0 <= j < i && start@[j].key() == key,
                forall|key: (i16, i16)| #[trigger]
                    flag_entries(points).contains_key(key) ==> flag_entries(points)[key] == 0,
            decreases start.len() - i,
        {
            let ghost before = flag_entries(points);
            flags_insert(&mut points, start[i].to_key(), 0);
            proof {
                let k = start@[i as int].key();
                assert forall|key: (i16, i16)| #[trigger]
                    flag_entries(points).contains_key(key) implies exists|j: int|
                    0 <= j < i + 1 && start@[j].key() == key by {
                    if key == k {
                        assert(start@[i as int].key() == key);
                    } else {
                        assert(before.contains_key(key));
                        let j = choose|j: int| 0 <= j < i && start@[j].key() == key;
                        assert(0 <= j < i + 1 && start@[j].key() == key);
                    }
                }
            }
            i += 1;
        }
        let game = Game { points, sets: Vec::new() };
        proof {
            assert forall|p: Point| game@.points.contains_key(p) implies starting_cross().contains(
                p,
            ) by {
                let j = choose|j: int| 0 <= j < 36 && start@[j].key() == p.key();
                assert(start@[j] == p);
            }
            assert forall|p: Point| starting_cross().contains(p) implies game@.points.contains_key(
                p,
            ) by {
                let j = choose|j: int| 0 <= j < 36 && starting_cross()[j] == p;
                assert(start@[j].key() == p.key());
            }
            assert(game@.points =~= Board::initial().points);
            assert(game@.lines =~= Board::initial().lines);
        }
        game
    }

    /// The number of lines placed.
    pub fn score(&self) -> (n: usize)
        ensures
            n == self@.lines.len(),
    {
        self.sets.len()
    }

    /// The lines placed, oldest first.
    pub fn sets(&self) -> (lines: &Vec<Line>)
        ensures
            lines@ == self@.lines,
    {
        &self.sets
    }

    /// Sets the flag byte of `point`, which joins the board if it is not on it.
    fn put_flags(&mut self, point: Point, flags: u8)
        ensures
            final(self)@.points == old(self)@.points.insert(point, flags),
            final(self)@.lines == old(self)@.lines,
    {
        flags_insert(&mut self.points, point.to_key(), flags);
        assert(self@.points =~= old(self)@.points.insert(point, flags));
    }

    /// Takes `point` off the board.
    fn drop_point(&mut self, point: Point)
        ensures
            final(self)@.points == old(self)@.points.remove(point),
            final(self)@.lines == old(self)@.lines,
    {
        flags_remove(&mut self.points, point.to_key());
        assert(self@.points =~= old(self)@.points.remove(point));
    }

    /// Places `set`, which creates `point`: the point joins the board
    /// without flags unless it is there already, and each of the five points
    /// of the line gets the bits of its role.
    pub fn add_set(&mut self, set: Line, point: Point)
        requires
            set.fits(),
            forall|i: int|
                0 <= i < 5 ==> old(self)@.points.contains_key(#[trigger] set.point_at(i))
                    || set.point_at(i) == point,
        ensures
            final(self)@ == old(self)@.place(set, point),
            final(self)@.lines.len() == old(self)@.lines.len() + 1,
    {
        self.sets.push(set);
        if self.flags(point).is_none() {
            self.put_flags(point, 0);
        }
        let masks = [
            set.direction.set_out_t_mask(),
            set.direction.set_inout_t_mask(),
            set.direction.set_inout_t_mask(),
            set.direction.set_inout_t_mask(),
            set.direction.set_in_t_mask(),
        ];
        let mut set_point = set.start_point();
        let step = set.direction.single_step();
        let ghost ground = self@.points;
        proof {
            lemma_line_points(set);
            assert forall|q: Point| ground.contains_key(q) implies #[trigger] ground[q] == ground[q]
                | set.mask_before(q, 0) by {
                lemma_flag_bits(ground[q], 0);
            }
        }
        let mut i: usize = 0;
        while i < 5
            invariant
                i <= 5,
                set.fits(),
                step.0 == set.direction.dx(),
                step.1 == set.direction.dy(),
                i < 5 ==> set_point == set.point_at(i as int),
                forall|j: int| 0 <= j < 5 ==> #[trigger] masks@[j] == set.role_mask(j),
                forall|j: int| 0 <= j < 5 ==> ground.contains_key(#[trigger] set.point_at(j)),
                forall|a: int, b: int|
                    0 <= a < 5 && 0 <= b < 5 && a != b ==> #[trigger] set.point_at(a)
                        != #[trigger] set.point_at(b),
                self@.lines == old(self)@.lines.push(set),
                self@.points.dom() == ground.dom(),
                forall|q: Point|
                    ground.contains_key(q) ==> #[trigger] self@.points[q] == ground[q]
                        | set.mask_before(q, i as int),
            decreases 5 - i,
        {
            let ghost before = self@.points;
            let flags = self.flags(set_point).unwrap();
            self.put_flags(set_point, flags | masks[i]);
            proof {
                assert(self@.points.dom() =~= ground.dom());
                assert forall|q: Point| ground.contains_key(q) implies #[trigger] self@.points[q]
                    == ground[q] | set.mask_before(q, i + 1) by {
                    if q == set_point {
                        assert(set.mask_before(q, i as int) == 0);
                        assert(set.mask_before(q, i + 1) == set.role_mask(i as int));
                        lemma_flag_bits(ground[q], 0);
                    } else {
                        assert(set.mask_before(q, i + 1) == set.mask_before(q, i as int));
                    }
                }
            }
            if i < 4 {
                proof {
                    lemma_next_position(set, i as int);
                }
                set_point.step(step);
            }
            i += 1;
        }
        proof {
            let goal = old(self)@.place(set, point);
            assert forall|q: Point| self@.points.contains_key(q) implies self@.points[q]
                == goal.points[q] by {
                assert(ground.contains_key(q));
                assert(set.mask_before(q, 5) == set.mask_at(q));
            }
            assert(self@.points =~= goal.points);
        }
    }

    /// Appends `set` to the lines placed and leaves every flag as it is.
    pub fn add_set_nomod_flags(&mut self, set: Line)
        ensures
            final(self)@ == (Board {
                points: old(self)@.points,
                lines: old(self)@.lines.push(set),
            }),
    {
        self.sets.push(set);
    }

    /// Takes back the last line placed, `set`, together with the point
    /// `point` that it created: the point leaves the board, and each of the
    /// other points of the line loses the bits of its role.
    pub fn remove_set(&mut self, set: Line, point: Point)
        requires
            set.fits(),
            old(self)@.lines.len() > 0,
            old(self)@.lines.last() == set,
            forall|i: int|
                0 <= i < 5 && set.point_at(i) != point ==> old(self)@.points.contains_key(
                    #[trigger] set.point_at(i),
                ),
        ensures
            final(self)@ == old(self)@.unplace(set, point),
            final(self)@.lines.len() == old(self)@.lines.len() - 1,
    {
        self.sets.pop();
        self.drop_point(point);
        let masks = [
            set.direction.set_out_f_mask(),
            set.direction.set_inout_f_mask(),
            set.direction.set_inout_f_mask(),
            set.direction.set_inout_f_mask(),
            set.direction.set_in_f_mask(),
        ];
        let mut set_point = set.start_point();
        let step = set.direction.single_step();
        let ghost ground = self@.points;
        proof {
            lemma_line_points(set);
            assert forall|q: Point| ground.contains_key(q) implies #[trigger] ground[q] == ground[q]
                & !set.mask_before(q, 0) by {
                lemma_flag_bits(ground[q], 0);
            }
        }
        let mut i: usize = 0;
        while i < 5
            invariant
                i <= 5,
                set.fits(),
                step.0 == set.direction.dx(),
                step.1 == set.direction.dy(),
                i < 5 ==> set_point == set.point_at(i as int),
                forall|j: int| 0 <= j < 5 ==> #[trigger] masks@[j] == !set.role_mask(j),
                forall|j: int|
                    0 <= j < 5 && set.point_at(j) != point ==> ground.contains_key(
                        #[trigger] set.point_at(j),
                    ),
                forall|a: int, b: int|
                    0 <= a < 5 && 0 <= b < 5 && a != b ==> #[trigger] set.point_at(a)
                        != #[trigger] set.point_at(b),
                old(self)@.lines.len() > 0,
                self@.lines == old(self)@.lines.drop_last(),
                !ground.contains_key(point),
                self@.points.dom() == ground.dom(),
                forall|q: Point|
                    ground.contains_key(q) ==> #[trigger] self@.points[q] == ground[q]
                        & !set.mask_before(q, i as int),
            decreases 5 - i,
        {
            if point != set_point {
                let flags = self.flags(set_point).unwrap();
                self.put_flags(set_point, flags & masks[i]);
                proof {
                    assert(self@.points.dom() =~= ground.dom());
                    assert forall|q: Point| ground.contains_key(q) implies #[trigger] self@.points[q]
                        == ground[q] & !set.mask_before(q, i + 1) by {
                        if q == set_point {
                            assert(set.mask_before(q, i as int) == 0);
                            assert(set.mask_before(q, i + 1) == set.role_mask(i as int));
                            lemma_flag_bits(ground[q], 0);
                        } else {
                            assert(set.mask_before(q, i + 1) == set.mask_before(q, i as int));
                        }
                    }
                }
            } else {
                proof {
                    assert forall|q: Point| ground.contains_key(q) implies #[trigger] self@.points[q]
                        == ground[q] & !set.mask_before(q, i + 1) by {
                        assert(q != set_point);
                        assert(set.mask_before(q, i + 1) == set.mask_before(q, i as int));
                    }
                }
            }
            if i < 4 {
                proof {
                    lemma_next_position(set, i as int);
                }
                set_point.step(step);
            }
            i += 1;
        }
        proof {
            let goal = old(self)@.unplace(set, point);
            assert forall|q: Point| self@.points.contains_key(q) implies self@.points[q]
                == goal.points[q] by {
                assert(ground.contains_key(q));
                assert(set.mask_before(q, 5) == set.mask_at(q));
            }
            assert(self@.points =~= goal.points);
            assert(self@.lines =~= goal.lines);
        }
    }

    /// Drops the last line placed, if there is one, and leaves every flag as
    /// it is.
    pub fn remove_set_nomod_flags(&mut self)
        ensures
            final(self)@.points == old(self)@.points,
            final(self)@.lines == (if old(self)@.lines.len() > 0 {
                old(self)@.lines.drop_last()
            } else {
                old(self)@.lines
            }),
    {
        self.sets.pop();
    }

    /// Decides whether placing `test` is a legal move, and returns the point
    /// that the move creates if it is: four of the five positions must lie on
    /// points of the board whose role along the axis is still free, and the
    /// fifth on no point of the board.
    pub fn valid_add_set(&self, test: Line) -> (new: Option<Point>)
        requires
            test.fits(),
        ensures
            match new {
                Some(p) => self@.creates(test, p),
                None => !self@.legal(test),
            },
    {
        let mut new: Option<Point> = None;
        let mut point = test.start_point();
        let step = test.direction.single_step();
        let masks = [
            test.direction.get_out_mask(),
            test.direction.get_inout_mask(),
            test.direction.get_inout_mask(),
            test.direction.get_inout_mask(),
            test.direction.get_in_mask(),
        ];
        proof {
            lemma_line_points(test);
        }
        let mut i: usize = 0;
        while i < 5
            invariant
                i <= 5,
                test.fits(),
                step.0 == test.direction.dx(),
                step.1 == test.direction.dy(),
                i < 5 ==> point == test.point_at(i as int),
                forall|j: int| 0 <= j < 5 ==> #[trigger] masks@[j] == test.role_mask(j),
                forall|a: int, b: int|
                    0 <= a < 5 && 0 <= b < 5 && a != b ==> #[trigger] test.point_at(a)
                        != #[trigger] test.point_at(b),
                forall|j: int|
                    0 <= j < i ==> #[trigger] self@.free_at(test, j) || new == Some(
                        test.point_at(j),
                    ),
                new matches Some(q) ==> !self@.points.contains_key(q) && exists|j: int|
                    0 <= j < i && test.point_at(j) == q,
            decreases 5 - i,
        {
            match self.flags(point) {
                Some(flags) => {
                    if flags & masks[i] > 0 {
                        proof {
                            assert forall|p: Point| !self@.creates(test, p) by {
                                if self@.creates(test, p) {
                                    assert(test.point_at(i as int) != p);
                                    assert(self@.free_at(test, i as int));
                                }
                            }
                        }
                        return None;
                    }
                },
                None => {
                    if new.is_none() {
                        new = Some(point);
                    } else {
                        proof {
                            let q = new.unwrap();
                            let j = choose|j: int| 0 <= j < i && test.point_at(j) == q;
                            assert forall|p: Point| !self@.creates(test, p) by {
                                if self@.creates(test, p) {
                                    if test.point_at(i as int) != p {
                                        assert(self@.free_at(test, i as int));
                                    } else {
                                        assert(test.point_at(j) != p);
                                        assert(self@.free_at(test, j));
                                    }
                                }
                            }
                        }
                        return None;
                    }
                },
            }
            if i < 4 {
                proof {
                    lemma_next_position(test, i as int);
                }
                point.step(step);
            }
            i += 1;
        }
        proof {
            match new {
                Some(q) => {
                    assert(test.covers(q));
                    assert forall|k: int| 0 <= k < 5 && test.point_at(k) != q implies #[trigger]
                        self@.free_at(test, k) by {}
                },
                None => {
                    assert forall|p: Point| !self@.creates(test, p) by {
                        if self@.creates(test, p) {
                            let k = choose|k: int| 0 <= k < 5 && test.point_at(k) == p;
                            assert(self@.free_at(test, k));
                        }
                    }
                },
            }
        }
        new
    }

    /// The number of legal moves on this board.
    ///
    /// Walks every point that still has a free role and every line through
    /// it that the point's flags allow, and counts the distinct lines that
    /// `valid_add_set` accepts. The walk reaches every legal move, so the
    /// count is exact.
    pub fn possible_moves(&self) -> (count: usize)
        requires
            self@.inside(4),
        ensures
            self@.moves().finite(),
            count == self@.moves().len(),
    {
        let mut moves = LineSet::new();
        let items = flags_items(&self.points);
        let mut idx: usize = 0;
        while idx < items.len()
            invariant
                idx <= items.len(),
                self@.inside(4),
                forall|j: int|
                    0 <= j < items@.len() ==> flag_entries(self.points).contains_pair(
                        (#[trigger] items@[j]).0,
                        items@[j].1,
                    ),
                forall|key: (i16, i16)| #[trigger]
                    flag_entries(self.points).contains_key(key) ==> items@.contains(
                        (key, flag_entries(self.points)[key]),
                    ),
                forall|l: Line| moves@.contains(l) ==> self@.legal(l),
                forall|l: Line, j: int, i: int|
                    0 <= j < idx && 0 <= i < 5 && self@.legal(l) && #[trigger] self@.free_at(l, i)
                        && l.point_at(i).key() == (#[trigger] items@[j]).0 ==> moves@.contains(l),
            decreases items.len() - idx,
        {
            let (key, flags) = items[idx];
            let point = Point::from_key(key);
            proof {
                assert(flag_entries(self.points).contains_pair(items@[idx as int].0, flags));
                assert(point.key() == key);
                assert(self@.points.contains_key(point) && self@.points[point] == flags);
            }
            if flags != 255 {
                let cands = candidates_at(point, flags);
                let mut c: usize = 0;
                while c < cands.len()
                    invariant
                        c <= cands.len(),
                        forall|k: int| 0 <= k < cands@.len() ==> (#[trigger] cands@[k]).fits(),
                        forall|l: Line| moves@.contains(l) ==> self@.legal(l),
                        forall|l: Line, j: int, i: int|
                            0 <= j < idx && 0 <= i < 5 && self@.legal(l) && #[trigger] self@.free_at(
                                l,
                                i,
                            ) && l.point_at(i).key() == (#[trigger] items@[j]).0
                                ==> moves@.contains(l),
                        forall|k: int|
                            0 <= k < c && self@.legal(#[trigger] cands@[k]) ==> moves@.contains(
                                cands@[k],
                            ),
                    decreases cands.len() - c,
                {
                    let set = cands[c];
                    if self.valid_add_set(set).is_some() {
                        moves.insert(set);
                    }
                    c += 1;
                }
                proof {
                    assert forall|l: Line, j: int, i: int|
                        0 <= j < idx + 1 && 0 <= i < 5 && self@.legal(l) && #[trigger] self@.free_at(
                            l,
                            i,
                        ) && l.point_at(i).key() == (#[trigger] items@[j]).0 implies moves@.contains(
                        l,
                    ) by {
                        if j == idx {
                            assert(l.point_at(i) == point);
                            let p = choose|p: Point| self@.creates(l, p);
                            assert(self@.creates(l, p));
                            assert(cands@.contains(l));
                            let k = choose|k: int| 0 <= k < cands@.len() && cands@[k] == l;
                            assert(self@.legal(cands@[k]));
                        }
                    }
                }
            } else {
                proof {
                    assert forall|l: Line, j: int, i: int|
                        0 <= j < idx + 1 && 0 <= i < 5 && self@.legal(l) && #[trigger] self@.free_at(
                            l,
                            i,
                        ) && l.point_at(i).key() == (#[trigger] items@[j]).0 implies moves@.contains(
                        l,
                    ) by {
                        if j == idx {
                            assert(l.point_at(i) == point);
                            lemma_free_role_in_range(l.direction, flags, i);
                        }
                    }
                }
            }
            idx += 1;
        }
        proof {
            assert forall|l: Line| self@.legal(l) implies moves@.contains(l) by {
                let p = choose|p: Point| self@.creates(l, p);
                lemma_one_new_point(self@, l, p);
                let k = choose|k: int| 0 <= k < 5 && l.point_at(k) == p;
                let i = if k == 0 {
                    1int
                } else {
                    0int
                };
                lemma_line_points(l);
                assert(l.point_at(i) != p);
                assert(self@.free_at(l, i));
                let q = l.point_at(i);
                assert(flag_entries(self.points).contains_key(q.key()));
                assert(items@.contains((q.key(), self@.points[q])));
                let j = choose|j: int|
                    0 <= j < items@.len() && items@[j] == (q.key(), self@.points[q]);
                assert(l.point_at(i).key() == items@[j].0);
            }
            assert(moves@ =~= self@.moves());
        }
        moves.len()
    }

    /// All points of the board with their flag bytes, each once, in no
    /// particular order.
    pub fn points(&self) -> (items: Vec<(Point, u8)>)
        ensures
            items@.no_duplicates(),
            forall|j: int|
                0 <= j < items@.len() ==> self@.points.contains_pair(
                    (#[trigger] items@[j]).0,
                    items@[j].1,
                ),
            forall|p: Point| #[trigger]
                self@.points.contains_key(p) ==> items@.contains((p, self@.points[p])),
    {
        let raw = flags_items(&self.points);
        let mut items: Vec<(Point, u8)> = Vec::with_capacity(raw.len());
        let mut i: usize = 0;
        while i < raw.len()
            invariant
                i <= raw.len(),
                items@.len() == i,
                forall|j: int|
                    0 <= j < i ==> #[trigger] items@[j] == (Point::of_key(raw@[j].0), raw@[j].1),
            decreases raw.len() - i,
        {
            let (key, flags) = raw[i];
            items.push((Point::from_key(key), flags));
            i += 1;
        }
        proof {
            assert forall|a: int, b: int|
                0 <= a < items@.len() && 0 <= b < items@.len() && a != b implies items@[a]
                != items@[b] by {
                assert(raw@[a] != raw@[b]);
            }
            assert forall|j: int| 0 <= j < items@.len() implies self@.points.contains_pair(
                (#[trigger] items@[j]).0,
                items@[j].1,
            ) by {
                assert(flag_entries(self.points).contains_pair(raw@[j].0, raw@[j].1));
                assert(items@[j].0.key() == raw@[j].0);
            }
            assert forall|p: Point| #[trigger] self@.points.contains_key(p) implies items@.contains(
                (p, self@.points[p]),
            ) by {
                assert(flag_entries(self.points).contains_key(p.key()));
                assert(raw@.contains((p.key(), self@.points[p])));
                let j = choose|j: int| 0 <= j < raw@.len() && raw@[j] == (p.key(), self@.points[p]);
                assert(items@[j] == (p, self@.points[p]));
            }
        }
        items
    }

    /// The flag byte of `point`, or `None` if the point is not on the board.
    pub fn flags(&self, point: Point) -> (flags: Option<u8>)
        ensures
            flags == (if self@.points.contains_key(point) {
                Some(self@.points[point])
            } else {
                None
            }),
    {
        flags_get(&self.points, point.to_key())
    }
}

} // verus!
