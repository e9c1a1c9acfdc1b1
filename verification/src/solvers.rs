//! Drivers: running the search from one starting point after the other, and
//! the decisions of a race between several searches.

use crate::board::{
    lemma_line_points_on_cross, lemma_reaches_after_move, lemma_reaches_self,
    lemma_winnable_by_a_move, starting_cross, Board,
};
use crate::game::{starting_points, Game};
use crate::hashed::{Candidates, MoveInfo};
use crate::line::{Direction, Line};
use crate::memo::{dead, recorded, stored_at};
use crate::methods::Method;
use crate::search::base_with;
use crate::point::Point;
use std::cmp::Ordering;
use vstd::prelude::*;

verus! {

/// The largest target for which the search is certain to stay within the
/// coordinates that the machine can represent.
pub const MAX_TARGET: usize = 8189;

/// A table of configurations with one empty row for each score from 1 to
/// `target`.
pub fn empty_table<MoveSet>(target: usize) -> (table: Vec<Vec<MoveSet>>)
    ensures
        table@.len() == target,
        forall|d: int| 0 <= d < target ==> (#[trigger] table@[d])@.len() == 0,
{
    let mut table: Vec<Vec<MoveSet>> = Vec::with_capacity(target);
    let mut d: usize = 0;
    while d < target
        invariant
            d <= target,
            table@.len() == d,
            forall|k: int| 0 <= k < d ==> (#[trigger] table@[k])@.len() == 0,
        decreases target - d,
    {
        table.push(Vec::new());
        d += 1;
    }
    table
}

/// The starting cross lies within five steps of the origin.
pub proof fn lemma_initial_inside()
    ensures
        Board::initial().inside(i16::MAX - 5),
{
    assert forall|p: Point| #[trigger] Board::initial().points.contains_key(p) implies -5 <= p.x
        <= 5 && -5 <= p.y <= 5 by {
        let i = choose|i: int| 0 <= i < 36 && starting_cross()[i] == p;
        lemma_starting_point_near(i);
    }
}

/// Where the points of the starting cross lie.
proof fn lemma_starting_point_near(i: int)
    requires
        0 <= i < 36,
    ensures
        -5 <= starting_cross()[i].x <= 5,
        -5 <= starting_cross()[i].y <= 5,
        starting_cross()[i].y == 4 ==> starting_cross()[i].x <= 2,
{
    if i < 9 {
        if i < 3 {
            assert(i == 0 || i == 1 || i == 2);
        } else if i < 6 {
            assert(i == 3 || i == 4 || i == 5);
        } else {
            assert(i == 6 || i == 7 || i == 8);
        }
    } else if i < 18 {
        if i < 12 {
            assert(i == 9 || i == 10 || i == 11);
        } else if i < 15 {
            assert(i == 12 || i == 13 || i == 14);
        } else {
            assert(i == 15 || i == 16 || i == 17);
        }
    } else if i < 27 {
        if i < 21 {
            assert(i == 18 || i == 19 || i == 20);
        } else if i < 24 {
            assert(i == 21 || i == 22 || i == 23);
        } else {
            assert(i == 24 || i == 25 || i == 26);
        }
    } else {
        if i < 30 {
            assert(i == 27 || i == 28 || i == 29);
        } else if i < 33 {
            assert(i == 30 || i == 31 || i == 32);
        } else {
            assert(i == 33 || i == 34 || i == 35);
        }
    }
}

/// On the board before the first move, the horizontal line that starts one
/// step to the left of the first starting point is a legal move, and it
/// covers that point: a score of one line can be reached.
pub proof fn lemma_first_move_exists()
    ensures
        exists|line: Line| Board::initial().legal(line) && line.covers(starting_cross()[0]),
        Board::initial().winnable(1),
{
    let line = Line { start_x: -1i16, start_y: 4i16, direction: Direction::H };
    let board = Board::initial();
    let p = Point { x: 3i16, y: 4i16 };
    assert(line.point_at(0) == starting_cross()[1]);
    assert(line.point_at(1) == starting_cross()[0]);
    assert(line.point_at(2) == starting_cross()[35]);
    assert(line.point_at(3) == starting_cross()[34]);
    assert(line.point_at(4) == p);
    assert(!board.points.contains_key(p)) by {
        if board.points.contains_key(p) {
            let i = choose|i: int| 0 <= i < 36 && starting_cross()[i] == p;
            lemma_starting_point_near(i);
        }
    }
    assert forall|i: int| 0 <= i < 5 && line.point_at(i) != p implies #[trigger] board.free_at(
        line,
        i,
    ) by {
        assert(i == 0 || i == 1 || i == 2 || i == 3);
        assert(board.points.contains_key(line.point_at(i)));
        assert(0u8 & line.role_mask(i) == 0) by {
            let m = line.role_mask(i);
            assert(0u8 & m == 0) by (bit_vector);
        }
    }
    assert(board.creates(line, p));
    assert(board.legal(line));
    assert(line.covers(starting_cross()[0]));
    lemma_reaches_self(board.place(line, p));
    lemma_reaches_after_move(board, line, p, board.place(line, p));
}

/// Searches from each starting point in turn, with one table of
/// configurations for all of them, and returns the first board that reaches
/// `target`.
///
/// A board that is returned comes from the starting cross by legal moves and
/// has at least `target` lines. A board is returned exactly if the target
/// can be reached at all; a target of one line always can.
pub fn singlethreaded_method<MoveSet, F1, F2, F3, F4, F5>(
    method: Method<F1, F2, F3, F4, F5>,
    target: usize,
) -> (best: Option<Game>) where
    F1: Fn(&MoveSet, &Vec<Line>) -> bool,
    F2: Fn(&mut Vec<Vec<MoveSet>>, &Vec<Line>),
    F3: Fn(&mut Candidates, usize, Line, Point),
    F4: Fn(&MoveInfo, &MoveInfo) -> Ordering,
    F5: Fn(Vec<MoveInfo>) -> Vec<(Line, Point)>,

    requires
        1 <= target <= MAX_TARGET,
        method.usable::<MoveSet>(),
        forall|all: &mut Vec<Vec<MoveSet>>, live: &Vec<Line>, r: ()| #[trigger]
            call_ensures(method.store_new_set, (all, live), r) ==> stored_at(
                method.set_comparison,
                all@,
                final(all)@,
                live@,
            ),
        forall|acc: &mut Candidates, n: usize, line: Line, p: Point, r: ()| #[trigger]
            call_ensures(method.store_move_info, (acc, n, line, p), r) ==> recorded(
                acc@,
                final(acc)@,
                n,
                line,
                p,
            ),
    ensures
        best matches Some(game) ==> Board::initial().reaches(game@) && game@.lines.len() >= target,
        best is Some <==> Board::initial().winnable(target),
        target == 1 ==> best is Some,
{
    let mut gamestates: Vec<Vec<MoveSet>> = empty_table(target);
    let points = starting_points();
    proof {
        lemma_initial_inside();
        lemma_first_move_exists();
        lemma_reaches_self(Board::initial());
    }
    let mut i: usize = 0;
    while i < points.len()
        invariant
            i <= points.len(),
            points@ == starting_cross(),
            1 <= target <= MAX_TARGET,
            gamestates@.len() == target,
            Board::initial().reaches(Board::initial()),
            dead(method.set_comparison, gamestates@, 0, target),
            forall|j: int|
                0 <= j < i ==> Board::initial().lost_through(#[trigger] points@[j], target),
            Board::initial().inside(i16::MAX - 5),
            method.usable::<MoveSet>(),
            forall|all: &mut Vec<Vec<MoveSet>>, live: &Vec<Line>, r: ()| #[trigger]
                call_ensures(method.store_new_set, (all, live), r) ==> stored_at(
                method.set_comparison,
                all@,
                final(all)@,
                live@,
            ),
            forall|acc: &mut Candidates, n: usize, line: Line, p: Point, r: ()| #[trigger]
                call_ensures(method.store_move_info, (acc, n, line, p), r) ==> recorded(
                    acc@,
                    final(acc)@,
                    n,
                    line,
                    p,
                ),
        decreases points.len() - i,
    {
        let point = points[i];
        assert(starting_cross().contains(point));
        let game = base_with(&mut gamestates, Game::new(), point, &method, target);
        if game.score() >= target {
            return Some(game);
        }
        i += 1;
    }
    proof {
        lemma_winnable_by_a_move(Board::initial(), target);
        if Board::initial().winnable(target) {
            let (line, p) = choose|line: Line, p: Point|
                Board::initial().creates(line, p) && #[trigger] Board::initial().place(
                    line,
                    p,
                ).winnable(target);
            lemma_line_points_on_cross(line, p);
            let j = choose|j: int| 0 <= j < 36 && line.covers(starting_cross()[j]);
            assert(Board::initial().lost_through(points@[j], target));
        }
    }
    None
}

/// The search function `search` may end on the board `result` when it
/// starts from the board before the first move and from `point`.
pub open spec fn may_end_on<MoveSet, B: Fn(&mut Vec<Vec<MoveSet>>, Game, Point, usize) -> Game>(
    search: B,
    point: Point,
    target: usize,
    result: Game,
) -> bool {
    exists|table: &mut Vec<Vec<MoveSet>>, fresh: Game|
        fresh@ == Board::initial() && #[trigger] call_ensures(
            search,
            (table, fresh, point, target),
            result,
        )
}

/// The search function `search` may fall short of `target` when it starts
/// from the board before the first move and from `point`.
pub open spec fn may_fall_short<MoveSet, B: Fn(&mut Vec<Vec<MoveSet>>, Game, Point, usize) -> Game>(
    search: B,
    point: Point,
    target: usize,
) -> bool {
    exists|result: Game| #[trigger]
        may_end_on::<MoveSet, B>(search, point, target, result) && result@.lines.len() < target
}

/// Searches from each starting point in turn with the search function
/// `search`, with one table of configurations for all of them, and returns
/// the first board that reaches `target`.
///
/// A board that is returned has reached the target, and `search` has ended
/// on it from one of the starting points. No board is returned only if
/// `search` has fallen short of the target from every starting point.
pub fn singlethreaded<MoveSet, B>(search: B, target: usize) -> (best: Option<Game>) where
    B: Fn(&mut Vec<Vec<MoveSet>>, Game, Point, usize) -> Game,

    requires
        forall|table: &mut Vec<Vec<MoveSet>>, game: Game, point: Point|
            table@.len() == target && game@ == Board::initial() && starting_cross().contains(point)
                ==> #[trigger] call_requires(search, (table, game, point, target)),
        forall|table: &mut Vec<Vec<MoveSet>>, game: Game, point: Point, result: Game| #[trigger]
            call_ensures(search, (table, game, point, target), result) ==> final(table)@.len()
                == table@.len(),
    ensures
        best matches Some(game) ==> game@.lines.len() >= target && exists|j: int|
            0 <= j < 36 && may_end_on::<MoveSet, B>(
                search,
                #[trigger] starting_cross()[j],
                target,
                game,
            ),
        best is None ==> forall|j: int|
            0 <= j < 36 ==> may_fall_short::<MoveSet, B>(
                search,
                #[trigger] starting_cross()[j],
                target,
            ),
{
    let mut gamestates: Vec<Vec<MoveSet>> = empty_table(target);
    let points = starting_points();
    let mut i: usize = 0;
    while i < points.len()
        invariant
            i <= points.len(),
            points@ == starting_cross(),
            gamestates@.len() == target,
            forall|j: int|
                0 <= j < i ==> may_fall_short::<MoveSet, B>(
                    search,
                    #[trigger] starting_cross()[j],
                    target,
                ),
            forall|table: &mut Vec<Vec<MoveSet>>, game: Game, point: Point|
                table@.len() == target && game@ == Board::initial() && starting_cross().contains(
                    point,
                ) ==> #[trigger] call_requires(search, (table, game, point, target)),
            forall|table: &mut Vec<Vec<MoveSet>>, game: Game, point: Point, result: Game| #[trigger]
                call_ensures(search, (table, game, point, target), result) ==> final(table)@.len()
                    == table@.len(),
        decreases points.len() - i,
    {
        let point = points[i];
        assert(starting_cross().contains(point));
        let game = search(&mut gamestates, Game::new(), point, target);
        assert(may_end_on::<MoveSet, B>(search, starting_cross()[i as int], target, game));
        if game.score() >= target {
            return Some(game);
        }
        i += 1;
    }
    None
}

/// Searches from the starting point `point` on a fresh board with a fresh
/// table of configurations: the work of one participant of a race for one
/// starting point.
pub fn search_from<MoveSet, F1, F2, F3, F4, F5>(
    point: Point,
    method: &Method<F1, F2, F3, F4, F5>,
    target: usize,
) -> (result: Game) where
    F1: Fn(&MoveSet, &Vec<Line>) -> bool,
    F2: Fn(&mut Vec<Vec<MoveSet>>, &Vec<Line>),
    F3: Fn(&mut Candidates, usize, Line, Point),
    F4: Fn(&MoveInfo, &MoveInfo) -> Ordering,
    F5: Fn(Vec<MoveInfo>) -> Vec<(Line, Point)>,

    requires
        1 <= target <= MAX_TARGET,
        starting_cross().contains(point),
        method.usable::<MoveSet>(),
        forall|all: &mut Vec<Vec<MoveSet>>, live: &Vec<Line>, r: ()| #[trigger]
            call_ensures(method.store_new_set, (all, live), r) ==> stored_at(
                method.set_comparison,
                all@,
                final(all)@,
                live@,
            ),
        forall|acc: &mut Candidates, n: usize, line: Line, p: Point, r: ()| #[trigger]
            call_ensures(method.store_move_info, (acc, n, line, p), r) ==> recorded(
                acc@,
                final(acc)@,
                n,
                line,
                p,
            ),
    ensures
        Board::initial().reaches(result@),
        result@ == Board::initial() || result@.lines.len() >= target,
        (forall|later: Board| #[trigger]
            Board::initial().reaches(later) ==> later.lines.len() < target) ==> result@
            == Board::initial(),
        result@ != Board::initial() ==> Board::initial().next_line(result@).covers(point),
        result@ == Board::initial() ==> Board::initial().lost_through(point, target),
        target == 1 && (exists|line: Line| Board::initial().legal(line) && line.covers(point))
            ==> result@.lines.len() == 1,
{
    let mut gamestates: Vec<Vec<MoveSet>> = empty_table(target);
    proof {
        lemma_initial_inside();
        lemma_reaches_self(Board::initial());
    }
    base_with(&mut gamestates, Game::new(), point, method, target)
}

/// Hands out the starting points of a race, each once, in their fixed
/// order. The participants of a race share one cursor and take their next
/// starting point from it.
pub struct Cursor {
    next: usize,
}

impl Cursor {
    /// The number of starting points handed out so far.
    pub closed spec fn claimed(self) -> int {
        self.next as int
    }

    /// A cursor before the first starting point.
    pub fn new() -> (cursor: Self)
        ensures
            cursor.claimed() == 0,
    {
        Cursor { next: 0 }
    }

    /// The next starting point that no participant has taken yet, or `None`
    /// once all 36 are taken.
    pub fn claim(&mut self) -> (point: Option<Point>)
        ensures
            old(self).claimed() < 36 ==> point == Some(starting_cross()[old(self).claimed()])
                && final(self).claimed() == old(self).claimed() + 1,
            old(self).claimed() >= 36 ==> point.is_none() && *final(self) == *old(self),
    {
        let points = starting_points();
        if self.next < points.len() {
            let point = points[self.next];
            self.next += 1;
            Some(point)
        } else {
            None
        }
    }
}

/// What the driver of a race finds when it looks for the next result.
pub enum Received {
    /// A participant has finished a search and sent the board it ended on.
    Finished(Game),
    /// No result is waiting, but some participant is still at work.
    Nothing,
    /// Every participant has left the race.
    Closed,
}

/// What the driver of a race does next.
pub enum Verdict {
    /// The race is over: this board has reached the target.
    Winner(Game),
    /// The race goes on.
    Wait,
    /// The race is over, and no board has reached the target.
    GiveUp,
}

/// Decides how a race goes on: the first board that reaches `target` wins,
/// boards that fall short are dropped, and the race is given up when every
/// participant has left.
pub fn judge(received: Received, target: usize) -> (verdict: Verdict)
    ensures
        match received {
            Received::Finished(game) => if game@.lines.len() >= target {
                verdict == Verdict::Winner(game)
            } else {
                verdict is Wait
            },
            Received::Nothing => verdict is Wait,
            Received::Closed => verdict is GiveUp,
        },
{
    match received {
        Received::Finished(game) => {
            if game.score() >= target {
                Verdict::Winner(game)
            } else {
                Verdict::Wait
            }
        },
        Received::Nothing => Verdict::Wait,
        Received::Closed => Verdict::GiveUp,
    }
}

} // verus!
