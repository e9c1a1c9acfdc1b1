//! The table of configurations seen, and what the search may conclude from
//! it.
//!
//! The table has one row for each number of lines. A search stores the
//! configurations it comes across, and does not go into a configuration that
//! it recognises in the table. It loses nothing by that as long as whatever
//! is recognised goes on like the configuration that was stored.

use crate::board::{lemma_alike_winnable, lemma_flags_sum_up_lines, Board};
use crate::hashed::MoveInfo;
use crate::line::Line;
use crate::point::Point;
use vstd::prelude::*;

verus! {

/// The table `after` is the table `before` with one more entry at the end of
/// row `row`; every other row is untouched.
pub open spec fn grown_at<T>(before: Seq<Vec<T>>, after: Seq<Vec<T>>, row: int) -> bool {
    &&& after.len() == before.len()
    &&& forall|d: int| 0 <= d < before.len() && d != row ==> #[trigger] after[d] == before[d]
    &&& 0 <= row < before.len()
    &&& after[row]@.len() == before[row]@.len() + 1
    &&& forall|k: int| 0 <= k < before[row]@.len() ==> #[trigger] after[row]@[k] == before[row]@[k]
}

/// The table `after` holds every configuration of the table `before`, in
/// the same row and at the same place in its row: a table of configurations
/// only ever grows.
pub open spec fn extends<T>(before: Seq<Vec<T>>, after: Seq<Vec<T>>) -> bool {
    &&& after.len() == before.len()
    &&& forall|d: int|
        0 <= d < before.len() ==> (#[trigger] after[d])@.len() >= before[d]@.len()
    &&& forall|d: int, k: int|
        0 <= d < before.len() && 0 <= k < before[d]@.len() ==> #[trigger] after[d]@[k]
            == before[d]@[k]
}

/// The table `after` has an entry at place `k` of row `d` that the table
/// `before` did not have.
pub open spec fn is_new<T>(before: Seq<Vec<T>>, after: Seq<Vec<T>>, d: int, k: int) -> bool {
    0 <= d < before.len() && before[d]@.len() <= k < after[d]@.len()
}

/// A table that has grown by one configuration extends the table it was.
pub proof fn lemma_grown_extends<T>(before: Seq<Vec<T>>, after: Seq<Vec<T>>, row: int)
    requires
        grown_at(before, after, row),
    ensures
        extends(before, after),
{
    assert forall|d: int| 0 <= d < before.len() implies (#[trigger] after[d])@.len()
        >= before[d]@.len() by {
        if d != row {
            assert(after[d] == before[d]);
        }
    }
    assert forall|d: int, k: int|
        0 <= d < before.len() && 0 <= k < before[d]@.len() implies #[trigger] after[d]@[k]
        == before[d]@[k] by {
        if d != row {
            assert(after[d] == before[d]);
        }
    }
}

/// Growing is transitive, and what is new after two steps is new after the
/// first or after the second.
pub proof fn lemma_extends_transitive<T>(a: Seq<Vec<T>>, b: Seq<Vec<T>>, c: Seq<Vec<T>>)
    requires
        extends(a, b),
        extends(b, c),
    ensures
        extends(a, c),
        forall|d: int, k: int| #[trigger]
            is_new(a, c, d, k) ==> is_new(a, b, d, k) || is_new(b, c, d, k),
{
    assert forall|d: int| 0 <= d < a.len() implies (#[trigger] c[d])@.len() >= a[d]@.len() by {
        assert(b[d]@.len() >= a[d]@.len());
    }
    assert forall|d: int, k: int| 0 <= d < a.len() && 0 <= k < a[d]@.len() implies #[trigger]
        c[d]@[k] == a[d]@[k] by {
        assert(b[d]@.len() >= a[d]@.len());
        assert(b[d]@[k] == a[d]@[k]);
    }
}

/// The set `after` is the set `before` with the record of the move that
/// places `line` and creates `p`, with the estimate `n`: nothing else has
/// joined the set, and nothing has left it.
pub open spec fn recorded(
    before: Set<MoveInfo>,
    after: Set<MoveInfo>,
    n: usize,
    line: Line,
    p: Point,
) -> bool {
    after == before.insert((n, line, p))
}

/// The candidate `info` is a legal move on the board `board`, and its
/// estimate is the number of legal moves on the board after the move.
pub open spec fn estimated(board: Board, info: MoveInfo) -> bool {
    &&& board.creates(info.1, info.2)
    &&& info.0 == board.place(info.1, info.2).moves().len()
}

/// The function `f` may be called on any stored configuration and any list
/// of lines, and its answer depends on nothing but the configuration and
/// the lines.
pub open spec fn compares_all<MoveSet, F1: Fn(&MoveSet, &Vec<Line>) -> bool>(f: F1) -> bool {
    &&& forall|stored: &MoveSet, live: &Vec<Line>| #[trigger] call_requires(f, (stored, live))
    &&& forall|stored: MoveSet, v: Vec<Line>, w: Vec<Line>, r: bool, t: bool|
        v@ == w@ && #[trigger] call_ensures(f, (&stored, &v), r) && #[trigger] call_ensures(
            f,
            (&stored, &w),
            t,
        ) ==> r == t
}

/// Whenever the function `f` is asked for the lines of `live` in the stored
/// configuration `stored`, it finds them.
pub open spec fn accepts<MoveSet, F1: Fn(&MoveSet, &Vec<Line>) -> bool>(
    f: F1,
    stored: MoveSet,
    live: Seq<Line>,
) -> bool {
    forall|v: Vec<Line>, r: bool| v@ == live && #[trigger] call_ensures(f, (&stored, &v), r) ==> r
}

/// The function `f` finds the lines of `live` in one of the configurations
/// of the row `row`.
pub open spec fn held<MoveSet, F1: Fn(&MoveSet, &Vec<Line>) -> bool>(
    f: F1,
    row: Seq<MoveSet>,
    live: Seq<Line>,
) -> bool {
    exists|k: int| 0 <= k < row.len() && accepts(f, #[trigger] row[k], live)
}

/// The function `f` finds, in the row of the table for the configurations
/// that follow `board`, the lines of `board` with `line` placed after them.
pub open spec fn known<MoveSet, F1: Fn(&MoveSet, &Vec<Line>) -> bool>(
    f: F1,
    table: Seq<Vec<MoveSet>>,
    board: Board,
    line: Line,
) -> bool {
    held(f, next_row(table, board), board.lines.push(line))
}

/// What `f` finds in the table, it finds in the table when the table has grown.
pub proof fn lemma_known_kept<MoveSet, F1: Fn(&MoveSet, &Vec<Line>) -> bool>(
    f: F1,
    before: Seq<Vec<MoveSet>>,
    after: Seq<Vec<MoveSet>>,
    board: Board,
    line: Line,
)
    requires
        known(f, before, board, line),
        extends(before, after),
        board.lines.len() < before.len(),
    ensures
        known(f, after, board, line),
{
    let row = next_row(before, board);
    let longer = next_row(after, board);
    assert(after[board.lines.len() as int]@.len() >= before[board.lines.len() as int]@.len());
    assert forall|k: int| 0 <= k < row.len() implies #[trigger] longer[k] == row[k] by {
        assert(after[board.lines.len() as int]@[k] == before[board.lines.len() as int]@[k]);
    }
    lemma_held_kept(f, row, longer, board.lines.push(line));
}

/// What `f` finds in a row, it finds in the row when the row has grown.
pub proof fn lemma_held_kept<MoveSet, F1: Fn(&MoveSet, &Vec<Line>) -> bool>(
    f: F1,
    row: Seq<MoveSet>,
    longer: Seq<MoveSet>,
    live: Seq<Line>,
)
    requires
        held(f, row, live),
        row.len() <= longer.len(),
        forall|k: int| 0 <= k < row.len() ==> #[trigger] longer[k] == row[k],
    ensures
        held(f, longer, live),
{
    let k = choose|k: int| 0 <= k < row.len() && accepts(f, #[trigger] row[k], live);
    assert(accepts(f, longer[k], live));
}

/// Where `f` has found the lines of `live` in a stored configuration once,
/// it finds them there whenever it is asked.
pub proof fn lemma_recognised_is_accepted<MoveSet, F1: Fn(&MoveSet, &Vec<Line>) -> bool>(
    f: F1,
    stored: MoveSet,
    live: Seq<Line>,
)
    requires
        compares_all::<MoveSet, F1>(f),
        recognises(f, stored, live),
    ensures
        accepts(f, stored, live),
{
    let w = choose|w: Vec<Line>| w@ == live && #[trigger] call_ensures(f, (&stored, &w), true);
    assert forall|v: Vec<Line>, r: bool|
        v@ == live && #[trigger] call_ensures(f, (&stored, &v), r) implies r by {
        assert(call_ensures(f, (&stored, &w), true));
    }
}

/// The function `f` finds the lines of `live` in the stored configuration
/// `stored`.
pub open spec fn recognises<MoveSet, F1: Fn(&MoveSet, &Vec<Line>) -> bool>(
    f: F1,
    stored: MoveSet,
    live: Seq<Line>,
) -> bool {
    exists|v: Vec<Line>| v@ == live && #[trigger] call_ensures(f, (&stored, &v), true)
}

/// The entry `entry` was stored for the lines of `live`, and `f` finds in it
/// only what goes on like them: every board of a game whose lines `f`
/// recognises in the entry is like the board that the lines of `live` make.
pub open spec fn keeps_apart<MoveSet, F1: Fn(&MoveSet, &Vec<Line>) -> bool>(
    f: F1,
    entry: MoveSet,
    live: Seq<Line>,
) -> bool {
    Board::initial().reaches(Board::of_lines(live)) ==> forall|other: Board|
        Board::initial().reaches(other) && #[trigger] recognises(f, entry, other.lines)
            ==> other.alike(Board::of_lines(live))
}

/// The table `after` is the table `before` with one more entry, stored for
/// the lines of `live` in the row of their number. If the lines are those
/// of a game, `f` finds them in the entry, and finds in it only what goes on
/// like them.
pub open spec fn stored_at<MoveSet, F1: Fn(&MoveSet, &Vec<Line>) -> bool>(
    f: F1,
    before: Seq<Vec<MoveSet>>,
    after: Seq<Vec<MoveSet>>,
    live: Seq<Line>,
) -> bool {
    &&& grown_at(before, after, live.len() - 1)
    &&& keeps_apart(f, after[live.len() - 1]@.last(), live)
    &&& Board::initial().reaches(Board::of_lines(live)) ==> accepts(
        f,
        after[live.len() - 1]@.last(),
        live,
    )
}

/// No board of a game whose lines `f` recognises in a row of the table from
/// row `from` on can reach the score `target`.
pub open spec fn dead<MoveSet, F1: Fn(&MoveSet, &Vec<Line>) -> bool>(
    f: F1,
    table: Seq<Vec<MoveSet>>,
    from: nat,
    target: usize,
) -> bool {
    forall|d: int, k: int, other: Board|
        from <= d < table.len() && 0 <= k < table[d]@.len() && Board::initial().reaches(other)
            && #[trigger] recognises(f, table[d]@[k], other.lines) ==> !other.winnable(target)
}

/// The board `later` cannot reach the score `target`, or it is like the
/// board after one of the moves of `noted` from the board `start`.
pub open spec fn settled(start: Board, noted: Set<MoveInfo>, later: Board, target: usize) -> bool {
    !later.winnable(target) || exists|info: MoveInfo| #[trigger]
        noted.contains(info) && later.alike(start.place(info.1, info.2))
}

/// Every board of a game whose lines `f` recognises in the row `row` is
/// settled.
pub open spec fn pending<MoveSet, F1: Fn(&MoveSet, &Vec<Line>) -> bool>(
    f: F1,
    row: Seq<MoveSet>,
    start: Board,
    noted: Set<MoveInfo>,
    target: usize,
) -> bool {
    forall|k: int, other: Board|
        0 <= k < row.len() && Board::initial().reaches(other) && #[trigger] recognises(
            f,
            row[k],
            other.lines,
        ) ==> settled(start, noted, other, target)
}

/// The row of the table that holds the configurations with one line more
/// than `board`.
pub open spec fn next_row<MoveSet>(table: Seq<Vec<MoveSet>>, board: Board) -> Seq<MoveSet> {
    table[board.lines.len() as int]@
}

/// All rows of `after` but the one for configurations with one line more
/// than `board` are the rows of `before`.
pub open spec fn same_but_next_row<MoveSet>(
    before: Seq<Vec<MoveSet>>,
    after: Seq<Vec<MoveSet>>,
    board: Board,
) -> bool {
    &&& after.len() == before.len()
    &&& forall|d: int|
        0 <= d < before.len() && d != board.lines.len() ==> #[trigger] after[d] == before[d]
}

/// The rows of `after` for configurations with at most `lines` lines are
/// the rows of `before`.
pub open spec fn same_up_to<MoveSet>(
    before: Seq<Vec<MoveSet>>,
    after: Seq<Vec<MoveSet>>,
    lines: nat,
) -> bool {
    &&& after.len() == before.len()
    &&& forall|d: int| 0 <= d < before.len() && d < lines ==> #[trigger] after[d] == before[d]
}

/// What a search that started from the board `start` can rely on while it
/// collects its candidates in `noted`: every board recognised in the row of
/// the table for the configurations that follow `start` is settled, and the
/// table is dead beyond that row.
pub open spec fn ahead<MoveSet, F1: Fn(&MoveSet, &Vec<Line>) -> bool>(
    f: F1,
    table: Seq<Vec<MoveSet>>,
    start: Board,
    noted: Set<MoveInfo>,
    target: usize,
) -> bool {
    &&& start.lines.len() < table.len()
    &&& pending(f, next_row(table, start), start, noted, target)
    &&& dead(f, table, start.lines.len() + 1, target)
}

/// A board that is settled stays settled when more moves are noted.
pub proof fn lemma_settled_grows(
    start: Board,
    noted: Set<MoveInfo>,
    more: Set<MoveInfo>,
    later: Board,
    target: usize,
)
    requires
        settled(start, noted, later, target),
        forall|info: MoveInfo| #[trigger] noted.contains(info) ==> more.contains(info),
    ensures
        settled(start, more, later, target),
{
    if later.winnable(target) {
        let info = choose|info: MoveInfo| #[trigger]
            noted.contains(info) && later.alike(start.place(info.1, info.2));
        assert(more.contains(info));
    }
}

/// A row of which every recognised board is settled stays so when more
/// moves are noted.
pub proof fn lemma_pending_grows<MoveSet, F1: Fn(&MoveSet, &Vec<Line>) -> bool>(
    f: F1,
    row: Seq<MoveSet>,
    start: Board,
    noted: Set<MoveInfo>,
    more: Set<MoveInfo>,
    target: usize,
)
    requires
        pending(f, row, start, noted, target),
        forall|info: MoveInfo| #[trigger] noted.contains(info) ==> more.contains(info),
    ensures
        pending(f, row, start, more, target),
{
    assert forall|k: int, other: Board|
        0 <= k < row.len() && Board::initial().reaches(other) && #[trigger] recognises(
            f,
            row[k],
            other.lines,
        ) implies settled(start, more, other, target) by {
        lemma_settled_grows(start, noted, more, other, target);
    }
}

/// A row stays pending when an entry is added that was stored for the board
/// after a move that is noted.
pub proof fn lemma_pending_with_entry<MoveSet, F1: Fn(&MoveSet, &Vec<Line>) -> bool>(
    f: F1,
    row: Seq<MoveSet>,
    longer: Seq<MoveSet>,
    start: Board,
    noted: Set<MoveInfo>,
    info: MoveInfo,
    target: usize,
)
    requires
        pending(f, row, start, noted, target),
        longer.len() == row.len() + 1,
        forall|k: int| 0 <= k < row.len() ==> #[trigger] longer[k] == row[k],
        noted.contains(info),
        Board::initial().reaches(start.place(info.1, info.2)),
        keeps_apart(f, longer.last(), start.place(info.1, info.2).lines),
    ensures
        pending(f, longer, start, noted, target),
{
    let child = start.place(info.1, info.2);
    lemma_flags_sum_up_lines(child);
    assert forall|k: int, other: Board|
        0 <= k < longer.len() && Board::initial().reaches(other) && #[trigger] recognises(
            f,
            longer[k],
            other.lines,
        ) implies settled(start, noted, other, target) by {
        if k < row.len() {
            assert(recognises(f, row[k], other.lines));
        } else {
            assert(longer[k] == longer.last());
            assert(other.alike(child));
        }
    }
}

/// Once no noted move leads to a board that can reach the target, no board
/// that is settled can.
pub proof fn lemma_settled_is_lost(
    start: Board,
    noted: Set<MoveInfo>,
    later: Board,
    target: usize,
)
    requires
        settled(start, noted, later, target),
        forall|info: MoveInfo| #[trigger]
            noted.contains(info) ==> !start.place(info.1, info.2).winnable(target),
    ensures
        !later.winnable(target),
{
    if later.winnable(target) {
        let info = choose|info: MoveInfo| #[trigger]
            noted.contains(info) && later.alike(start.place(info.1, info.2));
        lemma_alike_winnable(later, start.place(info.1, info.2), target);
    }
}

/// A table that is dead from the row above that of the board on, and whose
/// row for the board is pending, is dead from that row on once no noted
/// move leads to a board that can reach the target.
pub proof fn lemma_pending_is_dead<MoveSet, F1: Fn(&MoveSet, &Vec<Line>) -> bool>(
    f: F1,
    table: Seq<Vec<MoveSet>>,
    start: Board,
    noted: Set<MoveInfo>,
    target: usize,
)
    requires
        start.lines.len() < table.len(),
        dead(f, table, start.lines.len() + 1, target),
        pending(f, next_row(table, start), start, noted, target),
        forall|info: MoveInfo| #[trigger]
            noted.contains(info) ==> !start.place(info.1, info.2).winnable(target),
    ensures
        dead(f, table, start.lines.len(), target),
{
    assert forall|d: int, k: int, other: Board|
        start.lines.len() <= d < table.len() && 0 <= k < table[d]@.len()
            && Board::initial().reaches(other) && #[trigger] recognises(
            f,
            table[d]@[k],
            other.lines,
        ) implies !other.winnable(target) by {
        if d == start.lines.len() {
            assert(recognises(f, next_row(table, start)[k], other.lines));
            lemma_settled_is_lost(start, noted, other, target);
        }
    }
}

/// In a table that is dead from the row of the board on, that row is
/// pending, whatever moves are noted.
pub proof fn lemma_dead_is_pending<MoveSet, F1: Fn(&MoveSet, &Vec<Line>) -> bool>(
    f: F1,
    table: Seq<Vec<MoveSet>>,
    start: Board,
    noted: Set<MoveInfo>,
    target: usize,
)
    requires
        start.lines.len() < table.len(),
        dead(f, table, start.lines.len(), target),
    ensures
        pending(f, next_row(table, start), start, noted, target),
        dead(f, table, start.lines.len() + 1, target),
{
    assert forall|k: int, other: Board|
        0 <= k < next_row(table, start).len() && Board::initial().reaches(other)
            && #[trigger] recognises(
            f,
            next_row(table, start)[k],
            other.lines,
        ) implies settled(start, noted, other, target) by {
        assert(recognises(f, table[start.lines.len() as int]@[k], other.lines));
    }
}

/// A table stays dead from a row on when the rows from that row on stay as
/// they are.
pub proof fn lemma_dead_kept<MoveSet, F1: Fn(&MoveSet, &Vec<Line>) -> bool>(
    f: F1,
    before: Seq<Vec<MoveSet>>,
    after: Seq<Vec<MoveSet>>,
    from: nat,
    target: usize,
)
    requires
        dead(f, before, from, target),
        after.len() == before.len(),
        forall|d: int| from <= d < before.len() ==> #[trigger] after[d] == before[d],
    ensures
        dead(f, after, from, target),
{
    assert forall|d: int, k: int, other: Board|
        from <= d < after.len() && 0 <= k < after[d]@.len() && Board::initial().reaches(other)
            && #[trigger] recognises(f, after[d]@[k], other.lines) implies !other.winnable(
        target,
    ) by {
        assert(after[d] == before[d]);
        assert(recognises(f, before[d]@[k], other.lines));
    }
}

} // verus!
