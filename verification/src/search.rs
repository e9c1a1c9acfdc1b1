//! The backtracking search.
//!
//! The search places a line, goes on from the new board, and takes the line
//! back if that fails. Before it goes into the boards that follow a board,
//! it collects them all, leaves out those that it recognises in the table
//! of configurations, and ranks the rest. It is written once, for every
//! strategy.
//!
//! Which board the search finds depends on the order in which the hash
//! tables hand out their elements; whether it finds one does not. The
//! contracts say so: the board found is a legal game that has reached the
//! target, and the search gives up only where no such game exists.

use crate::board::{
    lemma_comes_to_after_move, lemma_covered_is_candidate, lemma_flags_sum_up_lines,
    lemma_move_can_be_made, lemma_one_new_point, lemma_place_inside, lemma_place_unplace,
    lemma_reached_further, lemma_reaches_after_move, lemma_reaches_grows, lemma_reaches_self,
    lemma_winnable_by_a_move, Board,
};
use crate::game::{candidates_at, Game};
use crate::hashed::{Candidates, LineSet, MoveInfo};
use crate::line::{lemma_free_role_in_range, lemma_line_points, Line};
use crate::memo::{
    accepts, ahead, compares_all, dead, estimated, extends, is_new, known, lemma_dead_is_pending,
    lemma_dead_kept, lemma_extends_transitive, lemma_grown_extends, lemma_known_kept,
    lemma_pending_grows, lemma_pending_is_dead, lemma_pending_with_entry,
    lemma_recognised_is_accepted, lemma_settled_grows, lemma_settled_is_lost, next_row, recognises,
    recorded, same_but_next_row, same_up_to, settled, stored_at,
};
use crate::methods::{
    cmp_quad_hpm, is_ranking, lemma_rankings, moves_of, orders_all, packed_leq, ranks_by,
    records_all,
    sort_by, spm_intoiter, store_hs,
    store_npm_s_p, store_sorted, stores_all, v_hs_eq, v_sorted_eq, Method,
};
use crate::point::Point;
use std::cmp::Ordering;
use vstd::prelude::*;
use vstd::relations::sorted_by;

verus! {

/// Tells whether `set_comparison` recognises the lines of `live` in one of
/// the configurations of `row`.
fn seen_before<MoveSet, F1: Fn(&MoveSet, &Vec<Line>) -> bool>(
    row: &Vec<MoveSet>,
    live: &Vec<Line>,
    set_comparison: &F1,
) -> (found: bool)
    requires
        compares_all::<MoveSet, F1>(*set_comparison),
    ensures
        found ==> exists|k: int|
            0 <= k < row@.len() && recognises(*set_comparison, #[trigger] row@[k], live@),
        !found ==> forall|k: int|
            0 <= k < row@.len() ==> call_ensures(*set_comparison, (&row@[k], live), false),
{
    let mut k: usize = 0;
    while k < row.len()
        invariant
            k <= row.len(),
            compares_all::<MoveSet, F1>(*set_comparison),
            forall|j: int|
                0 <= j < k ==> call_ensures(*set_comparison, (&row@[j], live), false),
        decreases row.len() - k,
    {
        if set_comparison(&row[k], live) {
            assert(call_ensures(*set_comparison, (&row@[k as int], &*live), true));
            return true;
        }
        k += 1;
    }
    false
}

/// Tries the line `set` on the board: if it is a legal move, makes it, and
/// unless `set_comparison` recognises the lines now placed in the table,
/// stores them there, estimates the branching of the new board and records
/// the move with that estimate; then takes the move back. The score that
/// the search goes for, `target`, only serves the proof.
fn probe<MoveSet, F1, F2, F3>(
    gamestates: &mut Vec<Vec<MoveSet>>,
    game: &mut Game,
    set: Line,
    possible_moves: &mut Candidates,
    set_comparison: &F1,
    store_new_set: &F2,
    store_move_info: &F3,
    Ghost(target): Ghost<usize>,
) where
    F1: Fn(&MoveSet, &Vec<Line>) -> bool,
    F2: Fn(&mut Vec<Vec<MoveSet>>, &Vec<Line>),
    F3: Fn(&mut Candidates, usize, Line, Point),

    requires
        set.fits(),
        old(game)@.inside(8),
        old(game)@.lines.len() < old(gamestates)@.len(),
        compares_all::<MoveSet, F1>(*set_comparison),
        stores_all::<MoveSet, F2>(*store_new_set),
        records_all(*store_move_info),
        forall|all: &mut Vec<Vec<MoveSet>>, live: &Vec<Line>, r: ()| #[trigger]
            call_ensures(*store_new_set, (all, live), r) ==> stored_at(
                *set_comparison,
                all@,
                final(all)@,
                live@,
            ),
        forall|acc: &mut Candidates, n: usize, line: Line, p: Point, r: ()| #[trigger]
            call_ensures(*store_move_info, (acc, n, line, p), r) ==> recorded(
                acc@,
                final(acc)@,
                n,
                line,
                p,
            ),
        forall|info: MoveInfo| #[trigger]
            old(possible_moves)@.contains(info) ==> estimated(old(game)@, info),
    ensures
        final(game)@ == old(game)@,
        extends(old(gamestates)@, final(gamestates)@),
        same_but_next_row(old(gamestates)@, final(gamestates)@, old(game)@),
        forall|d: int, k: int| #[trigger]
            is_new(old(gamestates)@, final(gamestates)@, d, k) ==> exists|
                all: &mut Vec<Vec<MoveSet>>,
                live: &Vec<Line>,
            |
                #![trigger call_ensures(*store_new_set, (all, live), ())]
                call_ensures(*store_new_set, (all, live), ()) && old(game)@.comes_to(live@)
                    && live@.len() == d + 1 && final(all)@[d]@.last() == final(gamestates)@[d]@[k],
        forall|info: MoveInfo| #[trigger]
            final(possible_moves)@.contains(info) ==> estimated(old(game)@, info),
        forall|info: MoveInfo| #[trigger]
            old(possible_moves)@.contains(info) ==> final(possible_moves)@.contains(info),
        forall|info: MoveInfo| #[trigger]
            final(possible_moves)@.contains(info) ==> old(possible_moves)@.contains(info)
                || info.1 == set,
        !old(game)@.legal(set) ==> final(gamestates)@ == old(gamestates)@,
        old(game)@.legal(set) && next_row(old(gamestates)@, old(game)@).len() == 0 ==> exists|
            info: MoveInfo,
        | final(possible_moves)@.contains(info),
        Board::initial().reaches(old(game)@) && old(game)@.legal(set) ==> known(
            *set_comparison,
            final(gamestates)@,
            old(game)@,
            set,
        ),
        Board::initial().reaches(old(game)@) && ahead(
            *set_comparison,
            old(gamestates)@,
            old(game)@,
            old(possible_moves)@,
            target,
        ) ==> ahead(
            *set_comparison,
            final(gamestates)@,
            old(game)@,
            final(possible_moves)@,
            target,
        ) && forall|p: Point|
            old(game)@.creates(set, p) ==> settled(
                old(game)@,
                final(possible_moves)@,
                #[trigger] old(game)@.place(set, p),
                target,
            ),
{
    let ghost start = game@;
    let ghost noted = possible_moves@;
    let ghost from_start = Board::initial().reaches(start);
    let ghost careful = from_start && ahead(*set_comparison, gamestates@, start, noted, target);
    if let Some(point) = game.valid_add_set(set) {
        let ghost child = start.place(set, point);
        proof {
            lemma_move_can_be_made(start, set, point);
            lemma_place_inside(start, set, point, 8);
            lemma_place_unplace(start, set, point);
            lemma_one_new_point(start, set, point);
            if from_start {
                lemma_reaches_self(child);
                lemma_reaches_after_move(start, set, point, child);
                lemma_reached_further(start, child);
                lemma_flags_sum_up_lines(child);
            }
        }
        game.add_set(set, point);
        let seen = seen_before(&gamestates[game.score() - 1], game.sets(), set_comparison);
        if !seen {
            store_new_set(gamestates, game.sets());
            proof {
                lemma_grown_extends(old(gamestates)@, gamestates@, game@.lines.len() - 1);
                assert(start.reaches(child)) by {
                    lemma_reaches_self(child);
                    lemma_reaches_after_move(start, set, point, child);
                }
                assert(start.comes_to(child.lines));
                if from_start {
                    let row = next_row(gamestates@, start);
                    assert(accepts(*set_comparison, row[row.len() - 1], child.lines));
                    assert(known(*set_comparison, gamestates@, start, set));
                }
            }
            let num_possible_moves = game.possible_moves();
            store_move_info(possible_moves, num_possible_moves, set, point);
            proof {
                assert(recorded(noted, possible_moves@, num_possible_moves, set, point));
                let info: MoveInfo = (num_possible_moves, set, point);
                assert(possible_moves@.contains(info));
                if careful {
                    lemma_pending_grows(
                        *set_comparison,
                        next_row(old(gamestates)@, start),
                        start,
                        noted,
                        possible_moves@,
                        target,
                    );
                    lemma_pending_with_entry(
                        *set_comparison,
                        next_row(old(gamestates)@, start),
                        next_row(gamestates@, start),
                        start,
                        possible_moves@,
                        info,
                        target,
                    );
                    lemma_dead_kept(
                        *set_comparison,
                        old(gamestates)@,
                        gamestates@,
                        start.lines.len() + 1,
                        target,
                    );
                    assert(child.alike(start.place(info.1, info.2)));
                    assert(settled(start, possible_moves@, child, target));
                }
            }
        } else {
            proof {
                if from_start {
                    let row = next_row(gamestates@, start);
                    let k = choose|k: int|
                        0 <= k < row.len() && recognises(
                            *set_comparison,
                            #[trigger] row[k],
                            child.lines,
                        );
                    lemma_recognised_is_accepted(*set_comparison, row[k], child.lines);
                    assert(known(*set_comparison, gamestates@, start, set));
                }
                if careful {
                    let k = choose|k: int|
                        0 <= k < next_row(gamestates@, start).len() && recognises(
                            *set_comparison,
                            #[trigger] next_row(gamestates@, start)[k],
                            child.lines,
                        );
                    assert(settled(start, possible_moves@, child, target));
                }
            }
        }
        game.remove_set(set, point);
    }
}

/// Tries every line of `lines` on the board, one after the other.
fn probe_all<MoveSet, F1, F2, F3>(
    gamestates: &mut Vec<Vec<MoveSet>>,
    game: &mut Game,
    lines: &Vec<Line>,
    possible_moves: &mut Candidates,
    set_comparison: &F1,
    store_new_set: &F2,
    store_move_info: &F3,
    Ghost(target): Ghost<usize>,
) where
    F1: Fn(&MoveSet, &Vec<Line>) -> bool,
    F2: Fn(&mut Vec<Vec<MoveSet>>, &Vec<Line>),
    F3: Fn(&mut Candidates, usize, Line, Point),

    requires
        forall|k: int| 0 <= k < lines@.len() ==> (#[trigger] lines@[k]).fits(),
        old(game)@.inside(8),
        old(game)@.lines.len() < old(gamestates)@.len(),
        compares_all::<MoveSet, F1>(*set_comparison),
        stores_all::<MoveSet, F2>(*store_new_set),
        records_all(*store_move_info),
        forall|all: &mut Vec<Vec<MoveSet>>, live: &Vec<Line>, r: ()| #[trigger]
            call_ensures(*store_new_set, (all, live), r) ==> stored_at(
                *set_comparison,
                all@,
                final(all)@,
                live@,
            ),
        forall|acc: &mut Candidates, n: usize, line: Line, p: Point, r: ()| #[trigger]
            call_ensures(*store_move_info, (acc, n, line, p), r) ==> recorded(
                acc@,
                final(acc)@,
                n,
                line,
                p,
            ),
        forall|info: MoveInfo| #[trigger]
            old(possible_moves)@.contains(info) ==> estimated(old(game)@, info),
    ensures
        final(game)@ == old(game)@,
        extends(old(gamestates)@, final(gamestates)@),
        same_but_next_row(old(gamestates)@, final(gamestates)@, old(game)@),
        forall|d: int, k: int| #[trigger]
            is_new(old(gamestates)@, final(gamestates)@, d, k) ==> exists|
                all: &mut Vec<Vec<MoveSet>>,
                live: &Vec<Line>,
            |
                #![trigger call_ensures(*store_new_set, (all, live), ())]
                call_ensures(*store_new_set, (all, live), ()) && old(game)@.comes_to(live@)
                    && live@.len() == d + 1 && final(all)@[d]@.last() == final(gamestates)@[d]@[k],
        forall|info: MoveInfo| #[trigger]
            final(possible_moves)@.contains(info) ==> estimated(old(game)@, info),
        forall|info: MoveInfo| #[trigger]
            old(possible_moves)@.contains(info) ==> final(possible_moves)@.contains(info),
        forall|info: MoveInfo| #[trigger]
            final(possible_moves)@.contains(info) ==> old(possible_moves)@.contains(info)
                || lines@.contains(info.1),
        next_row(old(gamestates)@, old(game)@).len() == 0 && (exists|k: int|
            0 <= k < lines@.len() && old(game)@.legal(#[trigger] lines@[k])) ==> exists|
            info: MoveInfo,
        | final(possible_moves)@.contains(info),
        Board::initial().reaches(old(game)@) ==> forall|k: int|
            0 <= k < lines@.len() && old(game)@.legal(#[trigger] lines@[k]) ==> known(
                *set_comparison,
                final(gamestates)@,
                old(game)@,
                lines@[k],
            ),
        Board::initial().reaches(old(game)@) && ahead(
            *set_comparison,
            old(gamestates)@,
            old(game)@,
            old(possible_moves)@,
            target,
        ) ==> ahead(
            *set_comparison,
            final(gamestates)@,
            old(game)@,
            final(possible_moves)@,
            target,
        ) && forall|k: int, p: Point|
            0 <= k < lines@.len() && old(game)@.creates(#[trigger] lines@[k], p) ==> settled(
                old(game)@,
                final(possible_moves)@,
                #[trigger] old(game)@.place(lines@[k], p),
                target,
            ),
{
    let ghost start = game@;
    let ghost careful = Board::initial().reaches(start) && ahead(
        *set_comparison,
        gamestates@,
        start,
        possible_moves@,
        target,
    );
    let mut c: usize = 0;
    while c < lines.len()
        invariant
            c <= lines.len(),
            forall|k: int| 0 <= k < lines@.len() ==> (#[trigger] lines@[k]).fits(),
            game@ == start,
            start == old(game)@,
            start.inside(8),
            extends(old(gamestates)@, gamestates@),
            same_but_next_row(old(gamestates)@, gamestates@, start),
            forall|d: int, k: int| #[trigger]
                is_new(old(gamestates)@, gamestates@, d, k) ==> exists|
                    all: &mut Vec<Vec<MoveSet>>,
                    live: &Vec<Line>,
                |
                    #![trigger call_ensures(*store_new_set, (all, live), ())]
                    call_ensures(*store_new_set, (all, live), ()) && start.comes_to(live@)
                        && live@.len() == d + 1 && final(all)@[d]@.last() == gamestates@[d]@[k],
            start.lines.len() < gamestates@.len(),
            compares_all::<MoveSet, F1>(*set_comparison),
            stores_all::<MoveSet, F2>(*store_new_set),
            records_all(*store_move_info),
            forall|all: &mut Vec<Vec<MoveSet>>, live: &Vec<Line>, r: ()| #[trigger]
                call_ensures(*store_new_set, (all, live), r) ==> stored_at(
                    *set_comparison,
                    all@,
                    final(all)@,
                    live@,
                ),
            forall|acc: &mut Candidates, n: usize, line: Line, p: Point, r: ()| #[trigger]
                call_ensures(*store_move_info, (acc, n, line, p), r) ==> recorded(
                    acc@,
                    final(acc)@,
                    n,
                    line,
                    p,
                ),
            forall|info: MoveInfo| #[trigger]
                possible_moves@.contains(info) ==> estimated(start, info),
            forall|info: MoveInfo| #[trigger]
                old(possible_moves)@.contains(info) ==> possible_moves@.contains(info),
            forall|info: MoveInfo| #[trigger]
                possible_moves@.contains(info) ==> old(possible_moves)@.contains(info)
                    || lines@.contains(info.1),
            (forall|k: int| 0 <= k < c ==> !start.legal(#[trigger] lines@[k])) ==> gamestates@
                == old(gamestates)@,
            next_row(old(gamestates)@, start).len() == 0 && (exists|k: int|
                0 <= k < c && start.legal(#[trigger] lines@[k])) ==> exists|info: MoveInfo|
                possible_moves@.contains(info),
            careful ==> Board::initial().reaches(start) && ahead(
                *set_comparison,
                gamestates@,
                start,
                possible_moves@,
                target,
            ),
            Board::initial().reaches(start) ==> forall|k: int|
                0 <= k < c && start.legal(#[trigger] lines@[k]) ==> known(
                    *set_comparison,
                    gamestates@,
                    start,
                    lines@[k],
                ),
            careful ==> forall|k: int, p: Point|
                0 <= k < c && start.creates(#[trigger] lines@[k], p) ==> settled(
                    start,
                    possible_moves@,
                    #[trigger] start.place(lines@[k], p),
                    target,
                ),
        decreases lines.len() - c,
    {
        let ghost earlier = possible_moves@;
        let ghost table = gamestates@;
        probe(
            gamestates,
            game,
            lines[c],
            possible_moves,
            set_comparison,
            store_new_set,
            store_move_info,
            Ghost(target),
        );
        proof {
            lemma_extends_transitive(old(gamestates)@, table, gamestates@);
            if next_row(old(gamestates)@, start).len() == 0 && (exists|k: int|
                0 <= k < c + 1 && start.legal(#[trigger] lines@[k])) {
                if exists|k: int| 0 <= k < c && start.legal(#[trigger] lines@[k]) {
                    let info = choose|info: MoveInfo| earlier.contains(info);
                    assert(possible_moves@.contains(info));
                }
            }
            if Board::initial().reaches(start) {
                assert forall|k: int|
                    0 <= k < c + 1 && start.legal(#[trigger] lines@[k]) implies known(
                    *set_comparison,
                    gamestates@,
                    start,
                    lines@[k],
                ) by {
                    if k < c {
                        lemma_known_kept(*set_comparison, table, gamestates@, start, lines@[k]);
                    }
                }
            }
            if careful {
                assert forall|k: int, p: Point|
                    0 <= k < c + 1 && start.creates(#[trigger] lines@[k], p) implies settled(
                    start,
                    possible_moves@,
                    #[trigger] start.place(lines@[k], p),
                    target,
                ) by {
                    if k < c {
                        lemma_settled_grows(
                            start,
                            earlier,
                            possible_moves@,
                            start.place(lines@[k], p),
                            target,
                        );
                    }
                }
            }
        }
        c += 1;
    }
}

/// The move `step` is the move of one of the candidates noted.
pub open spec fn is_noted(noted: Set<MoveInfo>, step: (Line, Point)) -> bool {
    exists|info: MoveInfo| #[trigger] noted.contains(info) && (info.1, info.2) == step
}

/// The order of trial holds the moves of the candidates noted, and no other
/// move: the candidates were ranked without loss and put in order without
/// loss.
proof fn lemma_order_of_trial(
    noted: Set<MoveInfo>,
    ranked: Seq<MoveInfo>,
    order: Seq<(Line, Point)>,
)
    requires
        ranked.to_set() == noted,
        order.to_multiset() == moves_of(ranked).to_multiset(),
    ensures
        forall|k: int| 0 <= k < order.len() ==> is_noted(noted, #[trigger] order[k]),
        forall|info: MoveInfo| #[trigger] noted.contains(info) ==> order.contains((info.1, info.2)),
        (exists|info: MoveInfo| noted.contains(info)) ==> order.len() > 0,
{
    order.to_multiset_ensures();
    moves_of(ranked).to_multiset_ensures();
    assert forall|k: int| 0 <= k < order.len() implies is_noted(noted, #[trigger] order[k]) by {
        assert(order.contains(order[k]));
        assert(order.to_multiset().count(order[k]) > 0);
        assert(moves_of(ranked).to_multiset().count(order[k]) > 0);
        assert(moves_of(ranked).contains(order[k]));
        let j = choose|j: int| 0 <= j < ranked.len() && moves_of(ranked)[j] == order[k];
        assert(ranked.contains(ranked[j]));
        assert(ranked.to_set().contains(ranked[j]));
        assert(noted.contains(ranked[j]) && (ranked[j].1, ranked[j].2) == order[k]);
    }
    assert forall|info: MoveInfo| #[trigger] noted.contains(info) implies order.contains(
        (info.1, info.2),
    ) by {
        assert(ranked.to_set().contains(info));
        assert(ranked.contains(info));
        let j = choose|j: int| 0 <= j < ranked.len() && ranked[j] == info;
        assert(moves_of(ranked)[j] == (info.1, info.2));
        assert(moves_of(ranked).contains((info.1, info.2)));
        assert(moves_of(ranked).to_multiset().count((info.1, info.2)) > 0);
        assert(order.to_multiset().count((info.1, info.2)) > 0);
    }
    if exists|info: MoveInfo| noted.contains(info) {
        let info = choose|info: MoveInfo| noted.contains(info);
        assert(order.contains((info.1, info.2)));
    }
}

/// The list `list` is in the order of the ranking `f`: no candidate stands
/// before one of lower rank, whatever the integer rank is by which `f`
/// orders.
pub open spec fn in_rank_order<F4: Fn(&MoveInfo, &MoveInfo) -> Ordering>(
    f: F4,
    list: Seq<MoveInfo>,
) -> bool {
    forall|key: spec_fn(MoveInfo) -> int, i: int, j: int|
        #![trigger ranks_by(f, key), list[i], list[j]]
        ranks_by(f, key) && 0 <= i <= j < list.len() ==> key(list[i]) <= key(list[j])
}

/// The candidates of `possible_moves`, each once, in the order of the
/// ranking `sort_move_info`, lowest rank first. Which of two candidates of
/// the same rank comes first is left open.
pub fn rank_candidates<F4: Fn(&MoveInfo, &MoveInfo) -> Ordering>(
    possible_moves: Candidates,
    sort_move_info: &F4,
) -> (sorted_possible_moves: Vec<MoveInfo>)
    requires
        is_ranking::<MoveInfo, F4>(*sort_move_info),
    ensures
        sorted_possible_moves@.to_set() == possible_moves@,
        sorted_possible_moves@.len() == possible_moves@.len(),
        in_rank_order(*sort_move_info, sorted_possible_moves@),
{
    let mut sorted_possible_moves = possible_moves.into_vec();
    let ghost unsorted = sorted_possible_moves@;
    sort_by(&mut sorted_possible_moves, sort_move_info);
    proof {
        let ranked = sorted_possible_moves@;
        unsorted.to_multiset_ensures();
        ranked.to_multiset_ensures();
        assert forall|info: MoveInfo| ranked.to_set().contains(info) == unsorted.to_set().contains(
            info,
        ) by {
            assert(ranked.contains(info) == (ranked.to_multiset().count(info) > 0));
            assert(unsorted.contains(info) == (unsorted.to_multiset().count(info) > 0));
        }
        assert(ranked.to_set() =~= unsorted.to_set());
    }
    sorted_possible_moves
}

/// The moves of the candidates of `possible_moves` in the order in which
/// the search tries them: the candidates are ranked by `sort_move_info`, and
/// the ranked list is handed to `move_iter`, which gives the order.
pub fn order_of_trial<F4, F5>(
    possible_moves: Candidates,
    sort_move_info: &F4,
    move_iter: &F5,
) -> (order: Vec<(Line, Point)>) where
    F4: Fn(&MoveInfo, &MoveInfo) -> Ordering,
    F5: Fn(Vec<MoveInfo>) -> Vec<(Line, Point)>,

    requires
        is_ranking::<MoveInfo, F4>(*sort_move_info),
        orders_all(*move_iter),
    ensures
        exists|ranked: Vec<MoveInfo>| #[trigger]
            call_ensures(*move_iter, (ranked,), order) && ranked@.to_set() == possible_moves@
                && ranked@.len() == possible_moves@.len() && in_rank_order(
                *sort_move_info,
                ranked@,
            ),
        forall|k: int| 0 <= k < order@.len() ==> is_noted(possible_moves@, #[trigger] order@[k]),
        forall|info: MoveInfo| #[trigger]
            possible_moves@.contains(info) ==> order@.contains((info.1, info.2)),
        (exists|info: MoveInfo| possible_moves@.contains(info)) ==> order@.len() > 0,
{
    let sorted_possible_moves = rank_candidates(possible_moves, sort_move_info);
    let ghost ranked = sorted_possible_moves@;
    let order = move_iter(sorted_possible_moves);
    proof {
        lemma_order_of_trial(possible_moves@, ranked, order@);
    }
    order
}

/// Ranks the recorded candidates, and tries them in the order that the
/// strategy gives: each is placed; if the score then reaches `target` the
/// search has succeeded; otherwise the search goes on from the new board,
/// and the move is taken back if that fails.
fn explore<MoveSet, F1, F2, F3, F4, F5>(
    gamestates: &mut Vec<Vec<MoveSet>>,
    game: &mut Game,
    method: &Method<F1, F2, F3, F4, F5>,
    possible_moves: Candidates,
    target: usize,
) -> (found: bool) where
    F1: Fn(&MoveSet, &Vec<Line>) -> bool,
    F2: Fn(&mut Vec<Vec<MoveSet>>, &Vec<Line>),
    F3: Fn(&mut Candidates, usize, Line, Point),
    F4: Fn(&MoveInfo, &MoveInfo) -> Ordering,
    F5: Fn(Vec<MoveInfo>) -> Vec<(Line, Point)>,

    requires
        method.usable::<MoveSet>(),
        forall|all: &mut Vec<Vec<MoveSet>>, live: &Vec<Line>, r: ()| #[trigger]
            call_ensures(method.store_new_set, (all, live), r) ==> stored_at(
                method.set_comparison,
                all@,
                final(all)@,
                live@,
            ),
        forall|acc: &mut Candidates, n: usize, line: Line, p: Point, r: ()| #[trigger]
            call_ensures(method.store_move_info, (acc, n, line, p), r) ==> recorded(
                acc@,
                final(acc)@,
                n,
                line,
                p,
            ),
        old(game)@.room(target),
        old(gamestates)@.len() >= target,
        old(gamestates)@.len() > old(game)@.lines.len(),
        forall|info: MoveInfo| #[trigger]
            possible_moves@.contains(info) ==> estimated(old(game)@, info),
    ensures
        extends(old(gamestates)@, final(gamestates)@),
        same_up_to(old(gamestates)@, final(gamestates)@, old(game)@.lines.len() + 1),
        forall|d: int, k: int| #[trigger]
            is_new(old(gamestates)@, final(gamestates)@, d, k) ==> exists|
                all: &mut Vec<Vec<MoveSet>>,
                live: &Vec<Line>,
            |
                #![trigger call_ensures(method.store_new_set, (all, live), ())]
                call_ensures(method.store_new_set, (all, live), ()) && old(game)@.comes_to(live@)
                    && live@.len() == d + 1 && final(all)@[d]@.last() == final(gamestates)@[d]@[k],
        old(game)@.reaches(final(game)@),
        found ==> final(game)@.lines.len() >= target && final(game)@.lines.len() > old(
            game,
        )@.lines.len(),
        !found ==> final(game)@ == old(game)@,
        (exists|info: MoveInfo| possible_moves@.contains(info)) && old(game)@.lines.len() + 1
            >= target ==> found,
        found && old(game)@.lines.len() + 1 >= target ==> final(game)@.lines.len() == old(
            game,
        )@.lines.len() + 1,
        found && old(game)@.lines.len() < target ==> final(game)@.lines.len() == target,
        found ==> exists|info: MoveInfo|
            possible_moves@.contains(info) && old(game)@.next_line(final(game)@) == info.1,
        !found && Board::initial().reaches(old(game)@) && dead(
            method.set_comparison,
            old(gamestates)@,
            old(game)@.lines.len() + 1,
            target,
        ) ==> dead(
            method.set_comparison,
            final(gamestates)@,
            old(game)@.lines.len() + 1,
            target,
        ) && forall|info: MoveInfo| #[trigger]
            possible_moves@.contains(info) ==> !old(game)@.place(info.1, info.2).winnable(target),
    decreases target - old(game)@.lines.len(), 0int,
{
    let ghost start = game@;
    let ghost noted = possible_moves@;
    let ghost careful = Board::initial().reaches(start) && dead(
        method.set_comparison,
        gamestates@,
        start.lines.len() + 1,
        target,
    );
    let order = order_of_trial(possible_moves, &method.sort_move_info, &method.move_iter);
    proof {
        assert forall|k: int| 0 <= k < order@.len() implies start.creates(
            (#[trigger] order@[k]).0,
            order@[k].1,
        ) by {
            assert(is_noted(noted, order@[k]));
            let info = choose|info: MoveInfo| #[trigger]
                noted.contains(info) && (info.1, info.2) == order@[k];
            assert(start.creates(info.1, info.2));
        }
        lemma_reaches_self(start);
    }
    let mut k: usize = 0;
    while k < order.len()
        invariant
            k <= order.len(),
            start == old(game)@,
            game@ == start,
            start.room(target),
            extends(old(gamestates)@, gamestates@),
            same_up_to(old(gamestates)@, gamestates@, start.lines.len() + 1),
            forall|d: int, k: int| #[trigger]
                is_new(old(gamestates)@, gamestates@, d, k) ==> exists|
                    all: &mut Vec<Vec<MoveSet>>,
                    live: &Vec<Line>,
                |
                    #![trigger call_ensures(method.store_new_set, (all, live), ())]
                    call_ensures(method.store_new_set, (all, live), ()) && start.comes_to(live@)
                        && live@.len() == d + 1 && final(all)@[d]@.last() == gamestates@[d]@[k],
            gamestates@.len() >= target,
            gamestates@.len() > start.lines.len(),
            method.usable::<MoveSet>(),
            forall|all: &mut Vec<Vec<MoveSet>>, live: &Vec<Line>, r: ()| #[trigger]
                call_ensures(method.store_new_set, (all, live), r) ==> stored_at(
                    method.set_comparison,
                    all@,
                    final(all)@,
                    live@,
                ),
            forall|acc: &mut Candidates, n: usize, line: Line, p: Point, r: ()| #[trigger]
                call_ensures(method.store_move_info, (acc, n, line, p), r) ==> recorded(
                    acc@,
                    final(acc)@,
                    n,
                    line,
                    p,
                ),
            forall|j: int|
                0 <= j < order@.len() ==> start.creates((#[trigger] order@[j]).0, order@[j].1),
            forall|j: int| 0 <= j < order@.len() ==> is_noted(noted, #[trigger] order@[j]),
            forall|info: MoveInfo| #[trigger]
                noted.contains(info) ==> order@.contains((info.1, info.2)),
            (exists|info: MoveInfo| noted.contains(info)) ==> order@.len() > 0,
            noted == possible_moves@,
            start.reaches(start),
            k > 0 ==> start.lines.len() + 1 < target,
            careful ==> Board::initial().reaches(start) && dead(
                method.set_comparison,
                gamestates@,
                start.lines.len() + 1,
                target,
            ),
            careful ==> forall|j: int|
                0 <= j < k ==> !(#[trigger] start.place(order@[j].0, order@[j].1)).winnable(target),
        decreases order.len() - k,
    {
        let (set, point) = order[k];
        proof {
            lemma_move_can_be_made(start, set, point);
            lemma_place_unplace(start, set, point);
            lemma_place_inside(
                start,
                set,
                point,
                4 * (if target > start.lines.len() {
                    target - start.lines.len()
                } else {
                    1
                }) + 4,
            );
            lemma_reaches_self(start.place(set, point));
            if careful {
                lemma_reaches_after_move(start, set, point, start.place(set, point));
                lemma_reached_further(start, start.place(set, point));
            }
        }
        game.add_set(set, point);
        let ghost placed = game@;
        if game.score() >= target {
            proof {
                lemma_reaches_after_move(start, set, point, game@);
                assert(start.next_line(game@) == set);
                assert(is_noted(noted, (set, point)));
                let info = choose|info: MoveInfo| #[trigger]
                    noted.contains(info) && (info.1, info.2) == (set, point);
                assert(noted.contains(info) && start.next_line(game@) == info.1);
            }
            return true;
        }
        let ghost table = gamestates@;
        let deeper = branch(gamestates, game, method, target);
        proof {
            lemma_extends_transitive(old(gamestates)@, table, gamestates@);
            assert forall|lines: Seq<Line>| #[trigger]
                placed.comes_to(lines) implies start.comes_to(lines) by {
                lemma_comes_to_after_move(start, set, point, lines);
            }
        }
        if deeper {
            proof {
                lemma_reaches_after_move(start, set, point, game@);
                lemma_reaches_grows(placed, game@);
                assert(start.next_line(placed) == set);
                assert(start.next_line(game@) == set);
                assert(is_noted(noted, (set, point)));
                let info = choose|info: MoveInfo| #[trigger]
                    noted.contains(info) && (info.1, info.2) == (set, point);
                assert(noted.contains(info) && start.next_line(game@) == info.1);
            }
            return true;
        } else {
            game.remove_set(set, point);
        }
        k += 1;
    }
    proof {
        if careful {
            assert forall|info: MoveInfo| #[trigger] noted.contains(info) implies !start.place(
                info.1,
                info.2,
            ).winnable(target) by {
                let j = choose|j: int| 0 <= j < order@.len() && order@[j] == (info.1, info.2);
                assert(!start.place(order@[j].0, order@[j].1).winnable(target));
            }
        }
    }
    false
}

/// Searches from a board with at least one line placed: tries every line
/// through every point of the board that still has a free role, and
/// explores the candidates that this records.
fn branch<MoveSet, F1, F2, F3, F4, F5>(
    gamestates: &mut Vec<Vec<MoveSet>>,
    game: &mut Game,
    method: &Method<F1, F2, F3, F4, F5>,
    target: usize,
) -> (found: bool) where
    F1: Fn(&MoveSet, &Vec<Line>) -> bool,
    F2: Fn(&mut Vec<Vec<MoveSet>>, &Vec<Line>),
    F3: Fn(&mut Candidates, usize, Line, Point),
    F4: Fn(&MoveInfo, &MoveInfo) -> Ordering,
    F5: Fn(Vec<MoveInfo>) -> Vec<(Line, Point)>,

    requires
        method.usable::<MoveSet>(),
        forall|all: &mut Vec<Vec<MoveSet>>, live: &Vec<Line>, r: ()| #[trigger]
            call_ensures(method.store_new_set, (all, live), r) ==> stored_at(
                method.set_comparison,
                all@,
                final(all)@,
                live@,
            ),
        forall|acc: &mut Candidates, n: usize, line: Line, p: Point, r: ()| #[trigger]
            call_ensures(method.store_move_info, (acc, n, line, p), r) ==> recorded(
                acc@,
                final(acc)@,
                n,
                line,
                p,
            ),
        old(game)@.room(target),
        old(game)@.lines.len() < target,
        old(gamestates)@.len() >= target,
    ensures
        extends(old(gamestates)@, final(gamestates)@),
        same_up_to(old(gamestates)@, final(gamestates)@, old(game)@.lines.len()),
        forall|d: int, k: int| #[trigger]
            is_new(old(gamestates)@, final(gamestates)@, d, k) ==> exists|
                all: &mut Vec<Vec<MoveSet>>,
                live: &Vec<Line>,
            |
                #![trigger call_ensures(method.store_new_set, (all, live), ())]
                call_ensures(method.store_new_set, (all, live), ()) && old(game)@.comes_to(live@)
                    && live@.len() == d + 1 && final(all)@[d]@.last() == final(gamestates)@[d]@[k],
        old(game)@.reaches(final(game)@),
        found ==> final(game)@.lines.len() >= target && final(game)@.lines.len() > old(
            game,
        )@.lines.len(),
        !found ==> final(game)@ == old(game)@,
        found ==> final(game)@.lines.len() == target,
        !found && Board::initial().reaches(old(game)@) ==> forall|line: Line| #[trigger]
            old(game)@.legal(line) ==> known(
                method.set_comparison,
                final(gamestates)@,
                old(game)@,
                line,
            ),
        !found && Board::initial().reaches(old(game)@) && dead(
            method.set_comparison,
            old(gamestates)@,
            old(game)@.lines.len(),
            target,
        ) ==> !old(game)@.winnable(target) && dead(
            method.set_comparison,
            final(gamestates)@,
            old(game)@.lines.len(),
            target,
        ),
    decreases target - old(game)@.lines.len(), 1int,
{
    let ghost start = game@;
    let ghost careful = Board::initial().reaches(start) && dead(
        method.set_comparison,
        gamestates@,
        start.lines.len(),
        target,
    );
    let mut possible_moves = Candidates::with_capacity(target);
    let items = game.points();
    proof {
        if careful {
            lemma_dead_is_pending(
                method.set_comparison,
                gamestates@,
                start,
                possible_moves@,
                target,
            );
        }
    }
    let mut i: usize = 0;
    while i < items.len()
        invariant
            i <= items.len(),
            game@ == start,
            start == old(game)@,
            start.room(target),
            start.lines.len() < target,
            extends(old(gamestates)@, gamestates@),
            same_but_next_row(old(gamestates)@, gamestates@, start),
            forall|d: int, k: int| #[trigger]
                is_new(old(gamestates)@, gamestates@, d, k) ==> exists|
                    all: &mut Vec<Vec<MoveSet>>,
                    live: &Vec<Line>,
                |
                    #![trigger call_ensures(method.store_new_set, (all, live), ())]
                    call_ensures(method.store_new_set, (all, live), ()) && start.comes_to(live@)
                        && live@.len() == d + 1 && final(all)@[d]@.last() == gamestates@[d]@[k],
            gamestates@.len() >= target,
            method.usable::<MoveSet>(),
            forall|all: &mut Vec<Vec<MoveSet>>, live: &Vec<Line>, r: ()| #[trigger]
                call_ensures(method.store_new_set, (all, live), r) ==> stored_at(
                    method.set_comparison,
                    all@,
                    final(all)@,
                    live@,
                ),
            forall|acc: &mut Candidates, n: usize, line: Line, p: Point, r: ()| #[trigger]
                call_ensures(method.store_move_info, (acc, n, line, p), r) ==> recorded(
                    acc@,
                    final(acc)@,
                    n,
                    line,
                    p,
                ),
            forall|j: int|
                0 <= j < items@.len() ==> start.points.contains_pair(
                    (#[trigger] items@[j]).0,
                    items@[j].1,
                ),
            forall|info: MoveInfo| #[trigger]
                possible_moves@.contains(info) ==> estimated(start, info),
            careful ==> Board::initial().reaches(start) && ahead(
                method.set_comparison,
                gamestates@,
                start,
                possible_moves@,
                target,
            ),
            Board::initial().reaches(start) ==> forall|line: Line, j: int, at: int|
                0 <= j < i && 0 <= at < 5 && start.legal(line) && #[trigger] start.free_at(
                    line,
                    at,
                ) && line.point_at(at) == (#[trigger] items@[j]).0 ==> known(
                    method.set_comparison,
                    gamestates@,
                    start,
                    line,
                ),
            careful ==> forall|line: Line, p: Point, j: int, at: int|
                0 <= j < i && 0 <= at < 5 && start.creates(line, p) && #[trigger] start.free_at(
                    line,
                    at,
                ) && line.point_at(at) == (#[trigger] items@[j]).0 ==> settled(
                    start,
                    possible_moves@,
                    #[trigger] start.place(line, p),
                    target,
                ),
        decreases items.len() - i,
    {
        let (point, flags) = items[i];
        let ghost earlier = possible_moves@;
        let ghost before = gamestates@;
        if flags != 255 {
            assert(start.points.contains_key(point));
            let lines = candidates_at(point, flags);
            let ghost table = gamestates@;
            probe_all(
                gamestates,
                game,
                &lines,
                &mut possible_moves,
                &method.set_comparison,
                &method.store_new_set,
                &method.store_move_info,
                Ghost(target),
            );
            proof {
                lemma_extends_transitive(old(gamestates)@, table, gamestates@);
            }
        }
        proof {
            if Board::initial().reaches(start) {
                assert forall|line: Line, j: int, at: int|
                    0 <= j < i + 1 && 0 <= at < 5 && start.legal(line) && #[trigger] start.free_at(
                        line,
                        at,
                    ) && line.point_at(at) == (#[trigger] items@[j]).0 implies known(
                    method.set_comparison,
                    gamestates@,
                    start,
                    line,
                ) by {
                    if j < i {
                        lemma_known_kept(method.set_comparison, before, gamestates@, start, line);
                    } else {
                        lemma_free_role_in_range(line.direction, flags, at);
                    }
                }
            }
            if careful {
                assert forall|line: Line, p: Point, j: int, at: int|
                    0 <= j < i + 1 && 0 <= at < 5 && start.creates(line, p)
                        && #[trigger] start.free_at(line, at) && line.point_at(at)
                        == (#[trigger] items@[j]).0 implies settled(
                    start,
                    possible_moves@,
                    #[trigger] start.place(line, p),
                    target,
                ) by {
                    if j < i {
                        lemma_settled_grows(
                            start,
                            earlier,
                            possible_moves@,
                            start.place(line, p),
                            target,
                        );
                    } else {
                        lemma_free_role_in_range(line.direction, flags, at);
                    }
                }
            }
        }
        i += 1;
    }
    proof {
        if Board::initial().reaches(start) {
            assert forall|line: Line| #[trigger] start.legal(line) implies known(
                method.set_comparison,
                gamestates@,
                start,
                line,
            ) by {
                let p = choose|p: Point| start.creates(line, p);
                lemma_settled_by_a_pivot(start, line, p);
                let at = choose|at: int|
                    0 <= at < 5 && start.free_at(line, at) && line.point_at(at) != p;
                let q = line.point_at(at);
                assert(items@.contains((q, start.points[q])));
                let j = choose|j: int| 0 <= j < items@.len() && items@[j] == (q, start.points[q]);
                assert(line.point_at(at) == items@[j].0);
            }
        }
        if careful {
            assert forall|line: Line, p: Point| start.creates(line, p) implies settled(
                start,
                possible_moves@,
                #[trigger] start.place(line, p),
                target,
            ) by {
                lemma_settled_by_a_pivot(start, line, p);
                let at = choose|at: int|
                    0 <= at < 5 && start.free_at(line, at) && line.point_at(at) != p;
                let q = line.point_at(at);
                assert(items@.contains((q, start.points[q])));
                let j = choose|j: int| 0 <= j < items@.len() && items@[j] == (q, start.points[q]);
                assert(line.point_at(at) == items@[j].0);
            }
        }
    }
    let ghost table = gamestates@;
    let ghost noted = possible_moves@;
    let found = explore(gamestates, game, method, possible_moves, target);
    proof {
        lemma_extends_transitive(old(gamestates)@, table, gamestates@);
        if Board::initial().reaches(start) && !found {
            assert forall|line: Line| #[trigger] start.legal(line) implies known(
                method.set_comparison,
                gamestates@,
                start,
                line,
            ) by {
                lemma_known_kept(method.set_comparison, table, gamestates@, start, line);
            }
        }
        if careful && !found {
            assert(next_row(gamestates@, start) == next_row(table, start));
            lemma_pending_is_dead(method.set_comparison, gamestates@, start, noted, target);
            lemma_all_moves_lost(start, noted, target);
        }
    }
    found
}

/// The table holds no configuration yet that has one line more than the
/// board.
pub open spec fn first_of_its_length<MoveSet>(table: Seq<Vec<MoveSet>>, board: Board) -> bool {
    next_row(table, board).len() == 0
}

/// What a search from the board `game` through `point` for the score
/// `target` leaves behind: the board `result` and the table `after`, which
/// was `before`, and in which `f` recognises configurations.
///
/// - The table has only grown, and not in its rows for configurations with
///   no more lines than `game`.
/// - The board comes from `game` by legal moves; it has reached the target,
///   or it is `game` as it was; if it is not, its first new line covers
///   `point`, and it has exactly `target` lines where `game` was below the
///   target: the search stops at the first move that reaches the target.
/// - If no board that comes from `game` by legal moves reaches the target,
///   the board is `game` as it was.
/// - If a single move is enough, some legal move covers `point`, and the
///   table had no configuration of that length, the board has one line more
///   than `game`.
/// - If `game` is a game from the starting cross and comes back as it was,
///   `f` finds in the table the configuration after every legal move
///   through `point`: none was passed over.
/// - If `game` is below the target and is a game from the starting cross,
///   and no board recognised in the table could reach the target, then a
///   board that is `game` as it was tells that no legal move through
///   `point` leads to a board that can reach the target; and still no board
///   recognised in the table can reach it.
pub open spec fn searched<MoveSet, F1: Fn(&MoveSet, &Vec<Line>) -> bool>(
    f: F1,
    before: Seq<Vec<MoveSet>>,
    after: Seq<Vec<MoveSet>>,
    game: Board,
    point: Point,
    target: usize,
    result: Board,
) -> bool {
    &&& extends(before, after)
    &&& same_up_to(before, after, game.lines.len())
    &&& game.reaches(result)
    &&& result == game || (result.lines.len() >= target && result.lines.len() > game.lines.len())
    &&& result != game && game.lines.len() < target ==> result.lines.len() == target
    &&& result != game ==> game.next_line(result).covers(point)
    &&& (forall|later: Board| #[trigger] game.reaches(later) ==> later.lines.len() < target)
        ==> result == game
    &&& game.lines.len() + 1 >= target && first_of_its_length(before, game) && (exists|line: Line|
        game.legal(line) && line.covers(point)) ==> result.lines.len() == game.lines.len() + 1
    &&& result == game && Board::initial().reaches(game) ==> forall|line: Line| #[trigger]
        game.legal(line) && line.covers(point) ==> known(f, after, game, line)
    &&& result == game && game.lines.len() < target && Board::initial().reaches(game) && dead(
        f,
        before,
        game.lines.len(),
        target,
    ) ==> game.lost_through(point, target) && dead(f, after, game.lines.len(), target)
}

/// Searches from `game` for a board with at least `target` lines, trying
/// first the lines through `point` only.
///
/// Every line through `point` that is a legal move and that the strategy
/// does not recognise in `gamestates` is stored there and recorded with the
/// number of moves that it leaves open. The recorded moves are ranked and
/// tried in the order that the strategy gives. The search is over as soon
/// as the score reaches `target`: the board returned is then the board
/// reached. If every candidate fails, the board returned is `game` as it
/// was.
///
/// Which board is found depends on the order in which the hash tables hand
/// out their elements. Whatever that order, the board returned comes from
/// `game` by legal moves, its first new line passes through `point`, and it
/// has either reached the target or not changed. Every configuration that
/// the table has gained was stored by the strategy for the lines of a board
/// that comes from `game`, in the row of their number. The search gives up only
/// where nothing is to be found: if `game` is a game from the starting
/// cross, and the table recognises no board that can still reach the
/// target, then a board that comes back unchanged has no legal move through
/// `point` from which the target can be reached.
pub fn base<MoveSet, F1, F2, F3, F4, F5>(
    gamestates: &mut Vec<Vec<MoveSet>>,
    game: Game,
    point: Point,
    method: Method<F1, F2, F3, F4, F5>,
    target: usize,
) -> (result: Game) where
    F1: Fn(&MoveSet, &Vec<Line>) -> bool,
    F2: Fn(&mut Vec<Vec<MoveSet>>, &Vec<Line>),
    F3: Fn(&mut Candidates, usize, Line, Point),
    F4: Fn(&MoveInfo, &MoveInfo) -> Ordering,
    F5: Fn(Vec<MoveInfo>) -> Vec<(Line, Point)>,

    requires
        method.usable::<MoveSet>(),
        forall|all: &mut Vec<Vec<MoveSet>>, live: &Vec<Line>, r: ()| #[trigger]
            call_ensures(method.store_new_set, (all, live), r) ==> stored_at(
                method.set_comparison,
                all@,
                final(all)@,
                live@,
            ),
        forall|acc: &mut Candidates, n: usize, line: Line, p: Point, r: ()| #[trigger]
            call_ensures(method.store_move_info, (acc, n, line, p), r) ==> recorded(
                acc@,
                final(acc)@,
                n,
                line,
                p,
            ),
        game@.points.contains_key(point),
        game@.room(target),
        old(gamestates)@.len() >= target,
        old(gamestates)@.len() > game@.lines.len(),
    ensures
        searched(
            method.set_comparison,
            old(gamestates)@,
            final(gamestates)@,
            game@,
            point,
            target,
            result@,
        ),
        forall|d: int, k: int| #[trigger]
            is_new(old(gamestates)@, final(gamestates)@, d, k) ==> exists|
                all: &mut Vec<Vec<MoveSet>>,
                live: &Vec<Line>,
            |
                #![trigger call_ensures(method.store_new_set, (all, live), ())]
                call_ensures(method.store_new_set, (all, live), ()) && game@.comes_to(live@)
                    && live@.len() == d + 1 && final(all)@[d]@.last() == final(gamestates)@[d]@[k],
{
    base_with(gamestates, game, point, &method, target)
}


/// `base` for a strategy that is borrowed.
pub fn base_with<MoveSet, F1, F2, F3, F4, F5>(
    gamestates: &mut Vec<Vec<MoveSet>>,
    game: Game,
    point: Point,
    method: &Method<F1, F2, F3, F4, F5>,
    target: usize,
) -> (result: Game) where
    F1: Fn(&MoveSet, &Vec<Line>) -> bool,
    F2: Fn(&mut Vec<Vec<MoveSet>>, &Vec<Line>),
    F3: Fn(&mut Candidates, usize, Line, Point),
    F4: Fn(&MoveInfo, &MoveInfo) -> Ordering,
    F5: Fn(Vec<MoveInfo>) -> Vec<(Line, Point)>,

    requires
        method.usable::<MoveSet>(),
        forall|all: &mut Vec<Vec<MoveSet>>, live: &Vec<Line>, r: ()| #[trigger]
            call_ensures(method.store_new_set, (all, live), r) ==> stored_at(
                method.set_comparison,
                all@,
                final(all)@,
                live@,
            ),
        forall|acc: &mut Candidates, n: usize, line: Line, p: Point, r: ()| #[trigger]
            call_ensures(method.store_move_info, (acc, n, line, p), r) ==> recorded(
                acc@,
                final(acc)@,
                n,
                line,
                p,
            ),
        game@.points.contains_key(point),
        game@.room(target),
        old(gamestates)@.len() >= target,
        old(gamestates)@.len() > game@.lines.len(),
    ensures
        searched(
            method.set_comparison,
            old(gamestates)@,
            final(gamestates)@,
            game@,
            point,
            target,
            result@,
        ),
        forall|d: int, k: int| #[trigger]
            is_new(old(gamestates)@, final(gamestates)@, d, k) ==> exists|
                all: &mut Vec<Vec<MoveSet>>,
                live: &Vec<Line>,
            |
                #![trigger call_ensures(method.store_new_set, (all, live), ())]
                call_ensures(method.store_new_set, (all, live), ()) && game@.comes_to(live@)
                    && live@.len() == d + 1 && final(all)@[d]@.last() == final(gamestates)@[d]@[k],
{
    let mut game = game;
    let ghost start = game@;
    let ghost careful = start.lines.len() < target && Board::initial().reaches(start) && dead(
        method.set_comparison,
        gamestates@,
        start.lines.len(),
        target,
    );
    let mut possible_moves = Candidates::with_capacity(target);
    let flags = game.flags(point).unwrap();
    let lines = candidates_at(point, flags);
    proof {
        if exists|line: Line| start.legal(line) && line.covers(point) {
            let line = choose|line: Line| start.legal(line) && line.covers(point);
            lemma_covered_is_candidate(start, line, point);
            let i = choose|i: int|
                0 <= i < 5 && line.point_at(i) == point && start.free_at(line, i);
            assert(lines@.contains(line));
            let k = choose|k: int| 0 <= k < lines@.len() && lines@[k] == line;
            assert(start.legal(lines@[k]));
        }
        if careful {
            lemma_dead_is_pending(
                method.set_comparison,
                gamestates@,
                start,
                possible_moves@,
                target,
            );
        }
    }
    let ghost first = gamestates@;
    probe_all(
        gamestates,
        &mut game,
        &lines,
        &mut possible_moves,
        &method.set_comparison,
        &method.store_new_set,
        &method.store_move_info,
        Ghost(target),
    );
    let ghost table = gamestates@;
    let ghost noted = possible_moves@;
    let found = explore(gamestates, &mut game, method, possible_moves, target);
    proof {
        lemma_extends_transitive(old(gamestates)@, table, gamestates@);
        lemma_reaches_grows(start, game@);
        if game@ != start {
            let info = choose|info: MoveInfo|
                noted.contains(info) && start.next_line(game@) == info.1;
            assert(lines@.contains(info.1));
            let k = choose|k: int| 0 <= k < lines@.len() && lines@[k] == info.1;
            assert(lines@[k].covers(point));
        }
        if Board::initial().reaches(start) && !found {
            assert forall|line: Line| #[trigger]
                start.legal(line) && line.covers(point) implies known(
                method.set_comparison,
                gamestates@,
                start,
                line,
            ) by {
                lemma_covered_is_candidate(start, line, point);
                let i = choose|i: int|
                    0 <= i < 5 && line.point_at(i) == point && start.free_at(line, i);
                assert(lines@.contains(line));
                let k = choose|k: int| 0 <= k < lines@.len() && lines@[k] == line;
                assert(known(method.set_comparison, table, start, lines@[k]));
                lemma_known_kept(method.set_comparison, table, gamestates@, start, line);
            }
        }
        if careful && !found {
            assert(next_row(gamestates@, start) == next_row(table, start));
            lemma_pending_is_dead(method.set_comparison, gamestates@, start, noted, target);
            assert forall|line: Line, p: Point|
                start.creates(line, p) && line.covers(point) implies !(#[trigger] start.place(
                line,
                p,
            )).winnable(target) by {
                assert(start.legal(line));
                lemma_covered_is_candidate(start, line, point);
                let i = choose|i: int|
                    0 <= i < 5 && line.point_at(i) == point && start.free_at(line, i);
                assert(lines@.contains(line));
                let k = choose|k: int| 0 <= k < lines@.len() && lines@[k] == line;
                assert(settled(start, noted, start.place(lines@[k], p), target));
                lemma_settled_is_lost(start, noted, start.place(line, p), target);
            }
        }
    }
    game
}

/// Every legal move has a position on a point of the board, with a free
/// role, other than the point it creates.
proof fn lemma_settled_by_a_pivot(board: Board, line: Line, p: Point)
    requires
        board.creates(line, p),
    ensures
        exists|at: int| 0 <= at < 5 && board.free_at(line, at) && line.point_at(at) != p,
{
    lemma_one_new_point(board, line, p);
    let k = choose|k: int| 0 <= k < 5 && line.point_at(k) == p;
    let at = if k == 0 {
        1int
    } else {
        0int
    };
    lemma_line_points(line);
    assert(board.free_at(line, at) && line.point_at(at) != p);
}

/// A board below the target from which every legal move is settled, and
/// from which no noted move leads to a board that can reach the target,
/// cannot reach the target.
proof fn lemma_all_moves_lost(board: Board, noted: Set<MoveInfo>, target: usize)
    requires
        board.lines.len() < target,
        forall|line: Line, p: Point|
            board.creates(line, p) ==> settled(
                board,
                noted,
                #[trigger] board.place(line, p),
                target,
            ),
        forall|info: MoveInfo| #[trigger]
            noted.contains(info) ==> !board.place(info.1, info.2).winnable(target),
    ensures
        !board.winnable(target),
{
    lemma_winnable_by_a_move(board, target);
    if board.winnable(target) {
        let (line, p) = choose|line: Line, p: Point|
            board.creates(line, p) && #[trigger] board.place(line, p).winnable(target);
        lemma_settled_is_lost(board, noted, board.place(line, p), target);
    }
}

/// `base` with the strategy that keeps configurations as sets of lines,
/// ranks candidates by the quadrant of their anchor and then by their
/// estimate, and tries the lowest rank first.
pub fn base_highest_set(
    gamestates: &mut Vec<Vec<LineSet>>,
    game: Game,
    point: Point,
    target: usize,
) -> (result: Game)
    requires
        game@.points.contains_key(point),
        game@.room(target),
        old(gamestates)@.len() >= target,
        old(gamestates)@.len() > game@.lines.len(),
    ensures
        searched(v_hs_eq, old(gamestates)@, final(gamestates)@, game@, point, target, result@),
        forall|d: int, k: int| #[trigger]
            is_new(old(gamestates)@, final(gamestates)@, d, k) ==> set_of_a_game(
                final(gamestates)@[d]@[k]@,
                game@,
                d,
            ),
{
    let method = Method::new(v_hs_eq, store_hs, store_npm_s_p, cmp_quad_hpm, spm_intoiter);
    proof {
        lemma_rankings();
    }
    base(gamestates, game, point, method, target)
}

/// The set `entry` holds the lines of a board with `d + 1` lines that comes
/// from `game` by legal moves.
pub open spec fn set_of_a_game(entry: Set<Line>, game: Board, d: int) -> bool {
    exists|lines: Seq<Line>| #[trigger]
        game.comes_to(lines) && lines.len() == d + 1 && entry == lines.to_set()
}

/// The list `entry` holds the lines of a board with `d + 1` lines that
/// comes from `game` by legal moves, each once, in ascending order of their
/// packed values.
pub open spec fn sorted_list_of_a_game(entry: Seq<Line>, game: Board, d: int) -> bool {
    &&& entry.len() == d + 1
    &&& sorted_by(entry, packed_leq())
    &&& exists|lines: Seq<Line>| #[trigger]
        game.comes_to(lines) && lines.to_multiset() == entry.to_multiset()
}

/// `base` with the strategy that keeps configurations as lists of lines in
/// ascending order of their packed values, ranks candidates by the quadrant
/// of their anchor and then by their estimate, and tries the lowest rank
/// first.
pub fn base_highest_set_vec(
    gamestates: &mut Vec<Vec<Vec<Line>>>,
    game: Game,
    point: Point,
    target: usize,
) -> (result: Game)
    requires
        game@.points.contains_key(point),
        game@.room(target),
        old(gamestates)@.len() >= target,
        old(gamestates)@.len() > game@.lines.len(),
    ensures
        searched(v_sorted_eq, old(gamestates)@, final(gamestates)@, game@, point, target, result@),
        forall|d: int, k: int| #[trigger]
            is_new(old(gamestates)@, final(gamestates)@, d, k) ==> sorted_list_of_a_game(
                final(gamestates)@[d]@[k]@,
                game@,
                d,
            ),
{
    let ghost start = game@;
    let method = Method::new(v_sorted_eq, store_sorted, store_npm_s_p, cmp_quad_hpm, spm_intoiter);
    proof {
        lemma_rankings();
    }
    let result = base(gamestates, game, point, method, target);
    proof {
        assert forall|d: int, k: int| #[trigger]
            is_new(old(gamestates)@, gamestates@, d, k) implies sorted_list_of_a_game(
            gamestates@[d]@[k]@,
            start,
            d,
        ) by {
            let entry = gamestates@[d]@[k]@;
            assert(exists|lines: Seq<Line>| #[trigger]
                start.comes_to(lines) && lines.len() == d + 1 && lines.to_multiset()
                    == entry.to_multiset());
            let lines = choose|lines: Seq<Line>| #[trigger]
                start.comes_to(lines) && lines.len() == d + 1 && lines.to_multiset()
                    == entry.to_multiset();
            lines.to_multiset_ensures();
            entry.to_multiset_ensures();
        }
    }
    result
}

} // verus!
