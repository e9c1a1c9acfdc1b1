//! The search strategy.
//!
//! A strategy is a bundle of five functions: how a configuration seen before
//! is recognised, how a configuration is stored, how a candidate move is
//! recorded, how candidates are ranked, and in which order the ranked
//! candidates are tried. This module holds the bundle, what the search asks
//! of its functions, and the functions to choose from.

use crate::board::{
    lemma_flags_sum_up_lines, lemma_lines_are_distinct, lemma_same_lines_alike, Board,
};
use crate::hashed::{Candidates, LineSet, MoveInfo};
use crate::memo::{
    accepts, compares_all, grown_at, keeps_apart, recognises, recorded, stored_at,
};
use crate::line::{lemma_line_packed_injective, Line};
use crate::point::Point;
use std::cmp::Ordering;
use vstd::prelude::*;
use vstd::relations::{sorted_by, total_ordering};
use vstd::seq_lib::lemma_sorted_unique;
use vstd::set_lib::lemma_subset_equality;

verus! {

/// How two integers compare.
pub open spec fn order_of(a: int, b: int) -> Ordering {
    if a < b {
        Ordering::Less
    } else if a == b {
        Ordering::Equal
    } else {
        Ordering::Greater
    }
}

/// The rank of a candidate when candidates are ordered by their estimate.
pub open spec fn hpm_key(info: MoveInfo) -> int {
    info.0 as int
}

/// The rank of a candidate when candidates are ordered by the horizontal
/// coordinate of the new point first and by their estimate second.
pub open spec fn mnx_hpm_key(info: MoveInfo) -> int {
    info.2.x * 0x1_0000_0000_0000_0000 + info.0
}

/// The rank of a candidate when candidates are ordered by the quadrant of
/// the anchor of their line first and by their estimate second.
pub open spec fn quad_hpm_key(info: MoveInfo) -> int {
    info.1.point_at(0).quadrant_value() * 0x1_0000_0000_0000_0000 + info.0
}

/// Orders candidates by their estimate.
pub fn cmp_hpm(v1: &MoveInfo, v2: &MoveInfo) -> (o: Ordering)
    ensures
        o == order_of(hpm_key(*v1), hpm_key(*v2)),
{
    v1.0.cmp(&v2.0)
}

/// Orders candidates by the horizontal coordinate of the new point, and
/// those with the same coordinate by their estimate.
pub fn cmp_mnx_hpm(v1: &MoveInfo, v2: &MoveInfo) -> (o: Ordering)
    ensures
        o == order_of(mnx_hpm_key(*v1), mnx_hpm_key(*v2)),
{
    match v1.2.x.cmp(&v2.2.x) {
        Ordering::Equal => v1.0.cmp(&v2.0),
        Ordering::Less => Ordering::Less,
        Ordering::Greater => Ordering::Greater,
    }
}

/// Orders candidates by the quadrant that holds the anchor of their line,
/// and those in the same quadrant by their estimate.
pub fn cmp_quad_hpm(v1: &MoveInfo, v2: &MoveInfo) -> (o: Ordering)
    ensures
        o == order_of(quad_hpm_key(*v1), quad_hpm_key(*v2)),
{
    match v1.1.start_point().quadrant().cmp(&v2.1.start_point().quadrant()) {
        Ordering::Equal => v1.0.cmp(&v2.0),
        Ordering::Less => Ordering::Less,
        Ordering::Greater => Ordering::Greater,
    }
}

/// A stored configuration in the form of a set stands for the lines of
/// `live` exactly if it has as many elements as `live` has entries and
/// holds every one of them.
pub open spec fn same_as_set(stored: Set<Line>, live: Seq<Line>) -> bool {
    &&& live.len() == stored.len()
    &&& forall|i: int| 0 <= i < live.len() ==> stored.contains(#[trigger] live[i])
}

/// Tells whether the set `hs` stands for the configuration `v`.
pub fn v_hs_eq(hs: &LineSet, v: &Vec<Line>) -> (same: bool)
    ensures
        same == same_as_set(hs@, v@),
{
    if v.len() == hs.len() {
        let mut i: usize = 0;
        while i < v.len()
            invariant
                i <= v.len(),
                forall|j: int| 0 <= j < i ==> hs@.contains(#[trigger] v@[j]),
            decreases v.len() - i,
        {
            if !hs.contains(&v[i]) {
                return false;
            }
            i += 1;
        }
        true
    } else {
        false
    }
}

/// Tells whether two configurations hold the same lines in the same order.
pub fn v_eq(v1: &Vec<Line>, v2: &Vec<Line>) -> (same: bool)
    ensures
        same == (v1@ == v2@),
{
    if v1.len() == v2.len() {
        let mut i: usize = 0;
        while i < v1.len()
            invariant
                i <= v1.len(),
                v1.len() == v2.len(),
                forall|j: int| 0 <= j < i ==> v1@[j] == v2@[j],
            decreases v1.len() - i,
        {
            if v1[i] != v2[i] {
                return false;
            }
            i += 1;
        }
        assert(v1@ =~= v2@);
        true
    } else {
        false
    }
}

/// Stores the configuration `new_gamestate` as a set of lines, in the row
/// of the table that belongs to its length.
pub fn store_hs(all_gamestates: &mut Vec<Vec<LineSet>>, new_gamestate: &Vec<Line>)
    requires
        0 < new_gamestate@.len() <= old(all_gamestates)@.len(),
    ensures
        grown_at(old(all_gamestates)@, final(all_gamestates)@, new_gamestate@.len() - 1),
        final(all_gamestates)@[new_gamestate@.len() - 1]@.last()@ == new_gamestate@.to_set(),
        stored_at(v_hs_eq, old(all_gamestates)@, final(all_gamestates)@, new_gamestate@),
{
    let mut store = LineSet::with_capacity(new_gamestate.len());
    let mut i: usize = 0;
    while i < new_gamestate.len()
        invariant
            i <= new_gamestate.len(),
            store@ == new_gamestate@.take(i as int).to_set(),
        decreases new_gamestate.len() - i,
    {
        store.insert(new_gamestate[i]);
        proof {
            let done = new_gamestate@.take(i as int);
            let more = new_gamestate@.take(i + 1);
            assert(more =~= done.push(new_gamestate@[i as int]));
            assert(more.to_set() =~= done.to_set().insert(new_gamestate@[i as int])) by {
                assert forall|l: Line| more.to_set().contains(l) implies done.to_set().insert(
                    new_gamestate@[i as int],
                ).contains(l) by {
                    let k = choose|k: int| 0 <= k < more.len() && more[k] == l;
                    if k < i {
                        assert(done[k] == l);
                    }
                }
                assert forall|l: Line|
                    done.to_set().insert(new_gamestate@[i as int]).contains(
                        l,
                    ) implies more.to_set().contains(l) by {
                    if l == new_gamestate@[i as int] {
                        assert(more[i as int] == l);
                    } else {
                        let k = choose|k: int| 0 <= k < done.len() && done[k] == l;
                        assert(more[k] == l);
                    }
                }
            }
        }
        i += 1;
    }
    assert(new_gamestate@.take(new_gamestate@.len() as int) =~= new_gamestate@);
    let row = new_gamestate.len() - 1;
    proof {
        lemma_set_keeps_apart(store, new_gamestate@);
    }
    all_gamestates[row].push(store);
}

/// The set of the lines of a game is recognised only in games with the same
/// lines: a game has no line twice, so a list of as many lines as the set
/// has, all of them in the set, holds every line of the set.
proof fn lemma_set_keeps_apart(entry: LineSet, live: Seq<Line>)
    requires
        entry@ == live.to_set(),
    ensures
        keeps_apart(v_hs_eq, entry, live),
        Board::initial().reaches(Board::of_lines(live)) ==> accepts(v_hs_eq, entry, live),
{
    let own = Board::of_lines(live);
    if Board::initial().reaches(own) {
        lemma_lines_are_distinct(own);
        live.unique_seq_to_set();
        assert(same_as_set(entry@, live));
        assert forall|other: Board|
            Board::initial().reaches(other) && #[trigger] recognises(
                v_hs_eq,
                entry,
                other.lines,
            ) implies other.alike(own) by {
            let v = choose|v: Vec<Line>|
                v@ == other.lines && #[trigger] call_ensures(v_hs_eq, (&entry, &v), true);
            assert(same_as_set(entry@, other.lines));
            lemma_lines_are_distinct(other);
            lemma_lines_are_distinct(own);
            other.lines.unique_seq_to_set();
            live.unique_seq_to_set();
            assert(other.lines.to_set().subset_of(live.to_set())) by {
                assert forall|l: Line| other.lines.to_set().contains(l) implies live.to_set().contains(
                    l,
                ) by {
                    let i = choose|i: int| 0 <= i < other.lines.len() && other.lines[i] == l;
                    assert(entry@.contains(other.lines[i]));
                }
            }
            lemma_subset_equality(other.lines.to_set(), live.to_set());
            lemma_same_lines_alike(other, own);
        }
    }
}

/// Stores the configuration `new_gamestate` as it is, in the row of the
/// table that belongs to its length.
pub fn store_v(all_gamestates: &mut Vec<Vec<Vec<Line>>>, new_gamestate: &Vec<Line>)
    requires
        0 < new_gamestate@.len() <= old(all_gamestates)@.len(),
    ensures
        grown_at(old(all_gamestates)@, final(all_gamestates)@, new_gamestate@.len() - 1),
        final(all_gamestates)@[new_gamestate@.len() - 1]@.last()@ == new_gamestate@,
        stored_at(v_eq, old(all_gamestates)@, final(all_gamestates)@, new_gamestate@),
{
    let copy = new_gamestate.clone();
    assert(copy@ =~= new_gamestate@);
    let row = new_gamestate.len() - 1;
    proof {
        lemma_list_keeps_apart(copy, new_gamestate@);
    }
    all_gamestates[row].push(copy);
}

/// The list of the lines of a game is recognised only in games with these
/// lines in this order.
proof fn lemma_list_keeps_apart(entry: Vec<Line>, live: Seq<Line>)
    requires
        entry@ == live,
    ensures
        keeps_apart(v_eq, entry, live),
        accepts(v_eq, entry, live),
{
    let own = Board::of_lines(live);
    assert forall|other: Board|
        Board::initial().reaches(other) && #[trigger] recognises(
            v_eq,
            entry,
            other.lines,
        ) implies other.alike(own) by {
        let v = choose|v: Vec<Line>|
            v@ == other.lines && #[trigger] call_ensures(v_eq, (&entry, &v), true);
        assert(other.lines == live);
        lemma_flags_sum_up_lines(other);
    }
}

/// Records a candidate move: the estimate, the line and the point it
/// creates.
pub fn store_npm_s_p(
    moves_info: &mut Candidates,
    num_possible_moves: usize,
    set: Line,
    point: Point,
)
    ensures
        final(moves_info)@ == old(moves_info)@.insert((num_possible_moves, set, point)),
        recorded(old(moves_info)@, final(moves_info)@, num_possible_moves, set, point),
{
    moves_info.insert((num_possible_moves, set, point));
    assert(moves_info@.contains((num_possible_moves, set, point)));
}

/// The moves of a ranked list of candidates, in the order of the list.
pub open spec fn moves_of(ranked: Seq<MoveInfo>) -> Seq<(Line, Point)> {
    Seq::new(ranked.len(), |i: int| (ranked[i].1, ranked[i].2))
}

/// The order of trial that follows the ranking: lowest rank first.
pub fn spm_intoiter(sorted_possible_moves: Vec<MoveInfo>) -> (order: Vec<(Line, Point)>)
    ensures
        order@ == moves_of(sorted_possible_moves@),
        order@.to_multiset() == moves_of(sorted_possible_moves@).to_multiset(),
{
    let mut order: Vec<(Line, Point)> = Vec::with_capacity(sorted_possible_moves.len());
    let mut i: usize = 0;
    while i < sorted_possible_moves.len()
        invariant
            i <= sorted_possible_moves.len(),
            order@.len() == i,
            forall|j: int|
                0 <= j < i ==> #[trigger] order@[j] == moves_of(sorted_possible_moves@)[j],
        decreases sorted_possible_moves.len() - i,
    {
        let (_, set, point) = sorted_possible_moves[i];
        order.push((set, point));
        i += 1;
    }
    assert(order@ =~= moves_of(sorted_possible_moves@));
    order
}

/// The order of trial that reverses the ranking: highest rank first.
pub fn spm_intoiter_rev(sorted_possible_moves: Vec<MoveInfo>) -> (order: Vec<(Line, Point)>)
    ensures
        order@ == moves_of(sorted_possible_moves@).reverse(),
        order@.to_multiset() == moves_of(sorted_possible_moves@).to_multiset(),
{
    let mut order: Vec<(Line, Point)> = Vec::with_capacity(sorted_possible_moves.len());
    let n = sorted_possible_moves.len();
    let mut i: usize = n;
    while i > 0
        invariant
            i <= n,
            n == sorted_possible_moves.len(),
            order@.len() == n - i,
            forall|j: int|
                0 <= j < n - i ==> #[trigger] order@[j] == moves_of(sorted_possible_moves@)[n - 1
                    - j],
        decreases i,
    {
        i -= 1;
        let (_, set, point) = sorted_possible_moves[i];
        order.push((set, point));
    }
    assert(order@ =~= moves_of(sorted_possible_moves@).reverse());
    proof {
        moves_of(sorted_possible_moves@).lemma_reverse_to_multiset();
    }
    order
}

/// The five functions of a strategy, fixed for the lifetime of a search.
#[derive(Clone, Copy)]
pub struct Method<F1, F2, F3, F4, F5> {
    /// Tells whether a stored configuration stands for the lines placed.
    pub set_comparison: F1,
    /// Stores the lines placed in the table of configurations.
    pub store_new_set: F2,
    /// Records a candidate move with its estimate.
    pub store_move_info: F3,
    /// Ranks two candidates.
    pub sort_move_info: F4,
    /// Turns the ranked candidates into the order of trial.
    pub move_iter: F5,
}

/// The function `f` ranks items as the integers that `key` gives them are
/// ordered, and may be called on any two items.
pub open spec fn ranks_by<T, F: Fn(&T, &T) -> Ordering>(f: F, key: spec_fn(T) -> int) -> bool {
    &&& forall|a: &T, b: &T| #[trigger] call_requires(f, (a, b))
    &&& forall|a: &T, b: &T, o: Ordering| #[trigger]
        call_ensures(f, (a, b), o) ==> o == order_of(key(*a), key(*b))
}

/// The function `f` is a ranking: it orders items by some integer rank.
pub open spec fn is_ranking<T, F: Fn(&T, &T) -> Ordering>(f: F) -> bool {
    exists|key: spec_fn(T) -> int| ranks_by(f, key)
}

/// `sort_unstable_by` of the standard library: afterwards the list holds
/// the same items as before, each as often as before, and no item stands
/// before one of lower rank, whatever the integer rank is by which
/// `compare` orders. The standard library asks that `compare` is a total
/// order.
#[verifier::external_body]
pub(crate) fn sort_by<T, F: Fn(&T, &T) -> Ordering>(list: &mut Vec<T>, compare: &F)
    requires
        is_ranking::<T, F>(*compare),
    ensures
        final(list)@.to_multiset() == old(list)@.to_multiset(),
        forall|key: spec_fn(T) -> int, i: int, j: int|
            #![trigger ranks_by(*compare, key), final(list)@[i], final(list)@[j]]
            ranks_by(*compare, key) && 0 <= i <= j < final(list)@.len() ==> key(final(list)@[i])
                <= key(final(list)@[j]),
{
    list.sort_unstable_by(compare)
}

/// The three orders of candidates that this module provides are rankings.
pub proof fn lemma_rankings()
    ensures
        is_ranking(cmp_hpm),
        is_ranking(cmp_mnx_hpm),
        is_ranking(cmp_quad_hpm),
{
    assert(ranks_by(cmp_hpm, |info: MoveInfo| hpm_key(info)));
    assert(ranks_by(cmp_mnx_hpm, |info: MoveInfo| mnx_hpm_key(info)));
    assert(ranks_by(cmp_quad_hpm, |info: MoveInfo| quad_hpm_key(info)));
}

/// The function `f` may be called on any list of candidates, and hands out
/// the moves of that list, each as often as the list holds it, in an order
/// of its choice.
pub open spec fn orders_all<F5: Fn(Vec<MoveInfo>) -> Vec<(Line, Point)>>(f: F5) -> bool {
    &&& forall|ranked: Vec<MoveInfo>| #[trigger] call_requires(f, (ranked,))
    &&& forall|ranked: Vec<MoveInfo>, order: Vec<(Line, Point)>| #[trigger]
        call_ensures(f, (ranked,), order) ==> order@.to_multiset() == moves_of(
            ranked@,
        ).to_multiset()
}

/// The function `f` may be called on any table that has a row for the
/// number of lines to store.
pub open spec fn stores_all<MoveSet, F2: Fn(&mut Vec<Vec<MoveSet>>, &Vec<Line>)>(f: F2) -> bool {
    forall|all: &mut Vec<Vec<MoveSet>>, live: &Vec<Line>|
        0 < live@.len() <= all@.len() ==> #[trigger] call_requires(f, (all, live))
}

/// The function `f` may be called on any set of candidates and any move.
pub open spec fn records_all<F3: Fn(&mut Candidates, usize, Line, Point)>(f: F3) -> bool {
    forall|acc: &mut Candidates, n: usize, line: Line, p: Point| #[trigger]
        call_requires(f, (acc, n, line, p))
}

impl<F1, F2, F3, F4, F5> Method<F1, F2, F3, F4, F5> {
    /// Bundles the five functions of a strategy.
    pub fn new(
        set_comparison: F1,
        store_new_set: F2,
        store_move_info: F3,
        sort_move_info: F4,
        move_iter: F5,
    ) -> (method: Self)
        ensures
            method.set_comparison == set_comparison,
            method.store_new_set == store_new_set,
            method.store_move_info == store_move_info,
            method.sort_move_info == sort_move_info,
            method.move_iter == move_iter,
    {
        Method { set_comparison, store_new_set, store_move_info, sort_move_info, move_iter }
    }

    /// The five functions can be called wherever the search calls them, the
    /// ranking is one, and the order of trial is an order of the ranked moves.
    pub open spec fn usable<MoveSet>(self) -> bool where
        F1: Fn(&MoveSet, &Vec<Line>) -> bool,
        F2: Fn(&mut Vec<Vec<MoveSet>>, &Vec<Line>),
        F3: Fn(&mut Candidates, usize, Line, Point),
        F4: Fn(&MoveInfo, &MoveInfo) -> Ordering,
        F5: Fn(Vec<MoveInfo>) -> Vec<(Line, Point)>,
     {
        &&& compares_all::<MoveSet, F1>(self.set_comparison)
        &&& stores_all::<MoveSet, F2>(self.store_new_set)
        &&& records_all(self.store_move_info)
        &&& is_ranking::<MoveInfo, F4>(self.sort_move_info)
        &&& orders_all(self.move_iter)
    }
}

/// The order of lines by their packed value.
pub open spec fn packed_leq() -> spec_fn(Line, Line) -> bool {
    |a: Line, b: Line| a.packed_value() <= b.packed_value()
}

/// The order of lines by their packed value is total: no two lines share a
/// packed value.
pub proof fn lemma_packed_leq_total()
    ensures
        total_ordering(packed_leq()),
{
    assert forall|x: Line, y: Line| #[trigger]
        packed_leq()(x, y) && #[trigger] packed_leq()(y, x) implies x == y by {
        lemma_line_packed_injective(x, y);
    }
}

/// Orders lines by their packed values.
pub fn cmp_packed(s1: &Line, s2: &Line) -> (o: Ordering)
    ensures
        o == order_of(s1.packed_value(), s2.packed_value()),
{
    s1.packed().cmp(&s2.packed())
}

/// The lines of `live` in ascending order of their packed values.
fn sorted_copy(live: &Vec<Line>) -> (present: Vec<Line>)
    ensures
        present@.to_multiset() == live@.to_multiset(),
        sorted_by(present@, packed_leq()),
{
    let mut present = live.clone();
    assert(present@ =~= live@);
    let ghost key = |line: Line| line.packed_value();
    proof {
        assert(ranks_by(cmp_packed, key));
    }
    sort_by(&mut present, &cmp_packed);
    proof {
        assert forall|i: int, j: int| 0 <= i < j < present@.len() implies #[trigger] packed_leq()(
            present@[i],
            present@[j],
        ) by {
            assert(key(present@[i]) <= key(present@[j]));
        }
    }
    present
}

/// Tells whether the sorted configuration `stored` holds the lines of
/// `live`, each as often as `live` holds it.
pub fn v_sorted_eq(stored: &Vec<Line>, live: &Vec<Line>) -> (same: bool)
    ensures
        same == (sorted_by(stored@, packed_leq()) && stored@.to_multiset()
            == live@.to_multiset()),
{
    let present = sorted_copy(live);
    proof {
        if sorted_by(stored@, packed_leq()) && stored@.to_multiset() == live@.to_multiset() {
            lemma_packed_leq_total();
            lemma_sorted_unique(stored@, present@, packed_leq());
        }
    }
    v_eq(&present, stored)
}

/// Stores the lines of `new_gamestate` in ascending order of their packed
/// values, in the row of the table that belongs to their number.
pub fn store_sorted(all_gamestates: &mut Vec<Vec<Vec<Line>>>, new_gamestate: &Vec<Line>)
    requires
        0 < new_gamestate@.len() <= old(all_gamestates)@.len(),
    ensures
        grown_at(old(all_gamestates)@, final(all_gamestates)@, new_gamestate@.len() - 1),
        final(all_gamestates)@[new_gamestate@.len() - 1]@.last()@.to_multiset()
            == new_gamestate@.to_multiset(),
        sorted_by(final(all_gamestates)@[new_gamestate@.len() - 1]@.last()@, packed_leq()),
        stored_at(v_sorted_eq, old(all_gamestates)@, final(all_gamestates)@, new_gamestate@),
{
    let present = sorted_copy(new_gamestate);
    let row = new_gamestate.len() - 1;
    proof {
        lemma_sorted_keeps_apart(present, new_gamestate@);
    }
    all_gamestates[row].push(present);
}

/// The sorted list of the lines of a game is recognised only in games with
/// the same lines.
proof fn lemma_sorted_keeps_apart(entry: Vec<Line>, live: Seq<Line>)
    requires
        entry@.to_multiset() == live.to_multiset(),
        sorted_by(entry@, packed_leq()),
    ensures
        keeps_apart(v_sorted_eq, entry, live),
        accepts(v_sorted_eq, entry, live),
{
    let own = Board::of_lines(live);
    if Board::initial().reaches(own) {
        assert forall|other: Board|
            Board::initial().reaches(other) && #[trigger] recognises(
                v_sorted_eq,
                entry,
                other.lines,
            ) implies other.alike(own) by {
            let v = choose|v: Vec<Line>|
                v@ == other.lines && #[trigger] call_ensures(v_sorted_eq, (&entry, &v), true);
            assert(other.lines.to_multiset() == live.to_multiset());
            other.lines.to_multiset_ensures();
            live.to_multiset_ensures();
            assert(other.lines.to_set() =~= live.to_set()) by {
                assert forall|l: Line| other.lines.to_set().contains(l) == live.to_set().contains(
                    l,
                ) by {
                    assert(other.lines.contains(l) == (other.lines.to_multiset().count(l) > 0));
                    assert(live.contains(l) == (live.to_multiset().count(l) > 0));
                }
            }
            lemma_same_lines_alike(other, own);
        }
    }
}

} // verus!
