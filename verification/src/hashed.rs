//! The hashed collections of the engine: the table of point flags, sets of
//! lines and sets of candidate moves.
//!
//! All three are kept in the hash tables of `ahash`, keyed by plain integers
//! and tuples of integers. The functions that touch the tables directly are
//! not verified: their contracts restate what `ahash` and the standard
//! library document. Everything else in this module is proved from those
//! contracts.

use crate::line::{Direction, Line};
use crate::point::Point;
use ahash::{AHashMap, AHashSet, RandomState};
use vstd::prelude::*;
use vstd::set_lib::lemma_map_size;

verus! {

/// `ahash::AHashMap`, a hash map with the hasher of `ahash`. Opaque to the
/// verifier.
#[verifier::external_type_specification]
#[verifier::external_body]
#[verifier::reject_recursive_types(K)]
#[verifier::reject_recursive_types(V)]
#[verifier::reject_recursive_types(S)]
pub struct ExAHashMap<K, V, S>(AHashMap<K, V, S>);

/// `ahash::AHashSet`, a hash set with the hasher of `ahash`. Opaque to the
/// verifier.
#[verifier::external_type_specification]
#[verifier::external_body]
#[verifier::reject_recursive_types(T)]
#[verifier::reject_recursive_types(S)]
pub struct ExAHashSet<T, S>(AHashSet<T, S>);

/// `ahash::RandomState`, the hasher factory that both collections use by
/// default. Opaque to the verifier.
#[verifier::external_type_specification]
#[verifier::external_body]
pub struct ExRandomState(RandomState);

/// Coordinates of a point, as the key of the flag table.
pub type PointKey = (i16, i16);

/// Anchor and axis of a line, as the element of a set of lines.
pub type LineKey = (i16, i16, u8);

/// A candidate move as the element of a set of candidates: the estimate, the
/// line and the new point.
pub type MoveKey = (usize, LineKey, PointKey);

/// A candidate move: the branching estimate after the move, the line to
/// place and the point it creates.
pub type MoveInfo = (usize, Line, Point);

/// The hash table that maps the points of a board to their flags.
pub type FlagTable = AHashMap<PointKey, u8>;

/// The entries that a flag table holds.
pub uninterp spec fn flag_entries(table: FlagTable) -> Map<PointKey, u8>;

/// The elements that a set of line keys holds.
pub uninterp spec fn line_keys(set: AHashSet<LineKey>) -> Set<LineKey>;

/// The elements that a set of move keys holds.
pub uninterp spec fn move_keys(set: AHashSet<MoveKey>) -> Set<MoveKey>;

/// `AHashMap::with_capacity`: a new table without entries.
#[verifier::external_body]
pub(crate) fn flags_with_capacity(capacity: usize) -> (table: FlagTable)
    ensures
        flag_entries(table) == (Map::<PointKey, u8>::empty()),
{
    AHashMap::with_capacity(capacity)
}

/// `AHashMap::get`: the value stored under `key`, if there is one.
#[verifier::external_body]
pub(crate) fn flags_get(table: &FlagTable, key: PointKey) -> (value: Option<u8>)
    ensures
        value == (if flag_entries(*table).contains_key(key) {
            Some(flag_entries(*table)[key])
        } else {
            None
        }),
{
    table.get(&key).copied()
}

/// `AHashMap::insert`: afterwards `key` maps to `value`, whether or not it
/// was present before; no other entry changes.
#[verifier::external_body]
pub(crate) fn flags_insert(table: &mut FlagTable, key: PointKey, value: u8)
    ensures
        flag_entries(*final(table)) == flag_entries(*old(table)).insert(key, value),
{
    table.insert(key, value);
}

/// `AHashMap::remove`: afterwards `key` is absent; no other entry changes.
#[verifier::external_body]
pub(crate) fn flags_remove(table: &mut FlagTable, key: PointKey)
    ensures
        flag_entries(*final(table)) == flag_entries(*old(table)).remove(key),
{
    table.remove(&key);
}

/// `HashMap::iter`, reached through `AHashMap`: every entry exactly once, in
/// an order that is not specified.
#[verifier::external_body]
pub(crate) fn flags_items(table: &FlagTable) -> (items: Vec<(PointKey, u8)>)
    ensures
        items@.no_duplicates(),
        forall|j: int|
            0 <= j < items@.len() ==> flag_entries(*table).contains_pair(
                (#[trigger] items@[j]).0,
                items@[j].1,
            ),
        forall|key: PointKey| #[trigger]
            flag_entries(*table).contains_key(key) ==> items@.contains(
                (key, flag_entries(*table)[key]),
            ),
{
    table.iter().map(|(key, value)| (*key, *value)).collect()
}

/// `Clone::clone` of `AHashMap`: a second table with the same entries.
#[verifier::external_body]
pub(crate) fn flags_clone(table: &FlagTable) -> (copy: FlagTable)
    ensures
        flag_entries(copy) == flag_entries(*table),
{
    table.clone()
}

/// `AHashSet::with_capacity`: a new set without elements.
#[verifier::external_body]
pub(crate) fn line_keys_with_capacity(capacity: usize) -> (set: AHashSet<LineKey>)
    ensures
        line_keys(set) == Set::<LineKey>::empty(),
{
    AHashSet::with_capacity(capacity)
}

/// `HashSet::insert`, reached through `AHashSet`: afterwards `key` is an
/// element; the result tells whether it was not one before. The call does
/// not unwind: hashing and comparing integers cannot panic, and a table that
/// cannot grow ends the process.
#[verifier::external_body]
pub(crate) fn line_keys_insert(set: &mut AHashSet<LineKey>, key: LineKey) -> (fresh: bool)
    ensures
        line_keys(*final(set)) == line_keys(*old(set)).insert(key),
        fresh == !line_keys(*old(set)).contains(key),
    no_unwind
{
    set.insert(key)
}

/// `HashSet::contains`, reached through `AHashSet`.
#[verifier::external_body]
pub(crate) fn line_keys_contains(set: &AHashSet<LineKey>, key: LineKey) -> (found: bool)
    ensures
        found == line_keys(*set).contains(key),
{
    set.contains(&key)
}

/// `HashSet::len`, reached through `AHashSet`: the number of elements.
#[verifier::external_body]
pub(crate) fn line_keys_len(set: &AHashSet<LineKey>) -> (len: usize)
    ensures
        line_keys(*set).finite() ==> len == line_keys(*set).len(),
{
    set.len()
}

/// `AHashSet::with_capacity`: a new set without elements.
#[verifier::external_body]
pub(crate) fn move_keys_with_capacity(capacity: usize) -> (set: AHashSet<MoveKey>)
    ensures
        move_keys(set) == Set::<MoveKey>::empty(),
{
    AHashSet::with_capacity(capacity)
}

/// `HashSet::insert`, reached through `AHashSet`: afterwards `key` is an
/// element; the result tells whether it was not one before. The call does
/// not unwind: hashing and comparing integers cannot panic, and a table that
/// cannot grow ends the process.
#[verifier::external_body]
pub(crate) fn move_keys_insert(set: &mut AHashSet<MoveKey>, key: MoveKey) -> (fresh: bool)
    ensures
        move_keys(*final(set)) == move_keys(*old(set)).insert(key),
        fresh == !move_keys(*old(set)).contains(key),
    no_unwind
{
    set.insert(key)
}

/// `HashSet::len`, reached through `AHashSet`: the number of elements.
#[verifier::external_body]
pub(crate) fn move_keys_len(set: &AHashSet<MoveKey>) -> (len: usize)
    ensures
        move_keys(*set).finite() ==> len == move_keys(*set).len(),
{
    set.len()
}

/// `AHashSet::into_iter`: every element exactly once, in an order that is
/// not specified.
#[verifier::external_body]
pub(crate) fn move_keys_items(set: AHashSet<MoveKey>) -> (items: Vec<MoveKey>)
    ensures
        items@.no_duplicates(),
        forall|key: MoveKey| items@.contains(key) <==> move_keys(set).contains(key),
{
    set.into_iter().collect()
}

impl Direction {
    /// The axis whose arrival bit is `mask`.
    pub open spec fn of_in_mask(mask: u8) -> Direction {
        if mask == 0x01 {
            Direction::V
        } else if mask == 0x02 {
            Direction::SP
        } else if mask == 0x04 {
            Direction::H
        } else {
            Direction::SN
        }
    }

    /// Computes `of_in_mask(mask)`.
    pub(crate) fn from_in_mask(mask: u8) -> (d: Direction)
        ensures
            d == Direction::of_in_mask(mask),
    {
        if mask == 0x01 {
            Direction::V
        } else if mask == 0x02 {
            Direction::SP
        } else if mask == 0x04 {
            Direction::H
        } else {
            Direction::SN
        }
    }
}

impl Point {
    /// The key under which the flag table holds this point.
    pub open spec fn key(self) -> PointKey {
        (self.x, self.y)
    }

    /// The point that a key of the flag table stands for.
    pub open spec fn of_key(key: PointKey) -> Point {
        Point { x: key.0, y: key.1 }
    }

    /// Computes `key()`.
    pub(crate) fn to_key(&self) -> (key: PointKey)
        ensures
            key == self.key(),
    {
        (self.x, self.y)
    }

    /// Computes `of_key(key)`.
    pub(crate) fn from_key(key: PointKey) -> (p: Point)
        ensures
            p == Point::of_key(key),
    {
        Point { x: key.0, y: key.1 }
    }
}

impl Line {
    /// The element that stands for this line in a set of lines.
    pub open spec fn key(self) -> LineKey {
        (self.start_x, self.start_y, self.direction.in_mask())
    }

    /// The line that an element of a set of lines stands for.
    pub open spec fn of_key(key: LineKey) -> Line {
        Line { start_x: key.0, start_y: key.1, direction: Direction::of_in_mask(key.2) }
    }

    /// Computes `key()`.
    pub(crate) fn to_key(&self) -> (key: LineKey)
        ensures
            key == self.key(),
    {
        (self.start_x, self.start_y, self.direction.set_in_t_mask())
    }

    /// Computes `of_key(key)`.
    pub(crate) fn from_key(key: LineKey) -> (line: Line)
        ensures
            line == Line::of_key(key),
    {
        Line { start_x: key.0, start_y: key.1, direction: Direction::from_in_mask(key.2) }
    }
}

/// The element that stands for a candidate move in a set of candidates.
pub open spec fn move_key(info: MoveInfo) -> MoveKey {
    (info.0, info.1.key(), info.2.key())
}

/// The candidate move that an element of a set of candidates stands for.
pub open spec fn move_of_key(key: MoveKey) -> MoveInfo {
    (key.0, Line::of_key(key.1), Point::of_key(key.2))
}

/// A finite set of keys that all stand for a line has as many elements as
/// the set of the lines they stand for.
proof fn lemma_decoded_lines(keys: Set<LineKey>, lines: Set<Line>)
    requires
        keys.finite(),
        forall|key: LineKey| #[trigger] keys.contains(key) ==> Line::of_key(key).key() == key,
        lines == Set::new(|line: Line| keys.contains(line.key())),
    ensures
        lines.finite(),
        lines.len() == keys.len(),
{
    let decode = |key: LineKey| Line::of_key(key);
    assert(keys.map(decode) =~= lines) by {
        assert forall|line: Line| lines.contains(line) implies keys.map(decode).contains(line) by {
            assert(keys.contains(line.key()) && decode(line.key()) == line);
        }
    }
    assert(vstd::relations::injective_on(decode, keys)) by {
        assert forall|a: LineKey, b: LineKey|
            keys.contains(a) && keys.contains(b) && #[trigger] decode(a) == #[trigger] decode(
                b,
            ) implies a == b by {
            assert(Line::of_key(a).key() == a);
            assert(Line::of_key(b).key() == b);
        }
    }
    lemma_map_size(keys, lines, decode);
}

/// A finite set of keys that all stand for a candidate move has as many
/// elements as the set of the moves they stand for.
proof fn lemma_decoded_moves(keys: Set<MoveKey>, moves: Set<MoveInfo>)
    requires
        keys.finite(),
        forall|key: MoveKey| #[trigger] keys.contains(key) ==> move_key(move_of_key(key)) == key,
        moves == Set::new(|info: MoveInfo| keys.contains(move_key(info))),
    ensures
        moves.finite(),
        moves.len() == keys.len(),
{
    let decode = |key: MoveKey| move_of_key(key);
    assert(keys.map(decode) =~= moves) by {
        assert forall|info: MoveInfo| moves.contains(info) implies keys.map(decode).contains(
            info,
        ) by {
            assert(keys.contains(move_key(info)) && decode(move_key(info)) == info);
        }
    }
    assert(vstd::relations::injective_on(decode, keys)) by {
        assert forall|a: MoveKey, b: MoveKey|
            keys.contains(a) && keys.contains(b) && #[trigger] decode(a) == #[trigger] decode(
                b,
            ) implies a == b by {
            assert(move_key(move_of_key(a)) == a);
            assert(move_key(move_of_key(b)) == b);
        }
    }
    lemma_map_size(keys, moves, decode);
}

/// A set of lines.
pub struct LineSet {
    keys: AHashSet<LineKey>,
}

impl View for LineSet {
    type V = Set<Line>;

    closed spec fn view(&self) -> Set<Line> {
        Set::new(|line: Line| line_keys(self.keys).contains(line.key()))
    }
}

impl LineSet {
    /// The table is finite, and each of its keys stands for a line.
    #[verifier::type_invariant]
    spec fn inv(self) -> bool {
        &&& line_keys(self.keys).finite()
        &&& forall|key: LineKey| #[trigger]
            line_keys(self.keys).contains(key) ==> Line::of_key(key).key() == key
    }

    /// An empty set.
    pub fn new() -> (set: Self)
        ensures
            set@ == Set::<Line>::empty(),
    {
        LineSet::with_capacity(0)
    }

    /// An empty set with room for `capacity` lines.
    pub fn with_capacity(capacity: usize) -> (set: Self)
        ensures
            set@ == Set::<Line>::empty(),
    {
        let set = LineSet { keys: line_keys_with_capacity(capacity) };
        assert(set@ =~= Set::<Line>::empty());
        set
    }

    /// Adds `line`; tells whether it was not in the set before.
    pub fn insert(&mut self, line: Line) -> (fresh: bool)
        ensures
            final(self)@ == old(self)@.insert(line),
            fresh == !old(self)@.contains(line),
    {
        proof {
            use_type_invariant(&*self);
        }
        let fresh = line_keys_insert(&mut self.keys, line.to_key());
        assert(self@ =~= old(self)@.insert(line));
        fresh
    }

    /// Tells whether `line` is in the set.
    pub fn contains(&self, line: &Line) -> (found: bool)
        ensures
            found == self@.contains(*line),
    {
        line_keys_contains(&self.keys, line.to_key())
    }

    /// The number of lines in the set.
    pub fn len(&self) -> (len: usize)
        ensures
            self@.finite(),
            len == self@.len(),
    {
        proof {
            use_type_invariant(self);
            lemma_decoded_lines(line_keys(self.keys), self@);
        }
        line_keys_len(&self.keys)
    }
}

/// A set of candidate moves.
pub struct Candidates {
    keys: AHashSet<MoveKey>,
}

impl View for Candidates {
    type V = Set<MoveInfo>;

    closed spec fn view(&self) -> Set<MoveInfo> {
        Set::new(|info: MoveInfo| move_keys(self.keys).contains(move_key(info)))
    }
}

impl Candidates {
    /// The table is finite, and each of its keys stands for a candidate.
    #[verifier::type_invariant]
    spec fn inv(self) -> bool {
        &&& move_keys(self.keys).finite()
        &&& forall|key: MoveKey| #[trigger]
            move_keys(self.keys).contains(key) ==> move_key(move_of_key(key)) == key
    }

    /// An empty set.
    pub fn new() -> (set: Self)
        ensures
            set@ == Set::<MoveInfo>::empty(),
    {
        Candidates::with_capacity(0)
    }

    /// An empty set with room for `capacity` candidates.
    pub fn with_capacity(capacity: usize) -> (set: Self)
        ensures
            set@ == Set::<MoveInfo>::empty(),
    {
        let set = Candidates { keys: move_keys_with_capacity(capacity) };
        assert(set@ =~= Set::<MoveInfo>::empty());
        set
    }

    /// Adds a candidate; tells whether it was not in the set before.
    pub fn insert(&mut self, info: MoveInfo) -> (fresh: bool)
        ensures
            final(self)@ == old(self)@.insert(info),
            fresh == !old(self)@.contains(info),
    {
        proof {
            use_type_invariant(&*self);
        }
        let key: MoveKey = (info.0, info.1.to_key(), info.2.to_key());
        let fresh = move_keys_insert(&mut self.keys, key);
        assert(self@ =~= old(self)@.insert(info));
        fresh
    }

    /// The number of candidates in the set.
    pub fn len(&self) -> (len: usize)
        ensures
            self@.finite(),
            len == self@.len(),
    {
        proof {
            use_type_invariant(self);
            lemma_decoded_moves(move_keys(self.keys), self@);
        }
        move_keys_len(&self.keys)
    }

    /// All candidates, each once, in no particular order.
    pub fn into_vec(self) -> (items: Vec<MoveInfo>)
        ensures
            items@.no_duplicates(),
            items@.to_set() == self@,
            items@.len() == self@.len(),
    {
        proof {
            use_type_invariant(&self);
            lemma_decoded_moves(move_keys(self.keys), self@);
        }
        let ghost keys = move_keys(self.keys);
        let ghost all = self@;
        let raw = move_keys_items(self.keys);
        let mut items: Vec<MoveInfo> = Vec::with_capacity(raw.len());
        let mut i: usize = 0;
        while i < raw.len()
            invariant
                i <= raw.len(),
                items@.len() == i,
                forall|j: int| 0 <= j < i ==> #[trigger] items@[j] == move_of_key(raw@[j]),
            decreases raw.len() - i,
        {
            let key = raw[i];
            items.push((key.0, Line::from_key(key.1), Point::from_key(key.2)));
            i += 1;
        }
        proof {
            assert forall|j: int| 0 <= j < raw@.len() implies keys.contains(#[trigger] raw@[j]) by {
                assert(raw@.contains(raw@[j]));
            }
            assert forall|a: int, b: int|
                0 <= a < items@.len() && 0 <= b < items@.len() && a != b implies items@[a]
                != items@[b] by {
                assert(move_key(move_of_key(raw@[a])) == raw@[a]);
                assert(move_key(move_of_key(raw@[b])) == raw@[b]);
            }
            assert(items@.to_set() =~= all) by {
                assert forall|info: MoveInfo| all.contains(info) implies items@.to_set().contains(
                    info,
                ) by {
                    assert(raw@.contains(move_key(info)));
                    let j = choose|j: int| 0 <= j < raw@.len() && raw@[j] == move_key(info);
                    assert(items@[j] == info);
                }
                assert forall|info: MoveInfo| items@.to_set().contains(info) implies all.contains(
                    info,
                ) by {
                    let j = choose|j: int| 0 <= j < items@.len() && items@[j] == info;
                    assert(move_key(move_of_key(raw@[j])) == raw@[j]);
                }
            }
            items@.unique_seq_to_set();
        }
        items
    }
}

} // verus!
