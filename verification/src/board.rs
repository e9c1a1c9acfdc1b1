//! The board as a mathematical value, the rules of the game stated over
//! it, and what follows from the rules.

use crate::line::{
    lemma_line_points, lemma_off_the_line, lemma_position_in_range, lemma_unit_multiple, Line,
};
use crate::point::Point;
use vstd::prelude::*;

verus! {

/// Horizontal coordinates of the 36 points of the starting cross, in order.
pub const STARTING_XS: [i16; 36] = [
    0, -1, -1, -1, -1, -2, -3, -4, -4, -4, -4, -3, -2, -1, -1, -1, -1, 0, 1, 2, 2, 2, 2, 3, 4,
    5, 5, 5, 5, 4, 3, 2, 2, 2, 2, 1,
];

/// Vertical coordinates of the 36 points of the starting cross, in order.
pub const STARTING_YS: [i16; 36] = [
    4, 4, 3, 2, 1, 1, 1, 1, 0, -1, -2, -2, -2, -2, -3, -4, -5, -5, -5, -5, -4, -3, -2, -2, -2,
    -2, -1, 0, 1, 1, 1, 1, 2, 3, 4, 4,
];

/// The starting cross as a sequence.
pub open spec fn starting_cross() -> Seq<Point> {
    Seq::new(36, |i: int| Point { x: STARTING_XS[i], y: STARTING_YS[i] })
}

/// The state of a game as a mathematical value: the flag byte of every point
/// on the board, and the lines placed so far, oldest first.
pub struct Board {
    pub points: Map<Point, u8>,
    pub lines: Seq<Line>,
}

impl Board {
    /// The board before the first move: the starting cross, no role taken.
    pub open spec fn initial() -> Board {
        Board {
            points: Map::new(|p: Point| starting_cross().contains(p), |p: Point| 0u8),
            lines: Seq::empty(),
        }
    }

    /// Position `i` of `line` lies on a point of the board on which the role
    /// of that position is still free.
    pub open spec fn free_at(self, line: Line, i: int) -> bool {
        &&& self.points.contains_key(line.point_at(i))
        &&& self.points[line.point_at(i)] & line.role_mask(i) == 0
    }

    /// Placing `line` is a legal move that creates the point `p`: the line
    /// covers `p`, which is not on the board, and each of its other four
    /// positions lies on a point of the board whose role is still free.
    pub open spec fn creates(self, line: Line, p: Point) -> bool {
        &&& line.fits()
        &&& line.covers(p)
        &&& !self.points.contains_key(p)
        &&& forall|i: int| 0 <= i < 5 && line.point_at(i) != p ==> #[trigger] self.free_at(line, i)
    }

    /// Placing `line` is a legal move.
    pub open spec fn legal(self, line: Line) -> bool {
        exists|p: Point| self.creates(line, p)
    }

    /// All legal moves.
    pub open spec fn moves(self) -> Set<Line> {
        Set::new(|line: Line| self.legal(line))
    }

    /// The board after `line` has been placed with new point `p`: `p` joins
    /// the board without flags unless it is there already, every point that
    /// the line covers gets the bits of its role, and the line is appended.
    pub open spec fn place(self, line: Line, p: Point) -> Board {
        Board {
            points: Map::new(
                |q: Point| q == p || self.points.contains_key(q),
                |q: Point|
                    (if self.points.contains_key(q) {
                        self.points[q]
                    } else {
                        0u8
                    }) | line.mask_at(q),
            ),
            lines: self.lines.push(line),
        }
    }

    /// The board after the last line, `line`, has been taken back together
    /// with the point `p` that it created: `p` leaves the board, every other
    /// point that the line covers loses the bits of its role, and the last
    /// line is dropped.
    pub open spec fn unplace(self, line: Line, p: Point) -> Board {
        Board {
            points: Map::new(
                |q: Point| q != p && self.points.contains_key(q),
                |q: Point| self.points[q] & !line.mask_at(q),
            ),
            lines: self.lines.drop_last(),
        }
    }

    /// Every move of `moves` is legal on the board on which it is made, when
    /// the moves are made one after the other from this board on.
    pub open spec fn playable(self, moves: Seq<(Line, Point)>) -> bool
        decreases moves.len(),
    {
        if moves.len() == 0 {
            true
        } else {
            &&& self.creates(moves[0].0, moves[0].1)
            &&& self.place(moves[0].0, moves[0].1).playable(moves.drop_first())
        }
    }

    /// The board after the moves of `moves` have been made one after the
    /// other from this board on.
    pub open spec fn play(self, moves: Seq<(Line, Point)>) -> Board
        decreases moves.len(),
    {
        if moves.len() == 0 {
            self
        } else {
            self.place(moves[0].0, moves[0].1).play(moves.drop_first())
        }
    }

    /// The first line of `later` that this board does not have.
    pub open spec fn next_line(self, later: Board) -> Line {
        later.lines[self.lines.len() as int]
    }

    /// `later` comes from this board by a sequence of legal moves.
    pub open spec fn reaches(self, later: Board) -> bool {
        exists|moves: Seq<(Line, Point)>| self.playable(moves) && self.play(moves) == later
    }

    /// A board with the lines `lines`, in this order, comes from this board
    /// by legal moves.
    pub open spec fn comes_to(self, lines: Seq<Line>) -> bool {
        exists|later: Board| #[trigger] self.reaches(later) && later.lines == lines
    }

    /// A board with at least `target` lines comes from this board by legal
    /// moves.
    pub open spec fn winnable(self, target: usize) -> bool {
        exists|later: Board| self.reaches(later) && later.lines.len() >= target
    }

    /// The two boards have the same points with the same flags, and the same
    /// number of lines: the game goes on from the one as it does from the
    /// other.
    pub open spec fn alike(self, other: Board) -> bool {
        &&& self.points == other.points
        &&& self.lines.len() == other.lines.len()
    }

    /// No legal move whose line covers `point` leads to a board from which
    /// the score `target` can be reached.
    pub open spec fn lost_through(self, point: Point, target: usize) -> bool {
        forall|line: Line, p: Point|
            self.creates(line, p) && line.covers(point) ==> !(#[trigger] self.place(
                line,
                p,
            )).winnable(target)
    }

    /// There is room around the points of the board for the moves that are
    /// still missing to bring the score to `target`, and for one move beyond
    /// them: no line of these moves can leave the coordinates that the
    /// machine can represent.
    pub open spec fn room(self, target: usize) -> bool {
        self.inside(
            4 * (if target > self.lines.len() {
                target - self.lines.len()
            } else {
                1
            }) + 4,
        )
    }

    /// The bits that the lines of `lines` occupy on the point `q`.
    pub open spec fn marks(lines: Seq<Line>, q: Point) -> u8
        decreases lines.len(),
    {
        if lines.len() == 0 {
            0
        } else {
            Board::marks(lines.drop_last(), q) | lines.last().mask_at(q)
        }
    }

    /// The board that the lines of `lines` make of the starting cross: its
    /// points are those of the cross and those that a line covers, and the
    /// flag byte of a point holds the bits of the roles that the point plays
    /// on the lines.
    pub open spec fn of_lines(lines: Seq<Line>) -> Board {
        Board {
            points: Map::new(
                |q: Point|
                    starting_cross().contains(q) || exists|k: int|
                        0 <= k < lines.len() && (#[trigger] lines[k]).covers(q),
                |q: Point| Board::marks(lines, q),
            ),
            lines,
        }
    }

    /// Every point of the board is at least `margin` away from the largest
    /// and the smallest coordinate that the machine can represent.
    pub open spec fn inside(self, margin: int) -> bool {
        forall|p: Point| #[trigger]
            self.points.contains_key(p) ==> {
                &&& i16::MIN + margin <= p.x <= i16::MAX - margin
                &&& i16::MIN + margin <= p.y <= i16::MAX - margin
            }
    }
}

/// Facts about single flag bytes that the proofs about boards rest on.
pub proof fn lemma_flag_bits(f: u8, m: u8)
    by (bit_vector)
    ensures
        f | 0 == f,
        f & !0u8 == f,
        f & m == 0 ==> (f | m) & !m == f,
{
}

/// A legal move leaves exactly one of the five positions of its line off the
/// board before it is made, and that position is the point it creates.
pub proof fn lemma_one_new_point(board: Board, line: Line, p: Point)
    requires
        board.creates(line, p),
    ensures
        exists|k: int|
            0 <= k < 5 && line.point_at(k) == p && !board.points.contains_key(line.point_at(k))
                && forall|i: int|
                0 <= i < 5 && i != k ==> board.points.contains_key(#[trigger] line.point_at(i)),
        forall|q: Point| board.creates(line, q) ==> q == p,
{
    lemma_line_points(line);
    let k = choose|k: int| 0 <= k < 5 && line.point_at(k) == p;
    assert forall|i: int| 0 <= i < 5 && i != k implies board.points.contains_key(
        #[trigger] line.point_at(i),
    ) by {
        assert(board.free_at(line, i));
    }
    assert forall|q: Point| board.creates(line, q) implies q == p by {
        if q != p {
            assert(board.free_at(line, k));
        }
    }
}

/// Placing a line and taking it back at once, together with the point it
/// created, restores the board: the same points, the same flags on every
/// point, the same lines. This holds whenever the created point was not on
/// the board and the roles that the line takes on the other points were free.
pub proof fn lemma_place_unplace(board: Board, line: Line, p: Point)
    requires
        line.fits(),
        !board.points.contains_key(p),
        forall|i: int| 0 <= i < 5 && line.point_at(i) != p ==> #[trigger] board.free_at(line, i),
    ensures
        board.place(line, p).unplace(line, p) == board,
{
    lemma_line_points(line);
    let back = board.place(line, p).unplace(line, p);
    assert forall|q: Point| board.points.contains_key(q) implies back.points[q]
        == board.points[q] by {
        let f = board.points[q];
        if line.covers(q) {
            let i = choose|i: int| 0 <= i < 5 && line.point_at(i) == q;
            assert(board.free_at(line, i));
            assert(line.mask_at(q) == line.role_mask(i));
            lemma_flag_bits(f, line.role_mask(i));
        } else {
            lemma_off_the_line(line, q);
            lemma_flag_bits(f, 0);
        }
    }
    assert(back.points =~= board.points);
    assert(back.lines =~= board.lines);
}

/// Placing a line raises the score by one; taking the last line back lowers
/// it by one.
pub proof fn lemma_score_steps(board: Board, line: Line, p: Point)
    ensures
        board.place(line, p).lines.len() == board.lines.len() + 1,
        board.lines.len() > 0 ==> board.unplace(line, p).lines.len() == board.lines.len() - 1,
{
}

/// A legal move never takes a role that is already taken: on every point of
/// the board, the bits that the line sets were all clear before.
pub proof fn lemma_no_role_reused(board: Board, line: Line, p: Point)
    requires
        board.creates(line, p),
    ensures
        forall|q: Point| #[trigger]
            board.points.contains_key(q) ==> board.points[q] & line.mask_at(q) == 0,
{
    lemma_line_points(line);
    assert forall|q: Point| #[trigger] board.points.contains_key(q) implies board.points[q]
        & line.mask_at(q) == 0 by {
        let f = board.points[q];
        if line.covers(q) {
            let i = choose|i: int| 0 <= i < 5 && line.point_at(i) == q;
            assert(board.free_at(line, i));
            assert(line.mask_at(q) == line.role_mask(i));
        } else {
            lemma_off_the_line(line, q);
            assert(f & 0 == 0) by (bit_vector);
        }
    }
}

/// A legal move meets what `add_set` asks of its arguments, and the board
/// after it meets what `remove_set` asks to take the move back.
pub proof fn lemma_move_can_be_made(board: Board, line: Line, p: Point)
    requires
        board.creates(line, p),
    ensures
        forall|i: int|
            0 <= i < 5 ==> board.points.contains_key(#[trigger] line.point_at(i)) || line.point_at(
                i,
            ) == p,
        forall|i: int|
            0 <= i < 5 ==> board.place(line, p).points.contains_key(#[trigger] line.point_at(i)),
        board.place(line, p).lines.len() > 0,
        board.place(line, p).lines.last() == line,
{
    assert forall|i: int| 0 <= i < 5 implies board.points.contains_key(
        #[trigger] line.point_at(i),
    ) || line.point_at(i) == p by {
        if line.point_at(i) != p {
            assert(board.free_at(line, i));
        }
    }
}

/// A point of the board that a legal move covers holds a position of the
/// line whose role is free on it.
pub proof fn lemma_covered_is_candidate(board: Board, line: Line, q: Point)
    requires
        board.legal(line),
        line.covers(q),
        board.points.contains_key(q),
    ensures
        line.fits(),
        exists|i: int| 0 <= i < 5 && line.point_at(i) == q && board.free_at(line, i),
{
    let p = choose|p: Point| board.creates(line, p);
    let i = choose|i: int| 0 <= i < 5 && line.point_at(i) == q;
    assert(board.free_at(line, i));
}

/// Every board reaches itself.
pub proof fn lemma_reaches_self(board: Board)
    ensures
        board.reaches(board),
{
    let none = Seq::<(Line, Point)>::empty();
    assert(board.playable(none) && board.play(none) == board);
}

/// A legal move followed by a sequence of legal moves is a sequence of legal
/// moves.
pub proof fn lemma_reaches_after_move(board: Board, line: Line, p: Point, later: Board)
    requires
        board.creates(line, p),
        board.place(line, p).reaches(later),
    ensures
        board.reaches(later),
{
    let rest = choose|moves: Seq<(Line, Point)>|
        board.place(line, p).playable(moves) && board.place(line, p).play(moves) == later;
    let all = seq![(line, p)] + rest;
    assert(all.drop_first() =~= rest);
    assert(board.playable(all) && board.play(all) == later);
}

/// Every legal move adds one line to those placed, and none is ever taken
/// away: a board that is reached has the lines of the board it was reached
/// from, in their order, before any other.
pub proof fn lemma_reaches_grows(a: Board, b: Board)
    requires
        a.reaches(b),
    ensures
        a.lines.len() <= b.lines.len(),
        a.lines.len() == b.lines.len() ==> a == b,
        forall|k: int| 0 <= k < a.lines.len() ==> #[trigger] b.lines[k] == a.lines[k],
{
    let moves = choose|moves: Seq<(Line, Point)>| a.playable(moves) && a.play(moves) == b;
    lemma_play_grows(a, moves);
}

proof fn lemma_play_grows(a: Board, moves: Seq<(Line, Point)>)
    ensures
        a.play(moves).lines.len() == a.lines.len() + moves.len(),
        forall|k: int| 0 <= k < a.lines.len() ==> #[trigger] a.play(moves).lines[k] == a.lines[k],
    decreases moves.len(),
{
    if moves.len() > 0 {
        let next = a.place(moves[0].0, moves[0].1);
        lemma_play_grows(next, moves.drop_first());
        assert forall|k: int| 0 <= k < a.lines.len() implies #[trigger] a.play(moves).lines[k]
            == a.lines[k] by {
            assert(next.lines[k] == a.lines[k]);
        }
    }
}

/// The point that a legal move creates lies within four steps of a point of
/// the board: a board whose points keep a margin of `margin` keeps one of
/// `margin - 4` after the move.
pub proof fn lemma_place_inside(board: Board, line: Line, p: Point, margin: int)
    requires
        board.creates(line, p),
        board.inside(margin),
        margin >= 4,
    ensures
        board.place(line, p).inside(margin - 4),
{
    lemma_line_points(line);
    let k = choose|k: int| 0 <= k < 5 && line.point_at(k) == p;
    let i = if k == 0 {
        1int
    } else {
        0int
    };
    assert(board.free_at(line, i));
    let q = line.point_at(i);
    lemma_position_in_range(line, i);
    lemma_position_in_range(line, k);
    lemma_unit_multiple(i, line.direction.dx());
    lemma_unit_multiple(i, line.direction.dy());
    lemma_unit_multiple(k, line.direction.dx());
    lemma_unit_multiple(k, line.direction.dy());
    assert(board.points.contains_key(q));
    assert(-4 <= p.x - q.x <= 4 && -4 <= p.y - q.y <= 4);
}

/// Lines that do not cover a point leave no mark on it.
proof fn lemma_unmarked(lines: Seq<Line>, q: Point)
    requires
        forall|k: int| 0 <= k < lines.len() ==> !(#[trigger] lines[k]).covers(q),
    ensures
        Board::marks(lines, q) == 0,
    decreases lines.len(),
{
    if lines.len() > 0 {
        let rest = lines.drop_last();
        assert forall|k: int| 0 <= k < rest.len() implies !(#[trigger] rest[k]).covers(q) by {
            assert(rest[k] == lines[k]);
        }
        lemma_unmarked(rest, q);
        let last = lines.last();
        assert(last == lines[lines.len() - 1]);
        lemma_off_the_line(last, q);
        lemma_flag_bits(0, 0);
    }
}

/// A legal move on the board that some lines make of the starting cross
/// leads to the board that those lines and the new one make of it.
proof fn lemma_place_of_lines(board: Board, line: Line, p: Point)
    requires
        board == Board::of_lines(board.lines),
        board.creates(line, p),
    ensures
        board.place(line, p) == Board::of_lines(board.lines.push(line)),
{
    let lines = board.lines;
    let more = lines.push(line);
    let next = board.place(line, p);
    let goal = Board::of_lines(more);
    assert(more.drop_last() =~= lines);
    assert(more.last() == line);
    assert forall|q: Point| next.points.contains_key(q) implies goal.points.contains_key(q) by {
        if q == p {
            assert(more[lines.len() as int].covers(q));
        } else if !starting_cross().contains(q) {
            let k = choose|k: int| 0 <= k < lines.len() && (#[trigger] lines[k]).covers(q);
            assert(more[k].covers(q));
        }
    }
    assert forall|q: Point| goal.points.contains_key(q) implies next.points.contains_key(q) by {
        if !starting_cross().contains(q) {
            let k = choose|k: int| 0 <= k < more.len() && (#[trigger] more[k]).covers(q);
            if k < lines.len() {
                assert(lines[k].covers(q));
            } else {
                let i = choose|i: int| 0 <= i < 5 && line.point_at(i) == q;
                if q != p {
                    assert(board.free_at(line, i));
                }
            }
        }
    }
    assert forall|q: Point| next.points.contains_key(q) implies next.points[q]
        == goal.points[q] by {
        if !board.points.contains_key(q) {
            assert forall|k: int| 0 <= k < lines.len() implies !(#[trigger] lines[k]).covers(
                q,
            ) by {}
            lemma_unmarked(lines, q);
        }
    }
    assert(next.points =~= goal.points);
}

/// The flags of a board that legal moves have made of the starting cross
/// sum up its lines: the board is the one that its lines make of the cross.
pub proof fn lemma_flags_sum_up_lines(board: Board)
    requires
        Board::initial().reaches(board),
    ensures
        board == Board::of_lines(board.lines),
{
    let moves = choose|moves: Seq<(Line, Point)>|
        Board::initial().playable(moves) && Board::initial().play(moves) == board;
    assert(Board::initial().points =~= Board::of_lines(Seq::empty()).points);
    lemma_play_of_lines(Board::initial(), moves);
}

proof fn lemma_play_of_lines(board: Board, moves: Seq<(Line, Point)>)
    requires
        board == Board::of_lines(board.lines),
        board.playable(moves),
    ensures
        board.play(moves) == Board::of_lines(board.play(moves).lines),
    decreases moves.len(),
{
    if moves.len() > 0 {
        lemma_place_of_lines(board, moves[0].0, moves[0].1);
        lemma_play_of_lines(board.place(moves[0].0, moves[0].1), moves.drop_first());
    }
}

/// From boards that are alike, the same moves are legal, and they lead to
/// boards that are alike.
pub proof fn lemma_alike_play(a: Board, b: Board, moves: Seq<(Line, Point)>)
    requires
        a.alike(b),
        a.playable(moves),
    ensures
        b.playable(moves),
        a.play(moves).alike(b.play(moves)),
    decreases moves.len(),
{
    if moves.len() > 0 {
        let line = moves[0].0;
        let p = moves[0].1;
        assert(b.creates(line, p)) by {
            assert forall|i: int| 0 <= i < 5 && line.point_at(i) != p implies #[trigger] b.free_at(
                line,
                i,
            ) by {
                assert(a.free_at(line, i));
            }
        }
        assert(a.place(line, p).points =~= b.place(line, p).points);
        lemma_alike_play(a.place(line, p), b.place(line, p), moves.drop_first());
    }
}

/// Boards that are alike can reach the same scores.
pub proof fn lemma_alike_winnable(a: Board, b: Board, target: usize)
    requires
        a.alike(b),
    ensures
        a.winnable(target) == b.winnable(target),
{
    if a.winnable(target) {
        let later = choose|later: Board| a.reaches(later) && later.lines.len() >= target;
        let moves = choose|moves: Seq<(Line, Point)>| a.playable(moves) && a.play(moves) == later;
        lemma_alike_play(a, b, moves);
        assert(b.reaches(b.play(moves)));
    }
    if b.winnable(target) {
        let later = choose|later: Board| b.reaches(later) && later.lines.len() >= target;
        let moves = choose|moves: Seq<(Line, Point)>| b.playable(moves) && b.play(moves) == later;
        lemma_alike_play(b, a, moves);
        assert(a.reaches(a.play(moves)));
    }
}

/// A board that has not reached the score `target` can still reach it
/// exactly if one of its legal moves leads to a board that can.
pub proof fn lemma_winnable_by_a_move(board: Board, target: usize)
    requires
        board.lines.len() < target,
    ensures
        board.winnable(target) <==> exists|line: Line, p: Point|
            board.creates(line, p) && #[trigger] board.place(line, p).winnable(target),
{
    if board.winnable(target) {
        let later = choose|later: Board| board.reaches(later) && later.lines.len() >= target;
        let moves = choose|moves: Seq<(Line, Point)>|
            board.playable(moves) && board.play(moves) == later;
        assert(moves.len() > 0);
        let next = board.place(moves[0].0, moves[0].1);
        let rest = moves.drop_first();
        assert(next.playable(rest) && next.play(rest) == later);
        assert(next.reaches(later));
        assert(board.creates(moves[0].0, moves[0].1) && next.winnable(target));
    }
    if exists|line: Line, p: Point|
        board.creates(line, p) && #[trigger] board.place(line, p).winnable(target) {
        let (line, p) = choose|line: Line, p: Point|
            board.creates(line, p) && #[trigger] board.place(line, p).winnable(target);
        let next = board.place(line, p);
        let later = choose|later: Board| next.reaches(later) && later.lines.len() >= target;
        lemma_reaches_after_move(board, line, p, later);
    }
}

/// A board that comes from one that legal moves have made of the starting
/// cross is such a board too.
pub proof fn lemma_reached_further(board: Board, later: Board)
    requires
        Board::initial().reaches(board),
        board.reaches(later),
    ensures
        Board::initial().reaches(later),
{
    let first = choose|moves: Seq<(Line, Point)>|
        Board::initial().playable(moves) && Board::initial().play(moves) == board;
    lemma_reaches_joined(Board::initial(), first, later);
}

proof fn lemma_reaches_joined(a: Board, first: Seq<(Line, Point)>, c: Board)
    requires
        a.playable(first),
        a.play(first).reaches(c),
    ensures
        a.reaches(c),
    decreases first.len(),
{
    if first.len() > 0 {
        let next = a.place(first[0].0, first[0].1);
        lemma_reaches_joined(next, first.drop_first(), c);
        lemma_reaches_after_move(a, first[0].0, first[0].1, c);
    }
}

/// How the bits of flag bytes combine: `a` lies within `b` if `a | b == b`.
proof fn lemma_bits_within(a: u8, b: u8, c: u8)
    by (bit_vector)
    ensures
        0u8 | a == a,
        a | (a | b) == a | b,
        b | (a | b) == a | b,
        a | c == c && b | c == c ==> (a | b) | c == c,
        a | b == b && b | c == c ==> a | c == c,
        a | b == b && b | a == a ==> a == b,
{
}

/// The marks of some lines on a point hold the bits of each of the lines,
/// and lie within every byte that holds the bits of each of them.
proof fn lemma_marks_bound(lines: Seq<Line>, q: Point, top: u8)
    ensures
        forall|k: int|
            0 <= k < lines.len() ==> (#[trigger] lines[k]).mask_at(q) | Board::marks(lines, q)
                == Board::marks(lines, q),
        (forall|k: int| 0 <= k < lines.len() ==> (#[trigger] lines[k]).mask_at(q) | top == top)
            ==> Board::marks(lines, q) | top == top,
    decreases lines.len(),
{
    if lines.len() == 0 {
        lemma_bits_within(top, 0, 0);
    } else {
        let rest = lines.drop_last();
        let last = lines.last();
        let low = Board::marks(rest, q);
        lemma_marks_bound(rest, q, top);
        lemma_bits_within(low, last.mask_at(q), top);
        assert forall|k: int| 0 <= k < lines.len() implies (#[trigger] lines[k]).mask_at(q)
            | Board::marks(lines, q) == Board::marks(lines, q) by {
            if k < rest.len() {
                assert(rest[k] == lines[k]);
                lemma_bits_within(lines[k].mask_at(q), low, low | last.mask_at(q));
            }
        }
        if forall|k: int| 0 <= k < lines.len() ==> (#[trigger] lines[k]).mask_at(q) | top == top {
            assert forall|k: int| 0 <= k < rest.len() implies (#[trigger] rest[k]).mask_at(q) | top
                == top by {
                assert(rest[k] == lines[k]);
            }
            assert(last == lines[lines.len() - 1]);
        }
    }
}

/// The marks of some lines on a point do not depend on the order of the
/// lines, nor on how often a line occurs.
proof fn lemma_marks_of_same_lines(a: Seq<Line>, b: Seq<Line>, q: Point)
    requires
        a.to_set() == b.to_set(),
    ensures
        Board::marks(a, q) == Board::marks(b, q),
{
    let ma = Board::marks(a, q);
    let mb = Board::marks(b, q);
    lemma_marks_bound(a, q, mb);
    lemma_marks_bound(b, q, ma);
    assert forall|k: int| 0 <= k < a.len() implies (#[trigger] a[k]).mask_at(q) | mb == mb by {
        assert(a.to_set().contains(a[k]));
        assert(b.contains(a[k]));
        let j = choose|j: int| 0 <= j < b.len() && b[j] == a[k];
        assert(b[j].mask_at(q) | mb == mb);
    }
    assert forall|k: int| 0 <= k < b.len() implies (#[trigger] b[k]).mask_at(q) | ma == ma by {
        assert(b.to_set().contains(b[k]));
        assert(a.contains(b[k]));
        let j = choose|j: int| 0 <= j < a.len() && a[j] == b[k];
        assert(a[j].mask_at(q) | ma == ma);
    }
    lemma_bits_within(ma, mb, 0);
}

/// The same lines make the same points of the starting cross, with the same
/// flags, in whatever order they are placed.
pub proof fn lemma_same_lines_same_points(a: Seq<Line>, b: Seq<Line>)
    requires
        a.to_set() == b.to_set(),
    ensures
        Board::of_lines(a).points == Board::of_lines(b).points,
{
    let pa = Board::of_lines(a).points;
    let pb = Board::of_lines(b).points;
    assert forall|q: Point| pa.contains_key(q) implies pb.contains_key(q) by {
        if !starting_cross().contains(q) {
            let k = choose|k: int| 0 <= k < a.len() && (#[trigger] a[k]).covers(q);
            assert(a.to_set().contains(a[k]));
            assert(b.contains(a[k]));
            let j = choose|j: int| 0 <= j < b.len() && b[j] == a[k];
            assert(b[j].covers(q));
        }
    }
    assert forall|q: Point| pb.contains_key(q) implies pa.contains_key(q) by {
        if !starting_cross().contains(q) {
            let k = choose|k: int| 0 <= k < b.len() && (#[trigger] b[k]).covers(q);
            assert(b.to_set().contains(b[k]));
            assert(a.contains(b[k]));
            let j = choose|j: int| 0 <= j < a.len() && a[j] == b[k];
            assert(a[j].covers(q));
        }
    }
    assert forall|q: Point| pa.contains_key(q) implies pa[q] == pb[q] by {
        lemma_marks_of_same_lines(a, b, q);
    }
    assert(pa =~= pb);
}

/// No line is placed twice in a game: once a line is placed, all its points
/// are on the board, and it can create none.
pub proof fn lemma_lines_are_distinct(board: Board)
    requires
        Board::initial().reaches(board),
    ensures
        board.lines.no_duplicates(),
{
    let moves = choose|moves: Seq<(Line, Point)>|
        Board::initial().playable(moves) && Board::initial().play(moves) == board;
    assert(Board::initial().points =~= Board::of_lines(Seq::empty()).points);
    lemma_play_distinct(Board::initial(), moves);
}

proof fn lemma_play_distinct(board: Board, moves: Seq<(Line, Point)>)
    requires
        board == Board::of_lines(board.lines),
        board.lines.no_duplicates(),
        board.playable(moves),
    ensures
        board.play(moves).lines.no_duplicates(),
    decreases moves.len(),
{
    if moves.len() > 0 {
        let line = moves[0].0;
        let p = moves[0].1;
        let next = board.place(line, p);
        lemma_place_of_lines(board, line, p);
        assert forall|k: int| 0 <= k < board.lines.len() implies board.lines[k] != line by {
            if board.lines[k] == line {
                assert(board.lines[k].covers(p));
                assert(board.points.contains_key(p));
            }
        }
        lemma_play_distinct(next, moves.drop_first());
    }
}

/// Two games that have placed the same lines, in whatever order, have come
/// to boards that are alike.
pub proof fn lemma_same_lines_alike(a: Board, b: Board)
    requires
        Board::initial().reaches(a),
        Board::initial().reaches(b),
        a.lines.to_set() == b.lines.to_set(),
    ensures
        a.alike(b),
{
    lemma_flags_sum_up_lines(a);
    lemma_flags_sum_up_lines(b);
    lemma_same_lines_same_points(a.lines, b.lines);
    lemma_lines_are_distinct(a);
    lemma_lines_are_distinct(b);
    a.lines.unique_seq_to_set();
    b.lines.unique_seq_to_set();
}

/// A legal first move covers a point of the starting cross: four of its
/// five positions lie on points of the board, and the board is the cross.
pub proof fn lemma_line_points_on_cross(line: Line, p: Point)
    requires
        Board::initial().creates(line, p),
    ensures
        exists|j: int| 0 <= j < 36 && line.covers(#[trigger] starting_cross()[j]),
{
    lemma_one_new_point(Board::initial(), line, p);
    lemma_line_points(line);
    let k = choose|k: int| 0 <= k < 5 && line.point_at(k) == p;
    let at = if k == 0 {
        1int
    } else {
        0int
    };
    assert(Board::initial().free_at(line, at));
    let q = line.point_at(at);
    let j = choose|j: int| 0 <= j < 36 && starting_cross()[j] == q;
    assert(line.covers(starting_cross()[j]));
}

/// What comes from the board after a legal move comes from the board the
/// move was made on.
pub proof fn lemma_comes_to_after_move(board: Board, line: Line, p: Point, lines: Seq<Line>)
    requires
        board.creates(line, p),
        board.place(line, p).comes_to(lines),
    ensures
        board.comes_to(lines),
{
    let later = choose|later: Board| #[trigger]
        board.place(line, p).reaches(later) && later.lines == lines;
    lemma_reaches_after_move(board, line, p, later);
}

} // verus!
