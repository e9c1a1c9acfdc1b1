//! Axes and lines of five points.

use crate::point::Point;
use vstd::prelude::*;

verus! {

/// The four axes a line may follow.
///
/// ```text
///  V |  / SP
///    .  _ H
///
///      \ SN
/// ```
#[derive(PartialEq, Eq, Structural, Copy, Clone, Hash, Debug)]
pub enum Direction {
    H,
    V,
    SP,
    SN,
}

impl Direction {
    /// Horizontal component of the unit step along this axis.
    pub open spec fn dx(self) -> int {
        match self {
            Direction::H => 1,
            Direction::V => 0,
            Direction::SP => 1,
            Direction::SN => 1,
        }
    }

    /// Vertical component of the unit step along this axis.
    pub open spec fn dy(self) -> int {
        match self {
            Direction::H => 0,
            Direction::V => 1,
            Direction::SP => 1,
            Direction::SN => -1,
        }
    }

    /// The flag bit that marks a point as the arrival end of a line along
    /// this axis.
    pub open spec fn in_mask(self) -> u8 {
        match self {
            Direction::V => 0x01,
            Direction::SP => 0x02,
            Direction::H => 0x04,
            Direction::SN => 0x08,
        }
    }

    /// The flag bit that marks a point as the departure end of a line along
    /// this axis.
    pub open spec fn out_mask(self) -> u8 {
        match self {
            Direction::V => 0x10,
            Direction::SP => 0x20,
            Direction::H => 0x40,
            Direction::SN => 0x80,
        }
    }

    /// Both bits of this axis: the mark of an interior point of a line.
    pub open spec fn inout_mask(self) -> u8 {
        match self {
            Direction::V => 0x11,
            Direction::SP => 0x22,
            Direction::H => 0x44,
            Direction::SN => 0x88,
        }
    }

    /// The flag bits that position `i` of a line along this axis occupies
    /// on its point: the departure bit at position 0, the arrival bit at
    /// position 4, both in between.
    pub open spec fn role_mask(self, i: int) -> u8 {
        if i == 0 {
            self.out_mask()
        } else if i == 4 {
            self.in_mask()
        } else {
            self.inout_mask()
        }
    }

    /// The positions, from the first of the pair up to but not including
    /// the second, that a point with the flag byte `flags` may hold on a new
    /// line along this axis: none if the point is interior to a line of the
    /// axis, only position 0 if a line of the axis arrives at it, only
    /// position 4 if one departs from it, all five otherwise.
    pub open spec fn offsets(self, flags: u8) -> (int, int) {
        if flags & self.inout_mask() == self.inout_mask() {
            (0, 0)
        } else if flags & self.in_mask() != 0 {
            (0, 1)
        } else if flags & self.out_mask() != 0 {
            (4, 5)
        } else {
            (0, 5)
        }
    }

    /// Computes `offsets(flags)`.
    pub fn offset_range(self, flags: u8) -> (r: (i16, i16))
        ensures
            r.0 == self.offsets(flags).0,
            r.1 == self.offsets(flags).1,
    {
        let inout = self.get_inout_mask();
        if flags & inout == inout {
            (0, 0)
        } else if flags & self.get_in_mask() > 0 {
            (0, 1)
        } else if flags & self.get_out_mask() > 0 {
            (4, 5)
        } else {
            (0, 5)
        }
    }

    #[inline]
    pub fn single_step(&self) -> (d: (i16, i16))
        ensures
            d.0 == self.dx(),
            d.1 == self.dy(),
    {
        match self {
            Direction::H => (1, 0),
            Direction::V => (0, 1),
            Direction::SP => (1, 1),
            Direction::SN => (1, -1),
        }
    }

    #[inline]
    pub fn full_step(&self) -> (d: (i16, i16))
        ensures
            d.0 == 4 * self.dx(),
            d.1 == 4 * self.dy(),
    {
        match self {
            Direction::H => (4, 0),
            Direction::V => (0, 4),
            Direction::SP => (4, 4),
            Direction::SN => (4, -4),
        }
    }

    #[inline]
    pub fn opposite_single_step(&self) -> (d: (i16, i16))
        ensures
            d.0 == -self.dx(),
            d.1 == -self.dy(),
    {
        match self {
            Direction::H => (-1, 0),
            Direction::V => (0, -1),
            Direction::SP => (-1, -1),
            Direction::SN => (-1, 1),
        }
    }

    #[inline]
    pub fn opposite_full_step(&self) -> (d: (i16, i16))
        ensures
            d.0 == -4 * self.dx(),
            d.1 == -4 * self.dy(),
    {
        match self {
            Direction::H => (-4, 0),
            Direction::V => (0, -4),
            Direction::SP => (-4, -4),
            Direction::SN => (-4, 4),
        }
    }

    /// The mask to `|` into a flag byte to set the arrival bit.
    #[inline]
    pub fn set_in_t_mask(self) -> (m: u8)
        ensures
            m == self.in_mask(),
    {
        match self {
            Direction::V => 0b00000001,
            Direction::SP => 0b00000010,
            Direction::H => 0b00000100,
            Direction::SN => 0b00001000,
        }
    }

    /// The mask to `&` into a flag byte to clear the arrival bit.
    #[inline]
    pub fn set_in_f_mask(self) -> (m: u8)
        ensures
            m == !self.in_mask(),
    {
        assert(!0x01u8 == 0xfe && !0x02u8 == 0xfd && !0x04u8 == 0xfb && !0x08u8 == 0xf7)
            by (bit_vector);
        match self {
            Direction::V => 0b11111110,
            Direction::SP => 0b11111101,
            Direction::H => 0b11111011,
            Direction::SN => 0b11110111,
        }
    }

    /// The mask to `|` into a flag byte to set the departure bit.
    #[inline]
    pub fn set_out_t_mask(self) -> (m: u8)
        ensures
            m == self.out_mask(),
    {
        match self {
            Direction::V => 0b00010000,
            Direction::SP => 0b00100000,
            Direction::H => 0b01000000,
            Direction::SN => 0b10000000,
        }
    }

    /// The mask to `&` into a flag byte to clear the departure bit.
    #[inline]
    pub fn set_out_f_mask(self) -> (m: u8)
        ensures
            m == !self.out_mask(),
    {
        assert(!0x10u8 == 0xef && !0x20u8 == 0xdf && !0x40u8 == 0xbf && !0x80u8 == 0x7f)
            by (bit_vector);
        match self {
            Direction::V => 0b11101111,
            Direction::SP => 0b11011111,
            Direction::H => 0b10111111,
            Direction::SN => 0b01111111,
        }
    }

    /// The mask to `|` into a flag byte to set both bits.
    #[inline]
    pub fn set_inout_t_mask(self) -> (m: u8)
        ensures
            m == self.inout_mask(),
    {
        match self {
            Direction::V => 0b00010001,
            Direction::SP => 0b00100010,
            Direction::H => 0b01000100,
            Direction::SN => 0b10001000,
        }
    }

    /// The mask to `&` into a flag byte to clear both bits.
    #[inline]
    pub fn set_inout_f_mask(self) -> (m: u8)
        ensures
            m == !self.inout_mask(),
    {
        assert(!0x11u8 == 0xee && !0x22u8 == 0xdd && !0x44u8 == 0xbb && !0x88u8 == 0x77)
            by (bit_vector);
        match self {
            Direction::V => 0b11101110,
            Direction::SP => 0b11011101,
            Direction::H => 0b10111011,
            Direction::SN => 0b01110111,
        }
    }

    /// The mask that reads the arrival bit.
    #[inline]
    pub fn get_in_mask(self) -> (m: u8)
        ensures
            m == self.in_mask(),
    {
        match self {
            Direction::V => 0b00000001,
            Direction::SP => 0b00000010,
            Direction::H => 0b00000100,
            Direction::SN => 0b00001000,
        }
    }

    /// The mask that reads the departure bit.
    #[inline]
    pub fn get_out_mask(self) -> (m: u8)
        ensures
            m == self.out_mask(),
    {
        match self {
            Direction::V => 0b00010000,
            Direction::SP => 0b00100000,
            Direction::H => 0b01000000,
            Direction::SN => 0b10000000,
        }
    }

    /// The mask that reads both bits.
    #[inline]
    pub fn get_inout_mask(self) -> (m: u8)
        ensures
            m == self.inout_mask(),
    {
        match self {
            Direction::V => 0b00010001,
            Direction::SP => 0b00100010,
            Direction::H => 0b01000100,
            Direction::SN => 0b10001000,
        }
    }
}

/// A line of five consecutive lattice points: the anchor and the four points
/// that follow it along the axis. Position 0 is the departure end, position 4
/// the arrival end, positions 1 to 3 are interior.
#[derive(PartialEq, Eq, Structural, Copy, Clone, Hash, Debug)]
pub struct Line {
    pub start_x: i16,
    pub start_y: i16,
    pub direction: Direction,
}

impl Line {
    /// Horizontal coordinate of position `i`, as a mathematical integer.
    pub open spec fn x_at(self, i: int) -> int {
        self.start_x + i * self.direction.dx()
    }

    /// Vertical coordinate of position `i`, as a mathematical integer.
    pub open spec fn y_at(self, i: int) -> int {
        self.start_y + i * self.direction.dy()
    }

    /// All five points have coordinates that the machine can represent.
    pub open spec fn fits(self) -> bool {
        &&& i16::MIN <= self.x_at(4) <= i16::MAX
        &&& i16::MIN <= self.y_at(4) <= i16::MAX
    }

    /// The point at position `i` (meaningful for `0 <= i <= 4` on a line
    /// that fits).
    pub open spec fn point_at(self, i: int) -> Point {
        Point { x: self.x_at(i) as i16, y: self.y_at(i) as i16 }
    }

    /// The five points in order.
    pub open spec fn points(self) -> Seq<Point> {
        Seq::new(5, |i: int| self.point_at(i))
    }

    /// `p` is one of the five points.
    pub open spec fn covers(self, p: Point) -> bool {
        exists|i: int| 0 <= i < 5 && self.point_at(i) == p
    }

    /// The flag bits that position `i` occupies on its point.
    pub open spec fn role_mask(self, i: int) -> u8 {
        self.direction.role_mask(i)
    }

    /// The flag bits that this line occupies on `p`: the role mask of the
    /// position that `p` holds, or no bit if the line does not cover `p`.
    pub open spec fn mask_at(self, p: Point) -> u8 {
        if p == self.point_at(0) {
            self.role_mask(0)
        } else if p == self.point_at(1) {
            self.role_mask(1)
        } else if p == self.point_at(2) {
            self.role_mask(2)
        } else if p == self.point_at(3) {
            self.role_mask(3)
        } else if p == self.point_at(4) {
            self.role_mask(4)
        } else {
            0
        }
    }

    /// The bits that the first `n` positions of this line occupy on `p`.
    pub open spec fn mask_before(self, p: Point, n: int) -> u8 {
        if n > 0 && p == self.point_at(0) {
            self.role_mask(0)
        } else if n > 1 && p == self.point_at(1) {
            self.role_mask(1)
        } else if n > 2 && p == self.point_at(2) {
            self.role_mask(2)
        } else if n > 3 && p == self.point_at(3) {
            self.role_mask(3)
        } else if n > 4 && p == self.point_at(4) {
            self.role_mask(4)
        } else {
            0
        }
    }

    /// The single integer that identifies this line: the packed anchor, with
    /// the axis above it.
    pub open spec fn packed_value(self) -> int {
        (Point { x: self.start_x, y: self.start_y }).packed_value() + self.direction.in_mask()
            * 0x1_0000_0000
    }

    /// The line along `direction` on which `start` holds position `offset`.
    pub fn new(start: Point, direction: Direction, offset: i16) -> (line: Self)
        requires
            0 <= offset <= 4,
            i16::MIN <= start.x - offset * direction.dx() <= i16::MAX,
            i16::MIN <= start.y - offset * direction.dy() <= i16::MAX,
        ensures
            line.start_x == start.x - offset * direction.dx(),
            line.start_y == start.y - offset * direction.dy(),
            line.direction == direction,
    {
        let Point { x: mut start_x, y: mut start_y } = start;
        let (step_x, step_y) = direction.opposite_single_step();
        assert(step_x * offset == -(offset * direction.dx()) && step_y * offset == -(offset
            * direction.dy())) by (nonlinear_arith)
            requires
                step_x == -direction.dx(),
                step_y == -direction.dy(),
        ;
        assert(-4 <= step_x * offset <= 4 && -4 <= step_y * offset <= 4) by (nonlinear_arith)
            requires
                -1 <= step_x <= 1,
                -1 <= step_y <= 1,
                0 <= offset <= 4,
        ;
        start_x += step_x * offset;
        start_y += step_y * offset;
        Line { start_x, start_y, direction }
    }

    /// The anchor: the point at position 0.
    pub fn start_point(&self) -> (p: Point)
        ensures
            p == (Point { x: self.start_x, y: self.start_y }),
            p == self.point_at(0),
    {
        Point::new(self.start_x, self.start_y)
    }

    /// Packs anchor and axis into one integer. Distinct lines pack to
    /// distinct integers (see `lemma_line_packed_injective`).
    pub fn packed(&self) -> (r: i64)
        ensures
            r == self.packed_value(),
    {
        let x: i16 = self.start_x;
        let m: u8 = self.direction.set_in_t_mask();
        let mid: i64 = (x as i64) << 16;
        let hi: i64 = (m as i64) << 32;
        assert(mid == x * 65536 && hi == m * 0x1_0000_0000) by (bit_vector)
            requires
                mid == (x as i64) << 16,
                hi == (m as i64) << 32,
        ;
        mid + self.start_y as i64 + hi
    }

    /// The five points of the line, handed out one at a time.
    pub fn iter(&self) -> (it: SetIter)
        requires
            self.fits(),
        ensures
            it.wf(),
            it.upcoming() == self.points(),
    {
        let (dx, dy) = self.direction.single_step();
        let it = SetIter { x: self.start_x, y: self.start_y, dx, dy, step: 0 };
        assert(it.upcoming() =~= self.points());
        it
    }
}

/// Two lines with the same packed value are the same line.
pub proof fn lemma_line_packed_injective(a: Line, b: Line)
    requires
        a.packed_value() == b.packed_value(),
    ensures
        a == b,
{
    let pa = Point { x: a.start_x, y: a.start_y };
    let pb = Point { x: b.start_x, y: b.start_y };
    assert(a.direction.in_mask() == b.direction.in_mask());
    crate::point::lemma_packed_injective(pa, pb);
}

/// The points of a line that fits are pairwise distinct, and each coordinate
/// is the anchor's moved by the position times the unit step.
pub proof fn lemma_line_points(line: Line)
    requires
        line.fits(),
    ensures
        forall|i: int|
            0 <= i < 5 ==> (#[trigger] line.point_at(i)).x == line.x_at(i) && line.point_at(i).y
                == line.y_at(i),
        forall|i: int, j: int|
            0 <= i < 5 && 0 <= j < 5 && i != j ==> #[trigger] line.point_at(i)
                != #[trigger] line.point_at(j),
{
    assert forall|i: int| 0 <= i < 5 implies (#[trigger] line.point_at(i)).x == line.x_at(i)
        && line.point_at(i).y == line.y_at(i) by {
        lemma_position_in_range(line, i);
    }
    assert forall|i: int, j: int| 0 <= i < 5 && 0 <= j < 5 && i != j implies #[trigger]
        line.point_at(i) != #[trigger] line.point_at(j) by {
        lemma_position_in_range(line, i);
        lemma_position_in_range(line, j);
        let d = line.direction;
        assert(i * d.dx() != j * d.dx() || i * d.dy() != j * d.dy()) by (nonlinear_arith)
            requires
                i != j,
                (d.dx() == 1 || d.dx() == 0),
                (d.dx() == 0 ==> d.dy() == 1),
        ;
    }
}

/// How the three masks of one axis relate, for any flag byte `f`.
proof fn lemma_axis_bits(f: u8, i: u8, o: u8, io: u8)
    by (bit_vector)
    requires
        (i == 0x01 && o == 0x10 && io == 0x11) || (i == 0x02 && o == 0x20 && io == 0x22) || (i
            == 0x04 && o == 0x40 && io == 0x44) || (i == 0x08 && o == 0x80 && io == 0x88),
    ensures
        io == i | o,
        f & io == io <==> f & i != 0 && f & o != 0,
        f & io == 0 <==> f & i == 0 && f & o == 0,
        f == 255 ==> f & io == io,
{
}

/// A position whose role is free on a point with the flag byte `flags` lies
/// within the range of positions that `offsets` gives for that byte; and a
/// byte with all bits set leaves no role free.
pub proof fn lemma_free_role_in_range(direction: Direction, flags: u8, i: int)
    requires
        0 <= i < 5,
        flags & direction.role_mask(i) == 0,
    ensures
        direction.offsets(flags).0 <= i < direction.offsets(flags).1,
        flags != 255,
{
    lemma_axis_bits(flags, direction.in_mask(), direction.out_mask(), direction.inout_mask());
}

/// The point at the next position is the point at this position, moved by
/// one step along the axis; neither coordinate leaves what the machine can
/// represent.
pub proof fn lemma_next_position(line: Line, i: int)
    requires
        line.fits(),
        0 <= i < 4,
    ensures
        line.point_at(i + 1).x == line.point_at(i).x + line.direction.dx(),
        line.point_at(i + 1).y == line.point_at(i).y + line.direction.dy(),
{
    lemma_position_in_range(line, i);
    lemma_position_in_range(line, i + 1);
    lemma_unit_multiple(i, line.direction.dx());
    lemma_unit_multiple(i, line.direction.dy());
    lemma_unit_multiple(i + 1, line.direction.dx());
    lemma_unit_multiple(i + 1, line.direction.dy());
}

/// A line leaves no mark on a point that it does not cover.
pub proof fn lemma_off_the_line(line: Line, q: Point)
    requires
        !line.covers(q),
    ensures
        line.mask_at(q) == 0,
{
    if line.mask_at(q) != 0 {
        assert(line.point_at(0) == q || line.point_at(1) == q || line.point_at(2) == q
            || line.point_at(3) == q || line.point_at(4) == q);
    }
}

/// A multiple of a unit step, without the multiplication.
pub proof fn lemma_unit_multiple(k: int, d: int)
    requires
        -1 <= d <= 1,
    ensures
        k * d == (if d == 1 {
            k
        } else if d == 0 {
            0
        } else {
            -k
        }),
{
    assert(k * 1 == k && k * 0 == 0 && k * (-1) == -k) by (nonlinear_arith);
}

/// Every position of a line that fits has representable coordinates.
pub proof fn lemma_position_in_range(line: Line, i: int)
    requires
        line.fits(),
        0 <= i < 5,
    ensures
        i16::MIN <= line.x_at(i) <= i16::MAX,
        i16::MIN <= line.y_at(i) <= i16::MAX,
        line.point_at(i).x == line.x_at(i),
        line.point_at(i).y == line.y_at(i),
{
    let d = line.direction;
    let dx = d.dx();
    let dy = d.dy();
    assert(-1 <= dx <= 1 && -1 <= dy <= 1);
    assert((0 <= i * dx <= 4 * dx || 4 * dx <= i * dx <= 0) && (0 <= i * dy <= 4 * dy || 4 * dy
        <= i * dy <= 0)) by (nonlinear_arith)
        requires
            0 <= i < 5,
            -1 <= dx <= 1,
            -1 <= dy <= 1,
    ;
}

/// Hands out the five points of a line, from the anchor on.
#[derive(Copy, Clone)]
pub struct SetIter {
    x: i16,
    y: i16,
    dx: i16,
    dy: i16,
    step: u8,
}

impl SetIter {
    /// The points not yet handed out can all be computed.
    pub closed spec fn wf(self) -> bool {
        &&& self.step <= 5
        &&& -1 <= self.dx <= 1
        &&& -1 <= self.dy <= 1
        &&& self.step < 5 ==> {
            &&& i16::MIN <= self.x + (4 - self.step) * self.dx <= i16::MAX
            &&& i16::MIN <= self.y + (4 - self.step) * self.dy <= i16::MAX
        }
    }

    /// The points not yet handed out, in the order in which they will come.
    pub closed spec fn upcoming(self) -> Seq<Point> {
        Seq::new(
            (5 - self.step) as nat,
            |k: int| Point { x: (self.x + k * self.dx) as i16, y: (self.y + k * self.dy) as i16 },
        )
    }

    /// Hands out the next point, or `None` once all five are out.
    pub fn next(&mut self) -> (r: Option<Point>)
        requires
            old(self).wf(),
        ensures
            final(self).wf(),
            old(self).upcoming().len() == 0 ==> r.is_none() && *final(self) == *old(self),
            old(self).upcoming().len() > 0 ==> r == Some(old(self).upcoming()[0])
                && final(self).upcoming() == old(self).upcoming().skip(1),
    {
        if self.step < 5 {
            let out = Point::new(self.x, self.y);
            let ghost before = *self;
            if self.step < 4 {
                proof {
                    lemma_unit_multiple(4 - self.step, self.dx as int);
                    lemma_unit_multiple(4 - self.step, self.dy as int);
                }
                self.x += self.dx;
                self.y += self.dy;
            }
            self.step += 1;
            proof {
                let rest = before.upcoming().skip(1);
                assert forall|k: int| 0 <= k < rest.len() implies self.upcoming()[k]
                    == rest[k] by {
                    lemma_unit_multiple(k, before.dx as int);
                    lemma_unit_multiple(k, before.dy as int);
                    lemma_unit_multiple(k + 1, before.dx as int);
                    lemma_unit_multiple(k + 1, before.dy as int);
                }
                assert(self.upcoming() =~= rest);
                lemma_unit_multiple(4 - before.step, before.dx as int);
                lemma_unit_multiple(4 - before.step, before.dy as int);
                lemma_unit_multiple(4 - self.step, before.dx as int);
                lemma_unit_multiple(4 - self.step, before.dy as int);
            }
            Some(out)
        } else {
            None
        }
    }
}

} // verus!
