//! Lattice points.

use vstd::prelude::*;

verus! {

/// A point of the integer lattice.
#[derive(PartialEq, Eq, Structural, Copy, Clone, Debug, Hash)]
pub struct Point {
    pub x: i16,
    pub y: i16,
}

impl Point {
    /// The single integer that identifies this point: `x` in the high half,
    /// `y` added to it.
    pub open spec fn packed_value(self) -> int {
        self.x * 65536 + self.y
    }

    /// The quadrant of the plane that holds this point, counted
    /// counter-clockwise from the one with `x > 0` and `y >= 0`.
    pub open spec fn quadrant_value(self) -> int {
        if self.x > 0 && self.y >= 0 {
            0
        } else if self.x <= 0 && self.y >= 0 {
            1
        } else if self.x <= 0 && self.y < 0 {
            2
        } else {
            3
        }
    }

    #[inline]
    pub fn new(x: i16, y: i16) -> (p: Self)
        ensures
            p == (Point { x, y }),
    {
        Point { x, y }
    }

    /// Moves the point by the vector `d`.
    #[inline]
    pub fn step(&mut self, d: (i16, i16))
        requires
            i16::MIN <= old(self).x + d.0 <= i16::MAX,
            i16::MIN <= old(self).y + d.1 <= i16::MAX,
        ensures
            final(self).x == old(self).x + d.0,
            final(self).y == old(self).y + d.1,
    {
        self.x += d.0;
        self.y += d.1;
    }

    /// Packs both coordinates into one integer. Distinct points pack to
    /// distinct integers (see `lemma_packed_injective`).
    #[inline]
    pub fn packed(&self) -> (r: i32)
        requires
            self.packed_value() >= i32::MIN,
        ensures
            r == self.packed_value(),
    {
        let x: i16 = self.x;
        let hi: i32 = (x as i32) << 16;
        assert(hi == x * 65536) by (bit_vector)
            requires
                hi == (x as i32) << 16,
        ;
        hi + self.y as i32
    }

    #[inline]
    pub fn quadrant(&self) -> (q: u8)
        ensures
            q == self.quadrant_value(),
    {
        match (self.x > 0, self.y >= 0) {
            (true, true) => 0,
            (false, true) => 1,
            (false, false) => 2,
            (true, false) => 3,
        }
    }
}

/// Two points with the same packed value are the same point.
pub proof fn lemma_packed_injective(p: Point, q: Point)
    requires
        p.packed_value() == q.packed_value(),
    ensures
        p == q,
{
    assert(p.x == q.x) by (nonlinear_arith)
        requires
            p.x * 65536 + p.y == q.x * 65536 + q.y,
            -32768 <= p.y <= 32767,
            -32768 <= q.y <= 32767,
    ;
}

} // verus!
