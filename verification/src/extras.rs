//! Walking the four axes in their fixed order.

use crate::line::Direction;
use vstd::prelude::*;

verus! {

/// The four axes in the order in which the engine tries them.
pub open spec fn directions() -> Seq<Direction> {
    seq![Direction::V, Direction::SP, Direction::H, Direction::SN]
}

/// Hands out the four axes in their fixed order.
#[derive(Copy, Clone)]
pub struct DirectionIter {
    d: u8,
}

impl DirectionIter {
    /// The axes not yet handed out, in the order in which they will come.
    pub closed spec fn upcoming(self) -> Seq<Direction> {
        if self.d < 4 {
            directions().skip(self.d as int)
        } else {
            Seq::empty()
        }
    }

    #[inline]
    pub fn new() -> (it: Self)
        ensures
            it.upcoming() == directions(),
    {
        let it = DirectionIter { d: 0 };
        assert(it.upcoming() =~= directions());
        it
    }

    /// Hands out the next axis, or `None` once all four are out.
    pub fn next(&mut self) -> (r: Option<Direction>)
        ensures
            old(self).upcoming().len() == 0 ==> r.is_none() && *final(self) == *old(self),
            old(self).upcoming().len() > 0 ==> r == Some(old(self).upcoming()[0])
                && final(self).upcoming() == old(self).upcoming().skip(1),
    {
        if self.d < 4 {
            let out = match self.d {
                0 => Direction::V,
                1 => Direction::SP,
                2 => Direction::H,
                _ => Direction::SN,
            };
            self.d += 1;
            assert(self.upcoming() =~= old(self).upcoming().skip(1));
            Some(out)
        } else {
            None
        }
    }
}

} // verus!
