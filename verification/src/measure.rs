//! The arithmetic of distances in a text over the mathematical integers.

use vstd::prelude::*;

verus! {

/// A pair of a line count and a byte count over the mathematical integers.
///
/// It is the common model of a [`crate::Length`] (a distance) and of a
/// [`crate::Point`] (the distance from the start of a text).
pub struct Measure {
    pub lines: int,
    pub bytes: int,
}

impl Measure {
    /// The empty distance.
    pub open spec fn zero() -> Measure {
        Measure { lines: 0, bytes: 0 }
    }

    /// Neither component is negative.
    pub open spec fn nonneg(self) -> bool {
        0 <= self.lines && 0 <= self.bytes
    }

    /// Both components can be held in a `usize`.
    pub open spec fn fits(self) -> bool {
        0 <= self.lines <= usize::MAX && 0 <= self.bytes <= usize::MAX
    }

    /// `self` followed by `other`: a distance that crosses no line break
    /// extends the byte count, any other one starts a new byte count.
    pub open spec fn plus(self, other: Measure) -> Measure {
        if other.lines == 0 {
            Measure { lines: self.lines, bytes: self.bytes + other.bytes }
        } else {
            Measure { lines: self.lines + other.lines, bytes: other.bytes }
        }
    }

    /// What has to follow `other` to arrive at `self`.
    pub open spec fn minus(self, other: Measure) -> Measure {
        if self.lines == other.lines {
            Measure { lines: 0, bytes: self.bytes - other.bytes }
        } else {
            Measure { lines: self.lines - other.lines, bytes: self.bytes }
        }
    }

    /// Document order: by line, then by byte.
    pub open spec fn le(self, other: Measure) -> bool {
        self.lines < other.lines || (self.lines == other.lines && self.bytes <= other.bytes)
    }

    /// Strict document order.
    pub open spec fn lt(self, other: Measure) -> bool {
        self.lines < other.lines || (self.lines == other.lines && self.bytes < other.bytes)
    }
}

/// The empty distance changes nothing, on either side.
pub proof fn lemma_plus_zero(a: Measure)
    ensures
        a.plus(Measure::zero()) == a,
        a.nonneg() ==> Measure::zero().plus(a) == a,
{
}

/// Going on from `a` by the distance that separates it from a later `b`
/// arrives at `b`.
pub proof fn lemma_plus_minus(a: Measure, b: Measure)
    requires
        a.le(b),
    ensures
        a.plus(b.minus(a)) == b,
        a.nonneg() && b.nonneg() ==> b.minus(a).nonneg(),
{
}

/// The distance between `a` and what lies `b` after it is `b`.
pub proof fn lemma_minus_plus(a: Measure, b: Measure)
    requires
        b.nonneg(),
    ensures
        a.plus(b).minus(a) == b,
        a.le(a.plus(b)),
{
}

} // verus!
