//! Lengths: distances in a text, as line breaks crossed and bytes after
//! the last of them.

use vstd::prelude::*;
use crate::measure::Measure;
use std::cmp::Ordering;
use std::ops::{Add, AddAssign, Sub, SubAssign};

verus! {

/// A relative span of text: the number of line breaks it crosses, and the
/// number of bytes that follow the last of them.
#[derive(Clone, Copy, Debug, Hash, PartialEq, Eq, Structural, Ord)]
pub struct Length {
    pub lines: usize,
    pub bytes: usize,
}

impl View for Length {
    type V = Measure;

    open spec fn view(&self) -> Measure {
        Measure { lines: self.lines as int, bytes: self.bytes as int }
    }
}

impl Length {
    /// The length that models `measure`, which has to fit.
    pub open spec fn of(measure: Measure) -> Length {
        Length { lines: measure.lines as usize, bytes: measure.bytes as usize }
    }

    pub fn new(lines: usize, bytes: usize) -> (length: Self)
        ensures
            length.lines == lines,
            length.bytes == bytes,
    {
        Self { lines, bytes }
    }
}

impl Default for Length {
    fn default() -> (length: Self)
        ensures
            length@ == Measure::zero(),
    {
        Self { lines: 0, bytes: 0 }
    }
}

impl PartialOrd for Length {
    fn partial_cmp(&self, other: &Self) -> (order: Option<Ordering>) {
        if self.lines < other.lines {
            Some(Ordering::Less)
        } else if self.lines > other.lines {
            Some(Ordering::Greater)
        } else if self.bytes < other.bytes {
            Some(Ordering::Less)
        } else if self.bytes > other.bytes {
            Some(Ordering::Greater)
        } else {
            Some(Ordering::Equal)
        }
    }
}

impl vstd::std_specs::cmp::PartialOrdSpecImpl for Length {
    open spec fn obeys_partial_cmp_spec() -> bool {
        true
    }

    /// Lengths are ordered by their line count, then by their byte count.
    open spec fn partial_cmp_spec(&self, other: &Self) -> Option<Ordering> {
        if self.lines < other.lines {
            Some(Ordering::Less)
        } else if self.lines > other.lines {
            Some(Ordering::Greater)
        } else if self.bytes < other.bytes {
            Some(Ordering::Less)
        } else if self.bytes > other.bytes {
            Some(Ordering::Greater)
        } else {
            Some(Ordering::Equal)
        }
    }
}

impl Add for Length {
    type Output = Self;

    fn add(self, other: Self) -> (sum: Self) {
        if other.lines == 0 {
            Self { lines: self.lines, bytes: self.bytes + other.bytes }
        } else {
            Self { lines: self.lines + other.lines, bytes: other.bytes }
        }
    }
}

impl vstd::std_specs::ops::AddSpecImpl for Length {
    open spec fn obeys_add_spec() -> bool {
        true
    }

    /// The sum has to fit in the machine's integers.
    open spec fn add_req(self, other: Self) -> bool {
        self@.plus(other@).fits()
    }

    open spec fn add_spec(self, other: Self) -> Self {
        Length::of(self@.plus(other@))
    }
}

impl AddAssign for Length {
    fn add_assign(&mut self, other: Self)
        requires
            old(self)@.plus(other@).fits(),
        ensures
            final(self)@ == old(self)@.plus(other@),
    {
        *self = *self + other;
    }
}

impl Sub for Length {
    type Output = Self;

    fn sub(self, other: Self) -> (difference: Self) {
        if self.lines == other.lines {
            Self { lines: 0, bytes: self.bytes - other.bytes }
        } else {
            Self { lines: self.lines - other.lines, bytes: self.bytes }
        }
    }
}

impl vstd::std_specs::ops::SubSpecImpl for Length {
    open spec fn obeys_sub_spec() -> bool {
        true
    }

    /// The subtrahend must not be the longer of the two.
    open spec fn sub_req(self, other: Self) -> bool {
        other@.le(self@)
    }

    open spec fn sub_spec(self, other: Self) -> Self {
        Length::of(self@.minus(other@))
    }
}

impl SubAssign for Length {
    fn sub_assign(&mut self, other: Self)
        requires
            other@.le(old(self)@),
        ensures
            final(self)@ == old(self)@.minus(other@),
    {
        *self = *self - other;
    }
}

} // verus!
