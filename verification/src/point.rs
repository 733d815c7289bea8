//! Points: places in a text, as a line and a byte offset into it.

use vstd::prelude::*;
use crate::length::Length;
use crate::measure::Measure;
use std::cmp::Ordering;
use std::ops::{Add, AddAssign, Sub};

verus! {

/// An absolute position in a text: a line, and a byte offset into that line.
#[derive(Clone, Copy, Debug, Hash, PartialEq, Eq, Structural, Ord)]
pub struct Point {
    pub line: usize,
    pub byte: usize,
}

impl View for Point {
    type V = Measure;

    /// A point is modelled by its distance from the start of the text.
    open spec fn view(&self) -> Measure {
        Measure { lines: self.line as int, bytes: self.byte as int }
    }
}

impl Point {
    /// The point that models `measure`, which has to fit.
    pub open spec fn of(measure: Measure) -> Point {
        Point { line: measure.lines as usize, byte: measure.bytes as usize }
    }

    pub fn new(line: usize, byte: usize) -> (point: Self)
        ensures
            point.line == line,
            point.byte == byte,
    {
        Self { line, byte }
    }
}

impl Default for Point {
    fn default() -> (point: Self)
        ensures
            point@ == Measure::zero(),
    {
        Self { line: 0, byte: 0 }
    }
}

impl PartialOrd for Point {
    fn partial_cmp(&self, other: &Self) -> (order: Option<Ordering>) {
        if self.line < other.line {
            Some(Ordering::Less)
        } else if self.line > other.line {
            Some(Ordering::Greater)
        } else if self.byte < other.byte {
            Some(Ordering::Less)
        } else if self.byte > other.byte {
            Some(Ordering::Greater)
        } else {
            Some(Ordering::Equal)
        }
    }
}

impl vstd::std_specs::cmp::PartialOrdSpecImpl for Point {
    open spec fn obeys_partial_cmp_spec() -> bool {
        true
    }

    /// Document order: by line, then by byte.
    open spec fn partial_cmp_spec(&self, other: &Self) -> Option<Ordering> {
        if self.line < other.line {
            Some(Ordering::Less)
        } else if self.line > other.line {
            Some(Ordering::Greater)
        } else if self.byte < other.byte {
            Some(Ordering::Less)
        } else if self.byte > other.byte {
            Some(Ordering::Greater)
        } else {
            Some(Ordering::Equal)
        }
    }
}

impl Add<Length> for Point {
    type Output = Self;

    fn add(self, length: Length) -> (point: Self) {
        if length.lines == 0 {
            Self::new(self.line, self.byte + length.bytes)
        } else {
            Self::new(self.line + length.lines, length.bytes)
        }
    }
}

impl vstd::std_specs::ops::AddSpecImpl<Length> for Point {
    open spec fn obeys_add_spec() -> bool {
        true
    }

    /// The point arrived at has to fit in the machine's integers.
    open spec fn add_req(self, length: Length) -> bool {
        self@.plus(length@).fits()
    }

    open spec fn add_spec(self, length: Length) -> Self {
        Point::of(self@.plus(length@))
    }
}

impl AddAssign<Length> for Point {
    fn add_assign(&mut self, length: Length)
        requires
            old(self)@.plus(length@).fits(),
        ensures
            final(self)@ == old(self)@.plus(length@),
    {
        *self = *self + length;
    }
}

impl Sub for Point {
    type Output = Length;

    fn sub(self, other: Self) -> (distance: Length) {
        if self.line == other.line {
            Length::new(0, self.byte - other.byte)
        } else {
            Length::new(self.line - other.line, self.byte)
        }
    }
}

impl vstd::std_specs::ops::SubSpecImpl for Point {
    open spec fn obeys_sub_spec() -> bool {
        true
    }

    /// `other` must not come after `self` in document order.
    open spec fn sub_req(self, other: Self) -> bool {
        other@.le(self@)
    }

    open spec fn sub_spec(self, other: Self) -> Length {
        Length::of(self@.minus(other@))
    }
}

} // verus!
