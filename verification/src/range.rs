//! Ranges: stretches of a text between two points.

use vstd::prelude::*;
use crate::length::Length;
use crate::measure::Measure;
use crate::point::Point;

verus! {

/// The stretch of text between two points.
#[derive(Clone, Copy, Debug, Hash, PartialEq, Eq, Structural)]
pub struct Range {
    pub start: Point,
    pub end: Point,
}

impl Range {
    /// A range runs forward: its start does not come after its end.
    pub open spec fn wf(&self) -> bool {
        self.start@.le(self.end@)
    }

    /// The distance from the start of the range to its end.
    pub open spec fn measure(&self) -> Measure {
        self.end@.minus(self.start@)
    }

    pub fn new(start: Point, end: Point) -> (range: Self)
        requires
            start@.le(end@),
        ensures
            range.start == start,
            range.end == end,
            range.wf(),
    {
        Self { start, end }
    }

    pub fn is_empty(&self) -> (empty: bool)
        requires
            self.wf(),
        ensures
            empty == (self.start == self.end),
            empty == (self.measure() == Measure::zero()),
    {
        self.length() == Length::default()
    }

    pub fn length(&self) -> (length: Length)
        requires
            self.wf(),
        ensures
            length@ == self.measure(),
    {
        self.end - self.start
    }
}

} // verus!
