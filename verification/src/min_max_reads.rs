//! The bounds on how many reads a k-mer group may have and still produce
//! read pairs.
use vstd::prelude::*;

verus! {

/// The minimum and maximum number of reads that constitute a valid group.
/// The minimum is clamped to at least 2 on construction: a group of one read
/// can form no pair.
#[derive(Clone, Copy, Debug)]
pub struct MinMaxReads {
    min: usize,
    max: usize,
}

impl MinMaxReads {
    pub closed spec fn spec_min(self) -> usize {
        self.min
    }

    pub closed spec fn spec_max(self) -> usize {
        self.max
    }

    /// A group size within the bounds.
    pub open spec fn spec_is_valid(self, value: int) -> bool {
        self.spec_min() <= value <= self.spec_max()
    }

    pub fn new(min: usize, max: usize) -> (r: Self)
        ensures
            r.spec_min() == (if min < 2 {
                2usize
            } else {
                min
            }),
            r.spec_max() == max,
            r.spec_min() >= 2,
    {
        Self { min: if min < 2 { 2 } else { min }, max }
    }

    pub fn is_valid(&self, value: usize) -> (r: bool)
        ensures
            r == self.spec_is_valid(value as int),
    {
        value >= self.min && value <= self.max
    }
}

impl Default for MinMaxReads {
    /// Any group of at least two reads is valid.
    fn default() -> (r: Self)
        ensures
            r.spec_min() == 2,
            r.spec_max() == usize::MAX,
    {
        Self { min: 2, max: usize::MAX }
    }
}

} // verus!
