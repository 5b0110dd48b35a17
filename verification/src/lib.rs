//! Stride-based search for nice numbers: numbers whose square and cube
//! together use every digit of a base exactly once.

use vstd::prelude::*;

pub mod affine_filter;
pub mod certificate;
pub mod client_process;
pub mod digits;
pub mod distinct;
pub mod guarantees;
pub mod listing;
pub mod lsd_filter;
pub mod mask;
pub mod nice;
pub mod phase1;
pub mod residue_filter;
pub mod stride_filter;
pub mod stride_search;
pub mod wide;

verus! {

/// A half-open range of numbers, `start` up to but not including `end`.
#[derive(Clone, Copy, Debug, PartialEq, Eq)]
pub struct FieldSize {
    range_start: u128,
    range_end: u128,
}

impl FieldSize {
    /// The first number of the range.
    pub closed spec fn lo(self) -> int {
        self.range_start as int
    }

    /// The first number past the range.
    pub closed spec fn hi(self) -> int {
        self.range_end as int
    }

    /// A range ends no earlier than it starts.
    #[verifier::type_invariant]
    spec fn is_ordered(self) -> bool {
        self.range_start <= self.range_end
    }

    /// The bounds of a range are `u128` values.
    pub proof fn lemma_bounds(self)
        ensures
            0 <= self.lo() <= u128::MAX,
            0 <= self.hi() <= u128::MAX,
    {
    }

    /// The numbers from `start` up to `end`.
    pub fn new(start: u128, end: u128) -> (range: Self)
        requires
            start <= end,
        ensures
            range.lo() == start,
            range.hi() == end,
    {
        FieldSize { range_start: start, range_end: end }
    }

    /// The first number of the range.
    pub fn start(&self) -> (start: u128)
        ensures
            start == self.lo(),
            start <= self.hi(),
    {
        proof {
            use_type_invariant(self);
        }
        self.range_start
    }

    /// The first number past the range.
    pub fn end(&self) -> (end: u128)
        ensures
            end == self.hi(),
            self.lo() <= end,
    {
        proof {
            use_type_invariant(self);
        }
        self.range_end
    }

    /// How many numbers the range holds.
    pub fn size(&self) -> (size: u128)
        ensures
            size == self.hi() - self.lo(),
    {
        proof {
            use_type_invariant(self);
        }
        self.range_end - self.range_start
    }
}

/// A nice number and the number of distinct digits in its square and cube.
#[derive(Clone, Copy, Debug, PartialEq, Eq)]
pub struct NiceNumberSimple {
    pub number: u128,
    pub num_uniques: u32,
}

} // verus!
