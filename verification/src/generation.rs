//! The stabilization counter.

use vstd::prelude::*;

verus! {

/// A non-zero counter that stamps nodes with the stabilization at which they
/// were last ready or last changed.
#[derive(Copy, Clone, Eq, PartialEq, Structural, Ord, PartialOrd, Debug, Hash)]
pub struct Generation(pub u64);

impl Generation {
    /// The number this generation stands for.
    pub open spec fn value(self) -> nat {
        self.0 as nat
    }

    /// A generation is never zero.
    pub open spec fn wf(self) -> bool {
        self.0 >= 1
    }

    /// The generation that follows `self`: one more, and after the largest
    /// value the count starts again at one, skipping zero.
    pub open spec fn successor(self) -> Generation {
        if self.0 == u64::MAX {
            Generation(1)
        } else {
            Generation((self.0 + 1) as u64)
        }
    }

    /// The first generation.
    pub fn new() -> (r: Generation)
        ensures
            r.value() == 1,
            r.wf(),
    {
        Generation(1)
    }

    /// Moves to the following generation.
    pub fn increment(&mut self)
        requires
            old(self).wf(),
        ensures
            *final(self) == old(self).successor(),
            final(self).wf(),
    {
        if self.0 == u64::MAX {
            self.0 = 1;
        } else {
            self.0 = self.0 + 1;
        }
    }

    /// The largest generation: the following one starts the count again.
    pub open spec fn is_last_spec(self) -> bool {
        self.0 == u64::MAX
    }

    /// True when the following generation would start the count again.
    pub fn is_last(&self) -> (r: bool)
        ensures
            r == self.is_last_spec(),
    {
        self.0 == u64::MAX
    }

    /// True when `self` is not later than `other`.
    pub fn not_after(&self, other: &Generation) -> (r: bool)
        ensures
            r == (self.value() <= other.value()),
    {
        self.0 <= other.0
    }
}

} // verus!
