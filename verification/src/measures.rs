//! Ready-made measures: the size monoid, under which a tree indexes its
//! elements by position, and a threshold predicate over sizes.

use vstd::prelude::*;

use crate::monoid::MeasurePred;
use crate::monoid::Monoid;
use crate::persistent::Measurable;

verus! {

/// The size measure: combine adds, saturating at the top of `u64`, and the
/// identity is zero.
#[derive(Clone, Copy, Debug, PartialEq, Eq)]
pub struct Size(pub u64);

impl Monoid for Size {
    open spec fn sid() -> Self {
        Size(0)
    }

    open spec fn sop(self, other: Self) -> Self {
        if self.0 + other.0 > u64::MAX {
            Size(u64::MAX)
        } else {
            Size((self.0 + other.0) as u64)
        }
    }

    proof fn lemma_assoc(a: Self, b: Self, c: Self) {
    }

    proof fn lemma_identity(a: Self) {
    }

    fn identity() -> (r: Self) {
        Size(0)
    }

    fn combine(self, other: Self) -> (r: Self) {
        if self.0 <= u64::MAX - other.0 {
            Size(self.0 + other.0)
        } else {
            Size(u64::MAX)
        }
    }
}

/// Under the size measure every element counts as one.
impl Measurable<Size> for u64 {
    open spec fn smeasure(self) -> Size {
        Size(1)
    }

    fn measure(&self) -> (r: Size) {
        Size(1)
    }
}

/// Holds once the accumulated size exceeds the threshold.
#[derive(Clone, Copy, Debug, PartialEq, Eq)]
pub struct SizeAbove(pub u64);

impl MeasurePred<Size> for SizeAbove {
    open spec fn pred(self, v: Size) -> bool {
        v.0 > self.0
    }

    fn test(&self, v: Size) -> (r: bool) {
        v.0 > self.0
    }
}

/// A size threshold stays exceeded as more sizes are combined on the right.
pub proof fn lemma_size_above_monotone(p: SizeAbove)
    ensures
        crate::monoid::monotone(p),
{
}

} // verus!
