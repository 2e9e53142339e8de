use vstd::prelude::*;

verus! {

/// An identity element together with an associative combine operation over a
/// measure type. The tree caches combined measures at every branch, so the
/// monoid laws are proof obligations on every implementation: a combine that
/// is not associative, or an identity that is not a true unit, would silently
/// corrupt the cached measures.
pub trait Monoid: Copy + Sized {
    /// The identity element, at the specification level.
    spec fn sid() -> Self;

    /// The combine operation, at the specification level.
    spec fn sop(self, other: Self) -> Self;

    /// Combine is associative.
    proof fn lemma_assoc(a: Self, b: Self, c: Self)
        ensures
            a.sop(b).sop(c) == a.sop(b.sop(c)),
    ;

    /// The identity element is a two-sided unit for combine.
    proof fn lemma_identity(a: Self)
        ensures
            Self::sid().sop(a) == a,
            a.sop(Self::sid()) == a,
    ;

    /// Returns the identity element.
    fn identity() -> (r: Self)
        ensures
            r == Self::sid(),
    ;

    /// Combines two measures.
    fn combine(self, other: Self) -> (r: Self)
        ensures
            r == self.sop(other),
    ;
}

/// A predicate over accumulated measures, used to guide `split`. To make
/// `split` meaningful it should be monotonic: once it holds of an accumulated
/// measure it should keep holding as more is combined on the right.
pub trait MeasurePred<V>: Sized {
    /// What the predicate holds of, at the specification level.
    spec fn pred(self, v: V) -> bool;

    /// Tests the predicate on a measure.
    fn test(&self, v: V) -> (r: bool)
        ensures
            r == self.pred(v),
    ;
}

/// A predicate over measures is monotonic when it keeps holding as more is
/// combined on the right: once true of an accumulated measure, it stays true.
pub open spec fn monotone<V: Monoid, P: MeasurePred<V>>(p: P) -> bool {
    forall|a: V, b: V| p.pred(a) ==> #[trigger] p.pred(a.sop(b))
}

} // verus!
