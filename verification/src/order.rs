//! A total order that verified code can sort and merge by.
use vstd::prelude::*;

verus! {

/// A total order given by a spec-level relation `le_spec` together with an
/// executable comparison that decides it. Antisymmetry is demanded with
/// respect to spec equality, so sorted sequences of a `RecordOrder` type are
/// unique per multiset of elements.
pub trait RecordOrder: Sized {
    /// The ordering relation itself.
    spec fn le_spec(&self, other: &Self) -> bool;

    proof fn lemma_le_total(a: &Self, b: &Self)
        ensures
            a.le_spec(b) || b.le_spec(a),
    ;

    proof fn lemma_le_transitive(a: &Self, b: &Self, c: &Self)
        requires
            a.le_spec(b),
            b.le_spec(c),
        ensures
            a.le_spec(c),
    ;

    proof fn lemma_le_antisymmetric(a: &Self, b: &Self)
        requires
            a.le_spec(b),
            b.le_spec(a),
        ensures
            a == b,
    ;

    /// Decides `le_spec`.
    fn le(&self, other: &Self) -> (r: bool)
        ensures
            r == self.le_spec(other),
    ;
}

/// The record order as a binary relation value.
pub open spec fn record_le<T: RecordOrder>() -> spec_fn(T, T) -> bool {
    |a: T, b: T| a.le_spec(&b)
}

/// `s` is sorted (non-strictly) under the record order.
pub open spec fn sorted<T: RecordOrder>(s: Seq<T>) -> bool {
    forall|p: int, q: int| 0 <= p < q < s.len() ==> #[trigger] s[p].le_spec(&s[q])
}

impl RecordOrder for u32 {
    open spec fn le_spec(&self, other: &Self) -> bool {
        *self <= *other
    }

    proof fn lemma_le_total(a: &Self, b: &Self) {
    }

    proof fn lemma_le_transitive(a: &Self, b: &Self, c: &Self) {
    }

    proof fn lemma_le_antisymmetric(a: &Self, b: &Self) {
    }

    fn le(&self, other: &Self) -> (r: bool) {
        *self <= *other
    }
}

} // verus!
