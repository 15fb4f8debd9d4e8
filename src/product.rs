use vstd::prelude::*;
use crate::operation::O2;
use crate::set::Setoid;
use crate::structure::group::Group;
use crate::structure::monoid::Monoid;
use crate::structure::ring::{Ring, RingOperations};

verus! {

/// Pairs are compared componentwise.
impl<A: Setoid, B: Setoid> Setoid for (A, B) {
    open spec fn eqv(a: (A::V, B::V), b: (A::V, B::V)) -> bool {
        A::eqv(a.0, b.0) && B::eqv(a.1, b.1)
    }

    proof fn lemma_eqv_equivalence(a: (A::V, B::V), b: (A::V, B::V), c: (A::V, B::V)) {
        A::lemma_eqv_equivalence(a.0, b.0, c.0);
        B::lemma_eqv_equivalence(a.1, b.1, c.1);
    }

    fn equals(&self, other: &Self) -> (r: bool) {
        self.0.equals(&other.0) && self.1.equals(&other.1)
    }

    fn duplicate(&self) -> (r: Self) {
        (self.0.duplicate(), self.1.duplicate())
    }
}

/// Two operations act on pairs componentwise.
impl<S: View, T: View, O: O2<S>, P: O2<T>> O2<(S, T)> for (O, P) {
    open spec fn op(a: (S::V, T::V), b: (S::V, T::V)) -> (S::V, T::V) {
        (O::op(a.0, b.0), P::op(a.1, b.1))
    }

    fn apply(a: (S, T), b: &(S, T)) -> (r: (S, T)) {
        let (s, t) = a;
        (O::apply(s, &b.0), P::apply(t, &b.1))
    }
}

impl<M1: Monoid<T1>, T1: O2<M1>, M2: Monoid<T2>, T2: O2<M2>> Monoid<(T1, T2)> for (M1, M2) {
    open spec fn id() -> (M1::V, M2::V) {
        (M1::id(), M2::id())
    }

    proof fn lemma_associative(a: (M1::V, M2::V), b: (M1::V, M2::V), c: (M1::V, M2::V)) {
        M1::lemma_associative(a.0, b.0, c.0);
        M2::lemma_associative(a.1, b.1, c.1);
    }

    proof fn lemma_identity(a: (M1::V, M2::V)) {
        M1::lemma_identity(a.0);
        M2::lemma_identity(a.1);
    }

    proof fn lemma_congruent(
        a: (M1::V, M2::V),
        b: (M1::V, M2::V),
        c: (M1::V, M2::V),
        d: (M1::V, M2::V),
    ) {
        M1::lemma_congruent(a.0, b.0, c.0, d.0);
        M2::lemma_congruent(a.1, b.1, c.1, d.1);
    }

    fn identity() -> (r: Self) {
        (M1::identity(), M2::identity())
    }
}

impl<M1: Group<T1>, T1: O2<M1>, M2: Group<T2>, T2: O2<M2>> Group<(T1, T2)> for (M1, M2) {
    open spec fn inv(a: (M1::V, M2::V)) -> (M1::V, M2::V) {
        (M1::inv(a.0), M2::inv(a.1))
    }

    proof fn lemma_inverse(a: (M1::V, M2::V)) {
        M1::lemma_inverse(a.0);
        M2::lemma_inverse(a.1);
    }

    proof fn lemma_inverse_congruent(a: (M1::V, M2::V), b: (M1::V, M2::V)) {
        M1::lemma_inverse_congruent(a.0, b.0);
        M2::lemma_inverse_congruent(a.1, b.1);
    }

    fn inverse(self) -> (r: Self) {
        let (a, b) = self;
        (a.inverse(), b.inverse())
    }
}

/// The ring operations of a product of two rings.
impl<R: Ring<O>, O: RingOperations<R>, S: Ring<P>, P: RingOperations<S>> RingOperations<(R, S)> for (
    O,
    P,
) {
    type PLUS = (O::PLUS, P::PLUS);
    type TIMES = (O::TIMES, P::TIMES);
}

/// The product of two rings, with componentwise operations.
impl<R: Ring<O>, O: RingOperations<R>, S: Ring<P>, P: RingOperations<S>> Ring<(O, P)> for (R, S) {
    proof fn lemma_distributive(a: (R::V, S::V), b: (R::V, S::V), c: (R::V, S::V)) {
        R::lemma_distributive(a.0, b.0, c.0);
        S::lemma_distributive(a.1, b.1, c.1);
    }

    proof fn lemma_plus_commutative(a: (R::V, S::V), b: (R::V, S::V)) {
        R::lemma_plus_commutative(a.0, b.0);
        S::lemma_plus_commutative(a.1, b.1);
    }
}

} // verus!
