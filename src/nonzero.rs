use vstd::prelude::*;
use core::marker::PhantomData;
use crate::error::AlgebraError;
use crate::set::{Setoid, Subset};
use crate::structure::ring::{Ring, RingOperations, zero};

verus! {

/// A ring value known to differ from zero.
#[verifier::reject_recursive_types(O)]
pub struct NonZero<R: Ring<O>, O: RingOperations<R>> {
    r: R,
    o: PhantomData<O>,
}

impl<R: Ring<O>, O: RingOperations<R>> NonZero<R, O> {
    #[verifier::type_invariant]
    pub closed spec fn is_nonzero(&self) -> bool {
        !R::eqv(self.r@, zero::<R, O>())
    }
}

impl<R: Ring<O>, O: RingOperations<R>> View for NonZero<R, O> {
    type V = R::V;

    closed spec fn view(&self) -> R::V {
        self.r@
    }
}

impl<R: Ring<O>, O: RingOperations<R>> Setoid for NonZero<R, O> {
    open spec fn eqv(a: R::V, b: R::V) -> bool {
        R::eqv(a, b)
    }

    proof fn lemma_eqv_equivalence(a: R::V, b: R::V, c: R::V) {
        R::lemma_eqv_equivalence(a, b, c);
    }

    fn equals(&self, other: &Self) -> (r: bool) {
        self.r.equals(&other.r)
    }

    fn duplicate(&self) -> (r: Self) {
        proof {
            use_type_invariant(self);
        }
        NonZero { r: self.r.duplicate(), o: PhantomData }
    }
}

impl<R: Ring<O>, O: RingOperations<R>> Subset<R> for NonZero<R, O> {
    open spec fn member(t: R::V) -> bool {
        !R::eqv(t, zero::<R, O>())
    }

    closed spec fn incl(s: Self) -> R::V {
        s.r@
    }

    proof fn lemma_member_respects_eqv(a: R::V, b: R::V) {
        R::lemma_eqv_equivalence(a, b, zero::<R, O>());
    }

    fn contains(t: &R) -> (r: bool) {
        !t.equals(&R::zero())
    }

    fn inclusion(self) -> (r: R) {
        proof {
            use_type_invariant(&self);
        }
        self.r
    }

    fn try_from(t: R) -> (r: Result<Self, AlgebraError>) {
        if Self::contains(&t) {
            Ok(NonZero { r: t, o: PhantomData })
        } else {
            Err(AlgebraError::NotAMember)
        }
    }
}

} // verus!
