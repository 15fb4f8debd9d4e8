use vstd::prelude::*;
use crate::error::AlgebraError;
use crate::nonzero::NonZero;
use crate::operation::O2;
use crate::set::{Setoid, Subset};
use crate::structure::euclidean_ring::EuclideanRing;
use crate::structure::monoid::Monoid;
use crate::structure::ring::{Ring, RingOperations, lemma_ring_laws, neg, one, prod, sum, zero};
use crate::unit::inverse_of;

verus! {

/// A commutative ring whose nonzero elements form a multiplicative group.
pub trait Field<O: RingOperations<Self>>: Ring<O> {
    /// The multiplicative inverse of a nonzero value.
    spec fn recip(a: Self::V) -> Self::V;

    proof fn lemma_reciprocal(a: Self::V)
        requires
            !Self::eqv(a, zero::<Self, O>()),
        ensures
            inverse_of::<Self, O>(a, Self::recip(a)),
    ;

    proof fn lemma_times_commutative(a: Self::V, b: Self::V)
        ensures
            Self::eqv(prod::<Self, O>(a, b), prod::<Self, O>(b, a)),
    ;

    /// The inverse in the multiplicative group of nonzero elements.
    fn nonzero_inverse(a: NonZero<Self, O>) -> (r: NonZero<Self, O>)
        ensures
            <NonZero<Self, O> as Subset<Self>>::incl(r) == Self::recip(
                <NonZero<Self, O> as Subset<Self>>::incl(a),
            ),
    ;

    /// The multiplicative inverse; zero has none.
    fn reciprocal(self) -> (r: Result<Self, AlgebraError>)
        ensures
            Self::eqv(self@, zero::<Self, O>()) <==> r is Err,
            r is Err ==> r->Err_0 == AlgebraError::DivisionByZero,
            r is Ok ==> r->Ok_0@ == Self::recip(self@),
    {
        match <NonZero<Self, O> as Subset<Self>>::try_from(self) {
            Ok(nz) => Ok(Self::nonzero_inverse(nz).inclusion()),
            Err(_) => Err(AlgebraError::DivisionByZero),
        }
    }
}

/// `(a * b^-1) * b = a` for nonzero `b`.
proof fn lemma_divide_back<F: Field<O>, O: RingOperations<F>>(a: F::V, b: F::V)
    requires
        !F::eqv(b, zero::<F, O>()),
    ensures
        F::eqv(prod::<F, O>(prod::<F, O>(a, F::recip(b)), b), a),
{
    lemma_ring_laws::<F, O>();
    F::lemma_reciprocal(b);
    let ib = F::recip(b);
    assert(F::eqv(prod::<F, O>(prod::<F, O>(a, ib), b), prod::<F, O>(a, prod::<F, O>(ib, b))));
    assert(F::eqv(prod::<F, O>(a, prod::<F, O>(ib, b)), prod::<F, O>(a, one::<F, O>())));
    assert(F::eqv(prod::<F, O>(a, one::<F, O>()), a));
    assert(F::eqv(prod::<F, O>(prod::<F, O>(a, ib), b), prod::<F, O>(a, one::<F, O>())));
}

/// A field is a Euclidean ring: division is always exact, and the norm is `0` for nonzero
/// values.
impl<F: Field<O>, O: RingOperations<F>> EuclideanRing<O> for F {
    open spec fn norm(a: F::V) -> int {
        if F::eqv(a, zero::<F, O>()) {
            -1
        } else {
            0
        }
    }

    open spec fn quot(a: F::V, b: F::V) -> F::V {
        prod::<F, O>(a, F::recip(b))
    }

    proof fn lemma_norm(a: F::V) {
    }

    proof fn lemma_division(a: F::V, b: F::V) {
        lemma_ring_laws::<F, O>();
        lemma_divide_back::<F, O>(a, b);
        let qb = prod::<F, O>(prod::<F, O>(a, F::recip(b)), b);
        assert(F::eqv(neg::<F, O>(qb), neg::<F, O>(a)));
        assert(F::eqv(sum::<F, O>(a, neg::<F, O>(qb)), sum::<F, O>(a, neg::<F, O>(a))));
        assert(F::eqv(sum::<F, O>(a, neg::<F, O>(qb)), zero::<F, O>()));
    }

    proof fn lemma_exact(a: F::V, b: F::V, c: F::V) {
        lemma_ring_laws::<F, O>();
        lemma_divide_back::<F, O>(a, b);
    }

    proof fn lemma_times_commutative(a: F::V, b: F::V) {
        <F as Field<O>>::lemma_times_commutative(a, b);
    }

    fn quotient(self, divisor: &F) -> (r: F) {
        match divisor.duplicate().reciprocal() {
            Ok(inv) => self.times(&inv),
            Err(_) => {
                proof {
                    assert(false);
                }
                self
            },
        }
    }
}

} // verus!
