use vstd::prelude::*;
use core::marker::PhantomData;
use crate::error::AlgebraError;
use crate::operation::O2;
use crate::set::{Setoid, Subset};
use crate::structure::euclidean_ring::EuclideanRing;
use crate::structure::group::{Group, NormalSubgroup, Subgroup};
use crate::structure::monoid::{AbsorbingSubset, Monoid};
use crate::structure::ring::{
    Ideal, Ring, RingOperations, lemma_neg_times, lemma_ring_laws, lemma_times_zero, neg, prod,
    sum, zero,
};

verus! {

/// A named constant of `R`, used to pick an ideal by its generator.
pub trait Wrapper<R: View> {
    spec fn val() -> R::V;

    fn value() -> (r: R)
        ensures
            r@ == Self::val(),
    ;
}

/// The value `c` with `t = c * v` that division finds.
pub open spec fn cofactor<R: EuclideanRing<O>, O: RingOperations<R>>(t: R::V, v: R::V) -> R::V {
    if R::eqv(v, zero::<R, O>()) {
        zero::<R, O>()
    } else {
        R::quot(t, v)
    }
}

/// `t` is a multiple of `v`.
pub open spec fn multiple_of<R: EuclideanRing<O>, O: RingOperations<R>>(t: R::V, v: R::V) -> bool {
    R::eqv(t, prod::<R, O>(cofactor::<R, O>(t, v), v))
}

/// Any `c * v` is a multiple of `v`.
pub proof fn lemma_multiple<R: EuclideanRing<O>, O: RingOperations<R>>(t: R::V, v: R::V, c: R::V)
    requires
        R::eqv(t, prod::<R, O>(c, v)),
    ensures
        multiple_of::<R, O>(t, v),
{
    lemma_ring_laws::<R, O>();
    if R::eqv(v, zero::<R, O>()) {
        lemma_times_zero::<R, O>(c);
        lemma_times_zero::<R, O>(v);
        assert(R::eqv(prod::<R, O>(c, v), prod::<R, O>(c, zero::<R, O>())));
    } else {
        R::lemma_exact(t, v, c);
    }
}

/// The multiples of the constant that `A` names: an ideal of a Euclidean ring.
#[verifier::reject_recursive_types(R)]
pub struct Multiples<R: EuclideanRing<O>, O: RingOperations<R>, A: Wrapper<R>> {
    data: R,
    o: PhantomData<O>,
    a: PhantomData<A>,
}

impl<R: EuclideanRing<O>, O: RingOperations<R>, A: Wrapper<R>> Multiples<R, O, A> {
    #[verifier::type_invariant]
    pub closed spec fn is_multiple(&self) -> bool {
        multiple_of::<R, O>(self.data@, A::val())
    }
}

impl<R: EuclideanRing<O>, O: RingOperations<R>, A: Wrapper<R>> Subset<R> for Multiples<R, O, A> {
    open spec fn member(t: R::V) -> bool {
        multiple_of::<R, O>(t, A::val())
    }

    closed spec fn incl(s: Self) -> R::V {
        s.data@
    }

    proof fn lemma_member_respects_eqv(a: R::V, b: R::V) {
        lemma_ring_laws::<R, O>();
        lemma_multiple::<R, O>(b, A::val(), cofactor::<R, O>(a, A::val()));
    }

    fn contains(t: &R) -> (r: bool) {
        let v = A::value();
        if v.equals(&R::zero()) {
            let r = t.equals(&R::zero());
            proof {
                lemma_ring_laws::<R, O>();
                lemma_times_zero::<R, O>(v@);
            }
            r
        } else {
            let q = t.duplicate().quotient(&v);
            t.equals(&q.times(&v))
        }
    }

    fn inclusion(self) -> (r: R) {
        proof {
            use_type_invariant(&self);
        }
        self.data
    }

    fn try_from(t: R) -> (r: Result<Self, AlgebraError>) {
        if Self::contains(&t) {
            Ok(Multiples { data: t, o: PhantomData, a: PhantomData })
        } else {
            Err(AlgebraError::NotAMember)
        }
    }
}

impl<R: EuclideanRing<O>, O: RingOperations<R>, A: Wrapper<R>> Subgroup<R, O::PLUS> for Multiples<
    R,
    O,
    A,
> {
    proof fn lemma_subgroup(a: R::V, b: R::V) {
        lemma_ring_laws::<R, O>();
        let v = A::val();
        let z = zero::<R, O>();
        lemma_times_zero::<R, O>(v);
        lemma_multiple::<R, O>(z, v, z);
        let ca = cofactor::<R, O>(a, v);
        let cb = cofactor::<R, O>(b, v);
        if Self::member(a) && Self::member(b) {
            assert(R::eqv(sum::<R, O>(a, b), sum::<R, O>(prod::<R, O>(ca, v), prod::<R, O>(cb, v))));
            assert(R::eqv(prod::<R, O>(sum::<R, O>(ca, cb), v), sum::<R, O>(prod::<R, O>(ca, v), prod::<R, O>(cb, v))));
            lemma_multiple::<R, O>(sum::<R, O>(a, b), v, sum::<R, O>(ca, cb));
        }
        if Self::member(a) {
            lemma_neg_times::<R, O>(ca, v);
            assert(R::eqv(neg::<R, O>(a), neg::<R, O>(prod::<R, O>(ca, v))));
            lemma_multiple::<R, O>(neg::<R, O>(a), v, neg::<R, O>(ca));
        }
    }
}

impl<R: EuclideanRing<O>, O: RingOperations<R>, A: Wrapper<R>> AbsorbingSubset<R, O::TIMES> for Multiples<
    R,
    O,
    A,
> {
    proof fn lemma_absorbs(a: R::V, m: R::V) {
        lemma_ring_laws::<R, O>();
        let v = A::val();
        let ca = cofactor::<R, O>(a, v);
        // a * m = (ca * v) * m = ca * (v * m) = ca * (m * v) = (ca * m) * v
        R::lemma_times_commutative(v, m);
        assert(R::eqv(prod::<R, O>(a, m), prod::<R, O>(prod::<R, O>(ca, v), m)));
        assert(R::eqv(prod::<R, O>(prod::<R, O>(ca, v), m), prod::<R, O>(ca, prod::<R, O>(v, m))));
        assert(R::eqv(prod::<R, O>(ca, prod::<R, O>(v, m)), prod::<R, O>(ca, prod::<R, O>(m, v))));
        assert(R::eqv(prod::<R, O>(ca, prod::<R, O>(m, v)), prod::<R, O>(prod::<R, O>(ca, m), v)));
        assert(R::eqv(prod::<R, O>(a, m), prod::<R, O>(ca, prod::<R, O>(v, m))));
        assert(R::eqv(prod::<R, O>(a, m), prod::<R, O>(ca, prod::<R, O>(m, v))));
        lemma_multiple::<R, O>(prod::<R, O>(a, m), v, prod::<R, O>(ca, m));
        // m * a = m * (ca * v) = (m * ca) * v
        assert(R::eqv(prod::<R, O>(m, a), prod::<R, O>(m, prod::<R, O>(ca, v))));
        assert(R::eqv(prod::<R, O>(m, prod::<R, O>(ca, v)), prod::<R, O>(prod::<R, O>(m, ca), v)));
        lemma_multiple::<R, O>(prod::<R, O>(m, a), v, prod::<R, O>(m, ca));
    }

    fn times(self, m: &R) -> (r: Self) {
        proof {
            use_type_invariant(&self);
            Self::lemma_absorbs(self.data@, m@);
        }
        Multiples { data: self.data.times(m), o: PhantomData, a: PhantomData }
    }
}

impl<R: EuclideanRing<O>, O: RingOperations<R>, A: Wrapper<R>> Ideal<R, O> for Multiples<R, O, A> {
    /// The remainder on division by the generator (or the value itself for the zero ideal).
    open spec fn reduced(r: R::V) -> R::V {
        if R::eqv(A::val(), zero::<R, O>()) {
            r
        } else {
            crate::structure::euclidean_ring::rem::<R, O>(r, A::val())
        }
    }

    proof fn lemma_reduced(r: R::V) {
        lemma_ring_laws::<R, O>();
        let v = A::val();
        let z = zero::<R, O>();
        let nr = neg::<R, O>(r);
        lemma_times_zero::<R, O>(v);
        if R::eqv(v, z) {
            assert(R::eqv(sum::<R, O>(nr, r), z));
            assert(R::eqv(sum::<R, O>(nr, r), prod::<R, O>(z, v)));
            lemma_multiple::<R, O>(sum::<R, O>(nr, r), v, z);
        } else {
            let q = R::quot(r, v);
            let qv = prod::<R, O>(q, v);
            // -r + (r - q*v) = (-r + r) + -(q*v) = -(q*v) = (-q)*v
            let t = sum::<R, O>(nr, sum::<R, O>(r, neg::<R, O>(qv)));
            assert(R::eqv(t, sum::<R, O>(sum::<R, O>(nr, r), neg::<R, O>(qv))));
            assert(R::eqv(sum::<R, O>(sum::<R, O>(nr, r), neg::<R, O>(qv)), sum::<R, O>(z, neg::<R, O>(qv))));
            assert(R::eqv(sum::<R, O>(z, neg::<R, O>(qv)), neg::<R, O>(qv)));
            lemma_neg_times::<R, O>(q, v);
            assert(R::eqv(t, sum::<R, O>(z, neg::<R, O>(qv))));
            assert(R::eqv(t, neg::<R, O>(qv)));
            lemma_multiple::<R, O>(t, v, neg::<R, O>(q));
        }
    }

    fn reduce(r: R) -> (s: R) {
        let v = A::value();
        if v.equals(&R::zero()) {
            r
        } else {
            r.remainder(&v)
        }
    }
}

impl<R: EuclideanRing<O>, O: RingOperations<R>, A: Wrapper<R>> NormalSubgroup<R, O::PLUS> for Multiples<
    R,
    O,
    A,
> {
    /// Addition is commutative, so `g + h - g = h`.
    proof fn lemma_normal(g: R::V, h: R::V) {
        lemma_ring_laws::<R, O>();
        let z = zero::<R, O>();
        let ng = neg::<R, O>(g);
        let x = sum::<R, O>(sum::<R, O>(g, h), ng);
        assert(R::eqv(sum::<R, O>(g, h), sum::<R, O>(h, g)));
        assert(R::eqv(x, sum::<R, O>(sum::<R, O>(h, g), ng)));
        assert(R::eqv(sum::<R, O>(sum::<R, O>(h, g), ng), sum::<R, O>(h, sum::<R, O>(g, ng))));
        assert(R::eqv(sum::<R, O>(h, sum::<R, O>(g, ng)), sum::<R, O>(h, z)));
        assert(R::eqv(sum::<R, O>(h, z), h));
        assert(R::eqv(x, sum::<R, O>(h, sum::<R, O>(g, ng))));
        assert(R::eqv(x, sum::<R, O>(h, z)));
        assert(R::eqv(h, x));
        Self::lemma_member_respects_eqv(h, x);
    }

    /// The remainder on division by the generator (or the value itself for the zero ideal).
    open spec fn reduced(g: R::V) -> R::V {
        <Self as Ideal<R, O>>::reduced(g)
    }

    proof fn lemma_reduced(g: R::V) {
        <Self as Ideal<R, O>>::lemma_reduced(g);
    }

    fn reduce(g: R) -> (r: R) {
        <Self as Ideal<R, O>>::reduce(g)
    }
}

} // verus!
