use vstd::prelude::*;
use core::marker::PhantomData;
use crate::error::AlgebraError;
use crate::operation::O2;
use crate::set::{Setoid, Subset};
use crate::structure::group::Group;
use crate::structure::euclidean_ring::{EuclideanRing, rem};
use crate::structure::monoid::Monoid;
use crate::structure::ring::{
    Ring, RingOperations, lemma_ring_laws, lemma_times_zero, neg, one, prod, ring_laws, sum, zero,
};

verus! {

/// `v` is a two-sided multiplicative inverse of `u`.
pub open spec fn inverse_of<R: Ring<O>, O: RingOperations<R>>(u: R::V, v: R::V) -> bool {
    R::eqv(prod::<R, O>(u, v), one::<R, O>()) && R::eqv(prod::<R, O>(v, u), one::<R, O>())
}

/// A ring that can tell whether an element has a multiplicative inverse.
pub trait TryInverse<O: RingOperations<Self>>: Ring<O> {
    /// The multiplicative inverse of `self`, or `None` when it has none.
    fn try_inverse(self) -> (r: Option<Self>)
        ensures
            r is Some ==> inverse_of::<Self, O>(self@, r->Some_0@),
            r is None ==> forall|c: Self::V| !Self::eqv(#[trigger] prod::<Self, O>(c, self@), one::<Self, O>()),
    ;
}

/// `a - b = 0` exactly when `a = b`.
proof fn lemma_difference_zero<R: Ring<O>, O: RingOperations<R>>(a: R::V, b: R::V)
    requires
        ring_laws::<R, O>(),
    ensures
        R::eqv(sum::<R, O>(a, neg::<R, O>(b)), zero::<R, O>()) <==> R::eqv(a, b),
{
    let z = zero::<R, O>();
    let d = sum::<R, O>(a, neg::<R, O>(b));
    // (a - b) + b = a
    assert(R::eqv(sum::<R, O>(d, b), sum::<R, O>(a, sum::<R, O>(neg::<R, O>(b), b))));
    assert(R::eqv(sum::<R, O>(a, sum::<R, O>(neg::<R, O>(b), b)), sum::<R, O>(a, z)));
    assert(R::eqv(sum::<R, O>(d, b), a));
    if R::eqv(d, z) {
        assert(R::eqv(sum::<R, O>(d, b), sum::<R, O>(z, b)));
        assert(R::eqv(a, sum::<R, O>(z, b)));
    }
    if R::eqv(a, b) {
        assert(R::eqv(d, sum::<R, O>(b, neg::<R, O>(b))));
    }
}

impl<R: EuclideanRing<O>, O: RingOperations<R>> TryInverse<O> for R {
    /// Divides one by `self`: the quotient is the inverse when the division is exact.
    fn try_inverse(self) -> (r: Option<R>) {
        proof {
            lemma_ring_laws::<R, O>();
            R::lemma_times_commutative(self@, self@);
        }
        let z = R::zero();
        let u = R::one();
        if self.equals(&z) {
            proof {
                assert forall|c: R::V| #[trigger] R::eqv(prod::<R, O>(c, self@), one::<R, O>()) implies R::eqv(
                    one::<R, O>(),
                    zero::<R, O>(),
                ) by {
                    lemma_times_zero::<R, O>(c);
                    assert(R::eqv(prod::<R, O>(c, self@), prod::<R, O>(c, zero::<R, O>())));
                }
            }
            if u.equals(&z) {
                proof {
                    lemma_times_zero::<R, O>(u@);
                    assert(R::eqv(prod::<R, O>(self@, u@), prod::<R, O>(z@, u@)));
                    assert(R::eqv(prod::<R, O>(u@, self@), prod::<R, O>(u@, z@)));
                }
                Some(u)
            } else {
                None
            }
        } else {
            let ghost x = self@;
            let (q, r) = u.divide(&self);
            let found = r.equals(&z);
            proof {
                let qx = prod::<R, O>(q@, x);
                lemma_difference_zero::<R, O>(one::<R, O>(), qx);
                R::lemma_times_commutative(x, q@);
                if !found {
                    assert forall|c: R::V| !R::eqv(#[trigger] prod::<R, O>(c, x), one::<R, O>()) by {
                        if R::eqv(prod::<R, O>(c, x), one::<R, O>()) {
                            R::lemma_exact(one::<R, O>(), x, c);
                        }
                    }
                }
            }
            if found {
                Some(q)
            } else {
                None
            }
        }
    }
}

/// The pair itself when it is a value with its inverse, else the pair of ones.
pub open spec fn normal<R: Ring<O>, O: RingOperations<R>>(p: (R::V, R::V)) -> (R::V, R::V) {
    if inverse_of::<R, O>(p.0, p.1) {
        p
    } else {
        (one::<R, O>(), one::<R, O>())
    }
}

/// An invertible element of a ring, stored with its inverse so that inverting swaps the two.
#[verifier::reject_recursive_types(O)]
pub struct Unit<R: Ring<O>, O: RingOperations<R>> {
    u: R,
    u_inverse: R,
    o: PhantomData<O>,
}

/// The multiplication of units.
pub struct UnitProduct<O> {
    o: PhantomData<O>,
}

impl<R: Ring<O>, O: RingOperations<R>> Unit<R, O> {
    #[verifier::type_invariant]
    pub closed spec fn is_unit(&self) -> bool {
        inverse_of::<R, O>(self.u@, self.u_inverse@)
    }

    /// The unit `u` with the inverse `u_inverse`, when they are inverse to each other.
    pub fn from_pair(u: R, u_inverse: R) -> (r: Result<Self, AlgebraError>)
        ensures
            r is Ok <==> inverse_of::<R, O>(u@, u_inverse@),
            r is Ok ==> r->Ok_0@ == (u@, u_inverse@),
            r is Err ==> r->Err_0 == AlgebraError::NotAMember,
    {
        let u1 = R::one();
        let left = u.duplicate().times(&u_inverse);
        let right = u_inverse.duplicate().times(&u);
        if left.equals(&u1) && right.equals(&u1) {
            Ok(Unit { u, u_inverse, o: PhantomData })
        } else {
            Err(AlgebraError::NotAMember)
        }
    }

    /// The value.
    pub fn value(&self) -> (r: &R)
        ensures
            r@ == self@.0,
    {
        &self.u
    }

    /// The stored inverse.
    pub fn inverse_value(&self) -> (r: &R)
        ensures
            r@ == self@.1,
    {
        &self.u_inverse
    }
}

impl<R: Ring<O>, O: RingOperations<R>> View for Unit<R, O> {
    type V = (R::V, R::V);

    closed spec fn view(&self) -> (R::V, R::V) {
        (self.u@, self.u_inverse@)
    }
}

/// The product of two units is a unit, with the inverses multiplied in reverse order.
proof fn lemma_unit_product<R: Ring<O>, O: RingOperations<R>>(a: (R::V, R::V), b: (R::V, R::V))
    requires
        ring_laws::<R, O>(),
        inverse_of::<R, O>(a.0, a.1),
        inverse_of::<R, O>(b.0, b.1),
    ensures
        inverse_of::<R, O>(prod::<R, O>(a.0, b.0), prod::<R, O>(b.1, a.1)),
{
    lemma_inverse_chain::<R, O>(a.0, b.0, b.1, a.1);
    lemma_inverse_chain::<R, O>(b.1, a.1, a.0, b.0);
}

/// `(x * y) * (z * w) = 1` when `y * z = 1` and `x * w = 1`.
proof fn lemma_inverse_chain<R: Ring<O>, O: RingOperations<R>>(x: R::V, y: R::V, z: R::V, w: R::V)
    requires
        ring_laws::<R, O>(),
        R::eqv(prod::<R, O>(y, z), one::<R, O>()),
        R::eqv(prod::<R, O>(x, w), one::<R, O>()),
    ensures
        R::eqv(prod::<R, O>(prod::<R, O>(x, y), prod::<R, O>(z, w)), one::<R, O>()),
{
    let u = one::<R, O>();
    let t0 = prod::<R, O>(prod::<R, O>(x, y), prod::<R, O>(z, w));
    let t1 = prod::<R, O>(x, prod::<R, O>(y, prod::<R, O>(z, w)));
    let t2 = prod::<R, O>(x, prod::<R, O>(prod::<R, O>(y, z), w));
    let t3 = prod::<R, O>(x, prod::<R, O>(u, w));
    assert(R::eqv(t0, t1));
    assert(R::eqv(prod::<R, O>(y, prod::<R, O>(z, w)), prod::<R, O>(prod::<R, O>(y, z), w)));
    assert(R::eqv(t1, t2));
    assert(R::eqv(prod::<R, O>(prod::<R, O>(y, z), w), prod::<R, O>(u, w)));
    assert(R::eqv(t2, t3));
    assert(R::eqv(prod::<R, O>(u, w), w));
    assert(R::eqv(t3, prod::<R, O>(x, w)));
    assert(R::eqv(t0, t2));
    assert(R::eqv(t0, t3));
}

/// Inverses of equal units are equal.
proof fn lemma_inverse_unique<R: Ring<O>, O: RingOperations<R>>(a: (R::V, R::V), b: (R::V, R::V))
    requires
        ring_laws::<R, O>(),
        inverse_of::<R, O>(a.0, a.1),
        inverse_of::<R, O>(b.0, b.1),
        R::eqv(a.0, b.0),
    ensures
        R::eqv(a.1, b.1),
{
    let u = one::<R, O>();
    // a1 = a1 * (b0 * b1) = (a1 * b0) * b1 = (a1 * a0) * b1 = b1
    assert(R::eqv(prod::<R, O>(a.1, u), a.1));
    assert(R::eqv(prod::<R, O>(a.1, prod::<R, O>(b.0, b.1)), prod::<R, O>(a.1, u)));
    assert(R::eqv(prod::<R, O>(prod::<R, O>(a.1, b.0), b.1), prod::<R, O>(a.1, prod::<R, O>(b.0, b.1))));
    assert(R::eqv(prod::<R, O>(a.1, b.0), prod::<R, O>(a.1, a.0)));
    assert(R::eqv(prod::<R, O>(prod::<R, O>(a.1, b.0), b.1), prod::<R, O>(prod::<R, O>(a.1, a.0), b.1)));
    assert(R::eqv(prod::<R, O>(prod::<R, O>(a.1, a.0), b.1), prod::<R, O>(u, b.1)));
    assert(R::eqv(prod::<R, O>(u, b.1), b.1));
    assert(R::eqv(prod::<R, O>(prod::<R, O>(a.1, b.0), b.1), b.1));
    assert(R::eqv(prod::<R, O>(a.1, prod::<R, O>(b.0, b.1)), b.1));
    assert(R::eqv(prod::<R, O>(a.1, u), b.1));
}

impl<R: Ring<O>, O: RingOperations<R>> Setoid for Unit<R, O> {
    /// Equal values (of the normal forms).
    open spec fn eqv(a: (R::V, R::V), b: (R::V, R::V)) -> bool {
        R::eqv(normal::<R, O>(a).0, normal::<R, O>(b).0)
    }

    proof fn lemma_eqv_equivalence(a: (R::V, R::V), b: (R::V, R::V), c: (R::V, R::V)) {
        R::lemma_eqv_equivalence(normal::<R, O>(a).0, normal::<R, O>(b).0, normal::<R, O>(c).0);
    }

    fn equals(&self, other: &Self) -> (r: bool) {
        proof {
            use_type_invariant(self);
            use_type_invariant(other);
        }
        self.u.equals(&other.u)
    }

    fn duplicate(&self) -> (r: Self) {
        proof {
            use_type_invariant(self);
        }
        Unit { u: self.u.duplicate(), u_inverse: self.u_inverse.duplicate(), o: PhantomData }
    }
}

impl<R: Ring<O>, O: RingOperations<R>> O2<Unit<R, O>> for UnitProduct<O> {
    /// Values multiply forward, inverses in reverse: `(a, a') * (b, b') = (a * b, b' * a')`.
    open spec fn op(a: (R::V, R::V), b: (R::V, R::V)) -> (R::V, R::V) {
        let x = normal::<R, O>(a);
        let y = normal::<R, O>(b);
        (prod::<R, O>(x.0, y.0), prod::<R, O>(y.1, x.1))
    }

    fn apply(a: Unit<R, O>, b: &Unit<R, O>) -> (r: Unit<R, O>) {
        proof {
            use_type_invariant(&a);
            use_type_invariant(b);
            lemma_ring_laws::<R, O>();
            lemma_unit_product::<R, O>(a@, b@);
        }
        let u = a.u.times(&b.u);
        let u_inverse = b.u_inverse.duplicate().times(&a.u_inverse);
        Unit { u, u_inverse, o: PhantomData }
    }
}

impl<R: Ring<O>, O: RingOperations<R>> Monoid<UnitProduct<O>> for Unit<R, O> {
    open spec fn id() -> (R::V, R::V) {
        (one::<R, O>(), one::<R, O>())
    }

    proof fn lemma_associative(a: (R::V, R::V), b: (R::V, R::V), c: (R::V, R::V)) {
        lemma_ring_laws::<R, O>();
        lemma_normal_is_unit::<R, O>(a);
        lemma_normal_is_unit::<R, O>(b);
        lemma_normal_is_unit::<R, O>(c);
        let (x, y, z) = (normal::<R, O>(a), normal::<R, O>(b), normal::<R, O>(c));
        lemma_unit_product::<R, O>(x, y);
        lemma_unit_product::<R, O>(y, z);
        let xy = <UnitProduct<O> as O2<Unit<R, O>>>::op(a, b);
        let yz = <UnitProduct<O> as O2<Unit<R, O>>>::op(b, c);
        lemma_unit_product::<R, O>(xy, z);
        lemma_unit_product::<R, O>(x, yz);
    }

    proof fn lemma_identity(a: (R::V, R::V)) {
        lemma_ring_laws::<R, O>();
        lemma_normal_is_unit::<R, O>(a);
        let x = normal::<R, O>(a);
        let e = Self::id();
        assert(inverse_of::<R, O>(e.0, e.1));
        lemma_unit_product::<R, O>(x, e);
        lemma_unit_product::<R, O>(e, x);
    }

    proof fn lemma_congruent(a: (R::V, R::V), b: (R::V, R::V), c: (R::V, R::V), d: (R::V, R::V)) {
        lemma_ring_laws::<R, O>();
        lemma_normal_is_unit::<R, O>(a);
        lemma_normal_is_unit::<R, O>(b);
        lemma_normal_is_unit::<R, O>(c);
        lemma_normal_is_unit::<R, O>(d);
        lemma_unit_product::<R, O>(normal::<R, O>(a), normal::<R, O>(c));
        lemma_unit_product::<R, O>(normal::<R, O>(b), normal::<R, O>(d));
    }

    fn identity() -> (r: Self) {
        proof {
            lemma_ring_laws::<R, O>();
        }
        Unit { u: R::one(), u_inverse: R::one(), o: PhantomData }
    }
}

impl<R: Ring<O>, O: RingOperations<R>> Group<UnitProduct<O>> for Unit<R, O> {
    open spec fn inv(a: (R::V, R::V)) -> (R::V, R::V) {
        (normal::<R, O>(a).1, normal::<R, O>(a).0)
    }

    proof fn lemma_inverse(a: (R::V, R::V)) {
        lemma_ring_laws::<R, O>();
        lemma_normal_is_unit::<R, O>(a);
        let x = normal::<R, O>(a);
        let y = Self::inv(a);
        assert(inverse_of::<R, O>(y.0, y.1));
        lemma_unit_product::<R, O>(x, y);
        lemma_unit_product::<R, O>(y, x);
        assert(inverse_of::<R, O>(one::<R, O>(), one::<R, O>()));
    }

    proof fn lemma_inverse_congruent(a: (R::V, R::V), b: (R::V, R::V)) {
        lemma_ring_laws::<R, O>();
        lemma_normal_is_unit::<R, O>(a);
        lemma_normal_is_unit::<R, O>(b);
        lemma_inverse_unique::<R, O>(normal::<R, O>(a), normal::<R, O>(b));
        let (x, y) = (Self::inv(a), Self::inv(b));
        assert(inverse_of::<R, O>(x.0, x.1));
        assert(inverse_of::<R, O>(y.0, y.1));
    }

    fn inverse(self) -> (r: Self) {
        proof {
            use_type_invariant(&self);
        }
        Unit { u: self.u_inverse, u_inverse: self.u, o: PhantomData }
    }
}

/// The normal form of a pair is a unit with its inverse.
proof fn lemma_normal_is_unit<R: Ring<O>, O: RingOperations<R>>(p: (R::V, R::V))
    requires
        ring_laws::<R, O>(),
    ensures
        inverse_of::<R, O>(normal::<R, O>(p).0, normal::<R, O>(p).1),
{
    assert(R::eqv(prod::<R, O>(one::<R, O>(), one::<R, O>()), one::<R, O>()));
}

impl<R: TryInverse<O>, O: RingOperations<R>> Subset<R> for Unit<R, O> {
    /// The invertible elements.
    open spec fn member(t: R::V) -> bool {
        exists|v: R::V| inverse_of::<R, O>(t, v)
    }

    closed spec fn incl(s: Self) -> R::V {
        s.u@
    }

    proof fn lemma_member_respects_eqv(a: R::V, b: R::V) {
        lemma_ring_laws::<R, O>();
        let v = choose|v: R::V| inverse_of::<R, O>(a, v);
        assert(R::eqv(prod::<R, O>(a, v), prod::<R, O>(b, v)));
        assert(R::eqv(prod::<R, O>(v, a), prod::<R, O>(v, b)));
        assert(inverse_of::<R, O>(b, v));
    }

    fn contains(t: &R) -> (r: bool) {
        let found = t.duplicate().try_inverse();
        proof {
            lemma_ring_laws::<R, O>();
            if found is None {
                assert forall|v: R::V| !inverse_of::<R, O>(t@, v) by {
                    assert(!R::eqv(prod::<R, O>(v, t@), one::<R, O>()));
                }
            }
        }
        found.is_some()
    }

    fn inclusion(self) -> (r: R) {
        proof {
            use_type_invariant(&self);
        }
        self.u
    }

    fn try_from(t: R) -> (r: Result<Self, AlgebraError>) {
        let found = t.duplicate().try_inverse();
        proof {
            lemma_ring_laws::<R, O>();
            if found is None {
                assert forall|v: R::V| !inverse_of::<R, O>(t@, v) by {
                    assert(!R::eqv(prod::<R, O>(v, t@), one::<R, O>()));
                }
            }
        }
        match found {
            Some(v) => Ok(Unit { u: t, u_inverse: v, o: PhantomData }),
            None => Err(AlgebraError::NotAMember),
        }
    }
}

} // verus!
