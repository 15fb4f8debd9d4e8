use vstd::prelude::*;
use crate::operation::O2;
use crate::set::Setoid;
use crate::structure::group::Group;
use crate::structure::monoid::Monoid;
use crate::structure::ring::{
    Ring, RingOperations, lemma_neg_times, lemma_ring_laws, lemma_times_neg, lemma_times_zero,
    neg, one, prod, ring_laws, sum, zero,
};

verus! {

/// `a - q * b`.
pub open spec fn rem_of<R: Ring<O>, O: RingOperations<R>>(a: R::V, q: R::V, b: R::V) -> R::V {
    O::PLUS::op(a, <R as Group<O::PLUS>>::inv(O::TIMES::op(q, b)))
}

/// A ring with a norm and a division whose remainder has a smaller norm than the divisor.
pub trait EuclideanRing<O: RingOperations<Self>>: Ring<O> {
    /// The Euclidean norm, a natural number, with `-1` standing for the negative infinity
    /// that is the norm of zero.
    spec fn norm(a: Self::V) -> int;

    /// The quotient that `quotient` computes.
    spec fn quot(a: Self::V, b: Self::V) -> Self::V;

    /// Only zero has norm `-1`; no norm is smaller.
    proof fn lemma_norm(a: Self::V)
        ensures
            Self::norm(a) >= -1,
            !Self::eqv(a, <Self as Monoid<O::PLUS>>::id()) ==> Self::norm(a) >= 0,
    ;

    /// The remainder of a division by a nonzero `b` has a smaller norm than `b`.
    proof fn lemma_division(a: Self::V, b: Self::V)
        requires
            !Self::eqv(b, <Self as Monoid<O::PLUS>>::id()),
        ensures
            Self::norm(rem_of::<Self, O>(a, Self::quot(a, b), b)) < Self::norm(b),
    ;

    /// When `b` divides `a`, the division is exact.
    proof fn lemma_exact(a: Self::V, b: Self::V, c: Self::V)
        requires
            !Self::eqv(b, <Self as Monoid<O::PLUS>>::id()),
            Self::eqv(a, O::TIMES::op(c, b)),
        ensures
            Self::eqv(a, O::TIMES::op(Self::quot(a, b), b)),
    ;

    /// Multiplication is commutative.
    proof fn lemma_times_commutative(a: Self::V, b: Self::V)
        ensures
            Self::eqv(O::TIMES::op(a, b), O::TIMES::op(b, a)),
    ;

    /// The quotient of `self` by a nonzero `divisor`.
    fn quotient(self, divisor: &Self) -> (r: Self)
        requires
            !Self::eqv(divisor@, <Self as Monoid<O::PLUS>>::id()),
        ensures
            r@ == Self::quot(self@, divisor@),
    ;

    /// `self - quotient(self, divisor) * divisor`.
    fn remainder(self, divisor: &Self) -> (r: Self)
        requires
            !Self::eqv(divisor@, <Self as Monoid<O::PLUS>>::id()),
        ensures
            r@ == rem_of::<Self, O>(self@, Self::quot(self@, divisor@), divisor@),
    {
        let q = self.duplicate().quotient(divisor);
        self.minus(&q.times(divisor))
    }

    /// The quotient and the remainder.
    fn divide(self, divisor: &Self) -> (r: (Self, Self))
        requires
            !Self::eqv(divisor@, <Self as Monoid<O::PLUS>>::id()),
        ensures
            r.0@ == Self::quot(self@, divisor@),
            r.1@ == rem_of::<Self, O>(self@, r.0@, divisor@),
    {
        let q = self.duplicate().quotient(divisor);
        let qd = q.duplicate().times(divisor);
        (q, self.minus(&qd))
    }
}

/// The remainder of `a` divided by `b`.
pub open spec fn rem<R: EuclideanRing<O>, O: RingOperations<R>>(a: R::V, b: R::V) -> R::V {
    rem_of::<R, O>(a, R::quot(a, b), b)
}

/// The Euclidean algorithm run for at most `fuel` division steps.
pub open spec fn euclid<R: EuclideanRing<O>, O: RingOperations<R>>(
    a: R::V,
    b: R::V,
    fuel: nat,
) -> R::V
    decreases fuel,
{
    if fuel == 0 || R::eqv(b, zero::<R, O>()) {
        a
    } else {
        euclid::<R, O>(b, rem::<R, O>(a, b), (fuel - 1) as nat)
    }
}

/// The greatest common divisor that the Euclidean algorithm finds: divide `a` by `b`, go on
/// with `b` and the remainder, and stop at a zero remainder. Every step lowers the norm of the
/// divisor, so `norm(b) + 1` steps suffice.
pub open spec fn gcd_of<R: EuclideanRing<O>, O: RingOperations<R>>(a: R::V, b: R::V) -> R::V {
    euclid::<R, O>(a, b, (R::norm(b) + 1) as nat)
}

/// `a * x + b * y`.
pub open spec fn combination<R: Ring<O>, O: RingOperations<R>>(
    a: R::V,
    b: R::V,
    x: R::V,
    y: R::V,
) -> R::V {
    sum::<R, O>(prod::<R, O>(a, x), prod::<R, O>(b, y))
}

/// More fuel than `norm(b) + 1` changes nothing.
pub proof fn lemma_euclid_fuel<R: EuclideanRing<O>, O: RingOperations<R>>(
    a: R::V,
    b: R::V,
    fuel: nat,
)
    requires
        fuel >= R::norm(b) + 1,
    ensures
        euclid::<R, O>(a, b, fuel) == gcd_of::<R, O>(a, b),
    decreases fuel,
{
    R::lemma_norm(b);
    if !R::eqv(b, zero::<R, O>()) {
        let r = rem::<R, O>(a, b);
        R::lemma_division(a, b);
        R::lemma_norm(r);
        lemma_euclid_fuel::<R, O>(b, r, (fuel - 1) as nat);
        lemma_euclid_fuel::<R, O>(b, r, R::norm(b) as nat);
    }
}

/// One step of the Euclidean algorithm keeps the greatest common divisor.
pub proof fn lemma_gcd_step<R: EuclideanRing<O>, O: RingOperations<R>>(a: R::V, b: R::V)
    requires
        !R::eqv(b, zero::<R, O>()),
    ensures
        gcd_of::<R, O>(b, rem::<R, O>(a, b)) == gcd_of::<R, O>(a, b),
{
    R::lemma_norm(b);
    R::lemma_division(a, b);
    R::lemma_norm(rem::<R, O>(a, b));
    lemma_euclid_fuel::<R, O>(b, rem::<R, O>(a, b), R::norm(b) as nat);
}

/// The greatest common divisor of `a` and `b`, by the Euclidean algorithm.
pub fn gcd<R: EuclideanRing<O>, O: RingOperations<R>>(a: R, b: R) -> (r: R)
    ensures
        r@ == gcd_of::<R, O>(a@, b@),
{
    let z = R::zero();
    let mut x = a;
    let mut y = b;
    proof {
        R::lemma_norm(y@);
    }
    while !y.equals(&z)
        invariant
            z@ == zero::<R, O>(),
            gcd_of::<R, O>(x@, y@) == gcd_of::<R, O>(a@, b@),
            R::norm(y@) >= -1,
        decreases R::norm(y@) + 1,
    {
        proof {
            lemma_gcd_step::<R, O>(x@, y@);
            R::lemma_division(x@, y@);
            R::lemma_norm(rem::<R, O>(x@, y@));
        }
        let r = x.remainder(&y);
        x = y;
        y = r;
    }
    proof {
        R::lemma_norm(y@);
    }
    x
}

/// The Bezout pair that the extended Euclidean recursion gives in at most `fuel` steps:
/// `(1, 0)` when `b` is zero; otherwise, with `(x, y)` the pair for `b` and the remainder
/// of `a` by `b`, and `q` the quotient, the pair `(y, x - q * y)`.
pub open spec fn ext_euclid<R: EuclideanRing<O>, O: RingOperations<R>>(
    a: R::V,
    b: R::V,
    fuel: nat,
) -> (R::V, R::V)
    decreases fuel,
{
    if fuel == 0 || R::eqv(b, zero::<R, O>()) {
        (one::<R, O>(), zero::<R, O>())
    } else {
        let (x, y) = ext_euclid::<R, O>(b, rem::<R, O>(a, b), (fuel - 1) as nat);
        (y, sum::<R, O>(x, neg::<R, O>(prod::<R, O>(R::quot(a, b), y))))
    }
}

/// The Bezout pair of `a` and `b`; `norm(b) + 1` steps suffice.
pub open spec fn bezout_of<R: EuclideanRing<O>, O: RingOperations<R>>(a: R::V, b: R::V) -> (R::V, R::V) {
    ext_euclid::<R, O>(a, b, (R::norm(b) + 1) as nat)
}

/// More fuel than `norm(b) + 1` changes nothing.
pub proof fn lemma_ext_euclid_fuel<R: EuclideanRing<O>, O: RingOperations<R>>(
    a: R::V,
    b: R::V,
    fuel: nat,
)
    requires
        fuel >= R::norm(b) + 1,
    ensures
        ext_euclid::<R, O>(a, b, fuel) == bezout_of::<R, O>(a, b),
    decreases fuel,
{
    R::lemma_norm(b);
    if !R::eqv(b, zero::<R, O>()) {
        let r = rem::<R, O>(a, b);
        R::lemma_division(a, b);
        R::lemma_norm(r);
        lemma_ext_euclid_fuel::<R, O>(b, r, (fuel - 1) as nat);
        lemma_ext_euclid_fuel::<R, O>(b, r, R::norm(b) as nat);
    }
}

/// The Bezout coefficients of `a` and `b` by the extended Euclidean recursion: `(1, 0)` when
/// `b` is zero, else `(y, x - q * y)` from the pair `(x, y)` of `b` and the remainder. They
/// satisfy `a * x + b * y = gcd(a, b)`.
pub fn bezout<R: EuclideanRing<O>, O: RingOperations<R>>(a: R, b: R) -> (r: (R, R))
    ensures
        (r.0@, r.1@) == bezout_of::<R, O>(a@, b@),
        R::eqv(combination::<R, O>(a@, b@, r.0@, r.1@), gcd_of::<R, O>(a@, b@)),
    decreases R::norm(b@) + 1,
{
    proof {
        lemma_ring_laws::<R, O>();
        R::lemma_norm(b@);
    }
    let ghost av = a@;
    let ghost bv = b@;
    let z = R::zero();
    if b.equals(&z) {
        proof {
            lemma_combination_start::<R, O>(av, bv);
        }
        return (R::one(), R::zero());
    }
    proof {
        R::lemma_division(av, bv);
        R::lemma_norm(rem::<R, O>(av, bv));
    }
    let (q, r) = a.divide(&b);
    let ghost rv = r@;
    let (x, y) = bezout(b, r);
    let s = x.minus(&q.duplicate().times(&y));
    proof {
        lemma_ext_euclid_fuel::<R, O>(bv, rv, R::norm(bv) as nat);
        lemma_gcd_step::<R, O>(av, bv);
        lemma_bezout_step::<R, O>(av, bv, q@, x@, y@);
    }
    (y, s)
}

/// `a * y + b * (x - q * y) = b * x + (a - q * b) * y`.
proof fn lemma_bezout_step<R: EuclideanRing<O>, O: RingOperations<R>>(
    a: R::V,
    b: R::V,
    q: R::V,
    x: R::V,
    y: R::V,
)
    requires
        ring_laws::<R, O>(),
    ensures
        R::eqv(
            combination::<R, O>(a, b, y, sum::<R, O>(x, neg::<R, O>(prod::<R, O>(q, y)))),
            combination::<R, O>(b, rem_of::<R, O>(a, q, b), x, y),
        ),
{
    let qy = prod::<R, O>(q, y);
    let qb = prod::<R, O>(q, b);
    let ay = prod::<R, O>(a, y);
    let bx = prod::<R, O>(b, x);
    let n = neg::<R, O>(prod::<R, O>(qb, y));
    // b * (x - q*y) = b*x + -((q*b)*y)
    lemma_times_neg::<R, O>(b, qy);
    R::lemma_times_commutative(b, q);
    assert(R::eqv(prod::<R, O>(b, qy), prod::<R, O>(prod::<R, O>(b, q), y)));
    assert(R::eqv(prod::<R, O>(prod::<R, O>(b, q), y), prod::<R, O>(qb, y)));
    assert(R::eqv(prod::<R, O>(b, qy), prod::<R, O>(qb, y)));
    assert(R::eqv(neg::<R, O>(prod::<R, O>(b, qy)), n));
    let t = prod::<R, O>(b, sum::<R, O>(x, neg::<R, O>(qy)));
    assert(R::eqv(t, sum::<R, O>(bx, prod::<R, O>(b, neg::<R, O>(qy)))));
    assert(R::eqv(sum::<R, O>(bx, prod::<R, O>(b, neg::<R, O>(qy))), sum::<R, O>(bx, n)));
    assert(R::eqv(t, sum::<R, O>(bx, n)));
    // (a - q*b) * y = a*y + -((q*b)*y)
    lemma_neg_times::<R, O>(qb, y);
    let u = prod::<R, O>(sum::<R, O>(a, neg::<R, O>(qb)), y);
    assert(R::eqv(u, sum::<R, O>(ay, prod::<R, O>(neg::<R, O>(qb), y))));
    assert(R::eqv(sum::<R, O>(ay, prod::<R, O>(neg::<R, O>(qb), y)), sum::<R, O>(ay, n)));
    assert(R::eqv(u, sum::<R, O>(ay, n)));
    // a*y + (b*x + n) = b*x + (a*y + n)
    let l1 = sum::<R, O>(ay, t);
    let r1 = sum::<R, O>(bx, u);
    assert(R::eqv(l1, sum::<R, O>(ay, sum::<R, O>(bx, n))));
    assert(R::eqv(sum::<R, O>(ay, sum::<R, O>(bx, n)), sum::<R, O>(sum::<R, O>(ay, bx), n)));
    assert(R::eqv(sum::<R, O>(sum::<R, O>(ay, bx), n), sum::<R, O>(sum::<R, O>(bx, ay), n)));
    assert(R::eqv(sum::<R, O>(sum::<R, O>(bx, ay), n), sum::<R, O>(bx, sum::<R, O>(ay, n))));
    assert(R::eqv(r1, sum::<R, O>(bx, sum::<R, O>(ay, n))));
    assert(R::eqv(l1, sum::<R, O>(sum::<R, O>(ay, bx), n)));
    assert(R::eqv(l1, sum::<R, O>(sum::<R, O>(bx, ay), n)));
    assert(R::eqv(l1, sum::<R, O>(bx, sum::<R, O>(ay, n))));
}

/// `a * 1 + b * 0 = a` and `a * 0 + b * 1 = b`.
proof fn lemma_combination_start<R: Ring<O>, O: RingOperations<R>>(a: R::V, b: R::V)
    ensures
        R::eqv(
            combination::<R, O>(a, b, <R as Monoid<O::TIMES>>::id(), zero::<R, O>()),
            a,
        ),
        R::eqv(
            combination::<R, O>(a, b, zero::<R, O>(), <R as Monoid<O::TIMES>>::id()),
            b,
        ),
{
    lemma_ring_laws::<R, O>();
    lemma_times_zero::<R, O>(a);
    lemma_times_zero::<R, O>(b);
    let z = zero::<R, O>();
    let one = one::<R, O>();
    assert(R::eqv(prod::<R, O>(a, one), a));
    assert(R::eqv(prod::<R, O>(b, one), b));
    assert(R::eqv(sum::<R, O>(prod::<R, O>(a, one), prod::<R, O>(b, z)), sum::<R, O>(a, z)));
    assert(R::eqv(sum::<R, O>(prod::<R, O>(a, z), prod::<R, O>(b, one)), sum::<R, O>(z, b)));
}

} // verus!
