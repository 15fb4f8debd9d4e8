use vstd::prelude::*;
use crate::operation::O2;
use crate::set::{Setoid, Subset};
use crate::structure::group::{Group, Subgroup};
use crate::structure::monoid::{Monoid, AbsorbingSubset, power};

verus! {

/// The pair of operations (addition and multiplication) that make `T` a ring.
pub trait RingOperations<T: View> {
    type PLUS: O2<T>;
    type TIMES: O2<T>;
}

/// A value domain with an additive group and a multiplicative monoid, where addition is
/// commutative and multiplication distributes over addition on both sides.
pub trait Ring<O: RingOperations<Self>>: Group<O::PLUS> + Monoid<O::TIMES> {
    proof fn lemma_distributive(a: Self::V, b: Self::V, c: Self::V)
        ensures
            Self::eqv(
                O::TIMES::op(a, O::PLUS::op(b, c)),
                O::PLUS::op(O::TIMES::op(a, b), O::TIMES::op(a, c)),
            ),
            Self::eqv(
                O::TIMES::op(O::PLUS::op(a, b), c),
                O::PLUS::op(O::TIMES::op(a, c), O::TIMES::op(b, c)),
            ),
    ;

    proof fn lemma_plus_commutative(a: Self::V, b: Self::V)
        ensures
            Self::eqv(O::PLUS::op(a, b), O::PLUS::op(b, a)),
    ;

    fn zero() -> (r: Self)
        ensures
            r@ == <Self as Monoid<O::PLUS>>::id(),
    {
        <Self as Monoid<O::PLUS>>::identity()
    }

    fn one() -> (r: Self)
        ensures
            r@ == <Self as Monoid<O::TIMES>>::id(),
    {
        <Self as Monoid<O::TIMES>>::identity()
    }

    fn negated(self) -> (r: Self)
        ensures
            r@ == <Self as Group<O::PLUS>>::inv(self@),
    {
        <Self as Group<O::PLUS>>::inverse(self)
    }

    fn plus(self, other: &Self) -> (r: Self)
        ensures
            r@ == O::PLUS::op(self@, other@),
    {
        O::PLUS::apply(self, other)
    }

    fn minus(self, other: &Self) -> (r: Self)
        ensures
            r@ == O::PLUS::op(self@, <Self as Group<O::PLUS>>::inv(other@)),
    {
        let n = other.duplicate().negated();
        O::PLUS::apply(self, &n)
    }

    fn times(self, other: &Self) -> (r: Self)
        ensures
            r@ == O::TIMES::op(self@, other@),
    {
        O::TIMES::apply(self, other)
    }

    /// `other * self`.
    fn times_left(self, other: &Self) -> (r: Self)
        ensures
            r@ == O::TIMES::op(other@, self@),
    {
        other.duplicate().times(&self)
    }

    /// `self` multiplied by itself `n` times, by repeated squaring.
    fn times_pow(self, n: u64) -> (r: Self)
        ensures
            Self::eqv(r@, power::<Self, O::TIMES>(<Self as Monoid<O::TIMES>>::id(), self@, n as nat)),
    {
        <Self as Monoid<O::TIMES>>::pow(self, n)
    }

    /// The integer `n` in this ring: `one` added to itself `n` times.
    fn from_integer(n: u64) -> (r: Self)
        ensures
            Self::eqv(
                r@,
                power::<Self, O::PLUS>(
                    <Self as Monoid<O::PLUS>>::id(),
                    <Self as Monoid<O::TIMES>>::id(),
                    n as nat,
                ),
            ),
    {
        <Self as Monoid<O::PLUS>>::pow(Self::one(), n)
    }
}

/// An additive subgroup of a ring that absorbs multiplication on both sides, with a choice of
/// representative for each coset.
pub trait Ideal<R: Ring<O>, O: RingOperations<R>>: Subgroup<R, O::PLUS> + AbsorbingSubset<
    R,
    O::TIMES,
> {
    /// The representative that `reduce` picks for the coset of `r`.
    spec fn reduced(r: R::V) -> R::V;

    /// The representative lies in the coset of `r`.
    proof fn lemma_reduced(r: R::V)
        ensures
            Self::member(O::PLUS::op(<R as Group<O::PLUS>>::inv(r), Self::reduced(r))),
    ;

    /// A representative of the coset of `r`, chosen to keep repeated computation small (the
    /// remainder modulo `n`, say).
    fn reduce(r: R) -> (s: R)
        ensures
            s@ == Self::reduced(r@),
    ;
}

/// `a + b`.
pub open spec fn sum<R: Ring<O>, O: RingOperations<R>>(a: R::V, b: R::V) -> R::V {
    O::PLUS::op(a, b)
}

/// `a * b`.
pub open spec fn prod<R: Ring<O>, O: RingOperations<R>>(a: R::V, b: R::V) -> R::V {
    O::TIMES::op(a, b)
}

/// `-a`.
pub open spec fn neg<R: Ring<O>, O: RingOperations<R>>(a: R::V) -> R::V {
    <R as Group<O::PLUS>>::inv(a)
}

/// The zero of the ring.
pub open spec fn zero<R: Ring<O>, O: RingOperations<R>>() -> R::V {
    <R as Monoid<O::PLUS>>::id()
}

/// The one of the ring.
pub open spec fn one<R: Ring<O>, O: RingOperations<R>>() -> R::V {
    <R as Monoid<O::TIMES>>::id()
}

/// Every law of a ring, quantified over its values.
pub open spec fn ring_laws<R: Ring<O>, O: RingOperations<R>>() -> bool {
    &&& forall|a: R::V| #[trigger] R::eqv(a, a)
    &&& forall|a: R::V, b: R::V| #[trigger] R::eqv(a, b) ==> R::eqv(b, a)
    &&& forall|a: R::V, b: R::V, c: R::V|
        #[trigger] R::eqv(a, b) && #[trigger] R::eqv(b, c) ==> R::eqv(a, c)
    &&& forall|a: R::V, b: R::V, c: R::V, d: R::V|
        R::eqv(a, b) && R::eqv(c, d) ==> #[trigger] R::eqv(sum::<R, O>(a, c), sum::<R, O>(b, d))
    &&& forall|a: R::V, b: R::V, c: R::V, d: R::V|
        R::eqv(a, b) && R::eqv(c, d) ==> #[trigger] R::eqv(prod::<R, O>(a, c), prod::<R, O>(b, d))
    &&& forall|a: R::V, b: R::V| R::eqv(a, b) ==> #[trigger] R::eqv(neg::<R, O>(a), neg::<R, O>(b))
    &&& forall|a: R::V, b: R::V, c: R::V|
        R::eqv(#[trigger] sum::<R, O>(sum::<R, O>(a, b), c), sum::<R, O>(a, sum::<R, O>(b, c)))
    &&& forall|a: R::V, b: R::V, c: R::V|
        R::eqv(sum::<R, O>(sum::<R, O>(a, b), c), #[trigger] sum::<R, O>(a, sum::<R, O>(b, c)))
    &&& forall|a: R::V, b: R::V, c: R::V|
        R::eqv(#[trigger] prod::<R, O>(prod::<R, O>(a, b), c), prod::<R, O>(a, prod::<R, O>(b, c)))
    &&& forall|a: R::V, b: R::V, c: R::V|
        R::eqv(prod::<R, O>(prod::<R, O>(a, b), c), #[trigger] prod::<R, O>(a, prod::<R, O>(b, c)))
    &&& forall|a: R::V, b: R::V| R::eqv(#[trigger] sum::<R, O>(a, b), sum::<R, O>(b, a))
    &&& forall|a: R::V| R::eqv(#[trigger] sum::<R, O>(a, zero::<R, O>()), a)
    &&& forall|a: R::V| R::eqv(#[trigger] sum::<R, O>(zero::<R, O>(), a), a)
    &&& forall|a: R::V| R::eqv(#[trigger] prod::<R, O>(a, one::<R, O>()), a)
    &&& forall|a: R::V| R::eqv(#[trigger] prod::<R, O>(one::<R, O>(), a), a)
    &&& forall|a: R::V| R::eqv(#[trigger] sum::<R, O>(a, neg::<R, O>(a)), zero::<R, O>())
    &&& forall|a: R::V| R::eqv(#[trigger] sum::<R, O>(neg::<R, O>(a), a), zero::<R, O>())
    &&& forall|a: R::V, b: R::V, c: R::V|
        R::eqv(
            #[trigger] prod::<R, O>(a, sum::<R, O>(b, c)),
            sum::<R, O>(prod::<R, O>(a, b), prod::<R, O>(a, c)),
        )
    &&& forall|a: R::V, b: R::V, c: R::V|
        R::eqv(
            #[trigger] prod::<R, O>(sum::<R, O>(a, b), c),
            sum::<R, O>(prod::<R, O>(a, c), prod::<R, O>(b, c)),
        )
}

/// Every ring satisfies [`ring_laws`].
pub proof fn lemma_ring_laws<R: Ring<O>, O: RingOperations<R>>()
    ensures
        ring_laws::<R, O>(),
{
    <R as Monoid<O::PLUS>>::lemma_monoid_laws();
    <R as Monoid<O::TIMES>>::lemma_monoid_laws();
    assert forall|a: R::V, b: R::V, c: R::V|
        #[trigger] R::eqv(a, b) && #[trigger] R::eqv(b, c) implies R::eqv(a, c) by {
        R::lemma_eqv_equivalence(a, b, c);
    }
    assert forall|a: R::V, b: R::V| #[trigger] R::eqv(a, b) implies R::eqv(b, a) by {
        R::lemma_eqv_equivalence(a, b, a);
    }
    assert forall|a: R::V| #[trigger] R::eqv(a, a) by {
        R::lemma_eqv_equivalence(a, a, a);
    }
    assert forall|a: R::V, b: R::V| R::eqv(a, b) implies #[trigger] R::eqv(
        neg::<R, O>(a),
        neg::<R, O>(b),
    ) by {
        <R as Group<O::PLUS>>::lemma_inverse_congruent(a, b);
    }
    assert forall|a: R::V, b: R::V| R::eqv(#[trigger] sum::<R, O>(a, b), sum::<R, O>(b, a)) by {
        R::lemma_plus_commutative(a, b);
    }
    assert forall|a: R::V| R::eqv(#[trigger] sum::<R, O>(a, neg::<R, O>(a)), zero::<R, O>()) by {
        <R as Group<O::PLUS>>::lemma_inverse(a);
    }
    assert forall|a: R::V| R::eqv(#[trigger] sum::<R, O>(neg::<R, O>(a), a), zero::<R, O>()) by {
        <R as Group<O::PLUS>>::lemma_inverse(a);
    }
    assert forall|a: R::V, b: R::V, c: R::V|
        R::eqv(
            #[trigger] prod::<R, O>(a, sum::<R, O>(b, c)),
            sum::<R, O>(prod::<R, O>(a, b), prod::<R, O>(a, c)),
        ) by {
        R::lemma_distributive(a, b, c);
    }
    assert forall|a: R::V, b: R::V, c: R::V|
        R::eqv(
            #[trigger] prod::<R, O>(sum::<R, O>(a, b), c),
            sum::<R, O>(prod::<R, O>(a, c), prod::<R, O>(b, c)),
        ) by {
        R::lemma_distributive(a, b, c);
    }
}

/// An element that adds with `x` to zero is the negation of `x`.
pub proof fn lemma_neg_unique<R: Ring<O>, O: RingOperations<R>>(x: R::V, y: R::V)
    requires
        R::eqv(sum::<R, O>(x, y), zero::<R, O>()),
    ensures
        R::eqv(y, neg::<R, O>(x)),
{
    lemma_ring_laws::<R, O>();
    let nx = neg::<R, O>(x);
    let z = zero::<R, O>();
    assert(R::eqv(sum::<R, O>(z, y), y));
    assert(R::eqv(sum::<R, O>(sum::<R, O>(nx, x), y), sum::<R, O>(z, y)));
    assert(R::eqv(sum::<R, O>(sum::<R, O>(nx, x), y), sum::<R, O>(nx, sum::<R, O>(x, y))));
    assert(R::eqv(sum::<R, O>(nx, sum::<R, O>(x, y)), sum::<R, O>(nx, z)));
    assert(R::eqv(sum::<R, O>(nx, z), nx));
    assert(R::eqv(sum::<R, O>(sum::<R, O>(nx, x), y), nx));
    assert(R::eqv(y, sum::<R, O>(z, y)));
}

/// `(a + b) + (c + d) = (a + c) + (b + d)`.
pub proof fn lemma_sum_swap<R: Ring<O>, O: RingOperations<R>>(a: R::V, b: R::V, c: R::V, d: R::V)
    ensures
        R::eqv(
            sum::<R, O>(sum::<R, O>(a, b), sum::<R, O>(c, d)),
            sum::<R, O>(sum::<R, O>(a, c), sum::<R, O>(b, d)),
        ),
{
    lemma_ring_laws::<R, O>();
    let t0 = sum::<R, O>(sum::<R, O>(a, b), sum::<R, O>(c, d));
    let t1 = sum::<R, O>(a, sum::<R, O>(b, sum::<R, O>(c, d)));
    let t2 = sum::<R, O>(a, sum::<R, O>(sum::<R, O>(b, c), d));
    let t3 = sum::<R, O>(a, sum::<R, O>(sum::<R, O>(c, b), d));
    let t4 = sum::<R, O>(a, sum::<R, O>(c, sum::<R, O>(b, d)));
    let t5 = sum::<R, O>(sum::<R, O>(a, c), sum::<R, O>(b, d));
    assert(R::eqv(t0, t1));
    assert(R::eqv(sum::<R, O>(b, sum::<R, O>(c, d)), sum::<R, O>(sum::<R, O>(b, c), d)));
    assert(R::eqv(t1, t2));
    assert(R::eqv(sum::<R, O>(sum::<R, O>(b, c), d), sum::<R, O>(sum::<R, O>(c, b), d)));
    assert(R::eqv(t2, t3));
    assert(R::eqv(t3, t4));
    assert(R::eqv(t5, t4));
    assert(R::eqv(t0, t2));
    assert(R::eqv(t0, t3));
    assert(R::eqv(t0, t4));
}

/// `-(a + b) = -a + -b`.
pub proof fn lemma_neg_sum<R: Ring<O>, O: RingOperations<R>>(a: R::V, b: R::V)
    ensures
        R::eqv(neg::<R, O>(sum::<R, O>(a, b)), sum::<R, O>(neg::<R, O>(a), neg::<R, O>(b))),
{
    lemma_ring_laws::<R, O>();
    let na = neg::<R, O>(a);
    let nb = neg::<R, O>(b);
    let z = zero::<R, O>();
    lemma_sum_swap::<R, O>(a, b, na, nb);
    assert(R::eqv(sum::<R, O>(sum::<R, O>(a, na), sum::<R, O>(b, nb)), sum::<R, O>(z, z)));
    assert(R::eqv(sum::<R, O>(z, z), z));
    assert(R::eqv(sum::<R, O>(sum::<R, O>(a, b), sum::<R, O>(na, nb)), sum::<R, O>(z, z)));
    lemma_neg_unique::<R, O>(sum::<R, O>(a, b), sum::<R, O>(na, nb));
}

/// `x * 0 = 0 = 0 * x`.
pub proof fn lemma_times_zero<R: Ring<O>, O: RingOperations<R>>(x: R::V)
    ensures
        R::eqv(prod::<R, O>(x, zero::<R, O>()), zero::<R, O>()),
        R::eqv(prod::<R, O>(zero::<R, O>(), x), zero::<R, O>()),
{
    lemma_ring_laws::<R, O>();
    let z = zero::<R, O>();
    let p = prod::<R, O>(x, z);
    assert(R::eqv(prod::<R, O>(x, sum::<R, O>(z, z)), p));
    assert(R::eqv(sum::<R, O>(p, p), p));
    lemma_absorb_self::<R, O>(p);
    let q = prod::<R, O>(z, x);
    assert(R::eqv(prod::<R, O>(sum::<R, O>(z, z), x), q));
    assert(R::eqv(sum::<R, O>(q, q), q));
    lemma_absorb_self::<R, O>(q);
}

/// An element with `p + p = p` is zero.
proof fn lemma_absorb_self<R: Ring<O>, O: RingOperations<R>>(p: R::V)
    requires
        R::eqv(sum::<R, O>(p, p), p),
    ensures
        R::eqv(p, zero::<R, O>()),
{
    lemma_ring_laws::<R, O>();
    let np = neg::<R, O>(p);
    let z = zero::<R, O>();
    assert(R::eqv(sum::<R, O>(sum::<R, O>(p, p), np), sum::<R, O>(p, np)));
    assert(R::eqv(sum::<R, O>(sum::<R, O>(p, p), np), sum::<R, O>(p, sum::<R, O>(p, np))));
    assert(R::eqv(sum::<R, O>(p, sum::<R, O>(p, np)), sum::<R, O>(p, z)));
    assert(R::eqv(sum::<R, O>(p, z), p));
    assert(R::eqv(sum::<R, O>(sum::<R, O>(p, p), np), p));
    assert(R::eqv(p, sum::<R, O>(p, np)));
}

/// `x * -y = -(x * y)`.
pub proof fn lemma_times_neg<R: Ring<O>, O: RingOperations<R>>(x: R::V, y: R::V)
    ensures
        R::eqv(prod::<R, O>(x, neg::<R, O>(y)), neg::<R, O>(prod::<R, O>(x, y))),
{
    lemma_ring_laws::<R, O>();
    lemma_times_zero::<R, O>(x);
    let ny = neg::<R, O>(y);
    let z = zero::<R, O>();
    assert(R::eqv(prod::<R, O>(x, sum::<R, O>(y, ny)), prod::<R, O>(x, z)));
    assert(R::eqv(
        prod::<R, O>(x, sum::<R, O>(y, ny)),
        sum::<R, O>(prod::<R, O>(x, y), prod::<R, O>(x, ny)),
    ));
    assert(R::eqv(sum::<R, O>(prod::<R, O>(x, y), prod::<R, O>(x, ny)), prod::<R, O>(x, z)));
    assert(R::eqv(sum::<R, O>(prod::<R, O>(x, y), prod::<R, O>(x, ny)), z));
    lemma_neg_unique::<R, O>(prod::<R, O>(x, y), prod::<R, O>(x, ny));
}

/// `-x * y = -(x * y)`.
pub proof fn lemma_neg_times<R: Ring<O>, O: RingOperations<R>>(x: R::V, y: R::V)
    ensures
        R::eqv(prod::<R, O>(neg::<R, O>(x), y), neg::<R, O>(prod::<R, O>(x, y))),
{
    lemma_ring_laws::<R, O>();
    lemma_times_zero::<R, O>(y);
    let nx = neg::<R, O>(x);
    let z = zero::<R, O>();
    assert(R::eqv(prod::<R, O>(sum::<R, O>(x, nx), y), prod::<R, O>(z, y)));
    assert(R::eqv(
        prod::<R, O>(sum::<R, O>(x, nx), y),
        sum::<R, O>(prod::<R, O>(x, y), prod::<R, O>(nx, y)),
    ));
    assert(R::eqv(sum::<R, O>(prod::<R, O>(x, y), prod::<R, O>(nx, y)), prod::<R, O>(z, y)));
    assert(R::eqv(sum::<R, O>(prod::<R, O>(x, y), prod::<R, O>(nx, y)), z));
    lemma_neg_unique::<R, O>(prod::<R, O>(x, y), prod::<R, O>(nx, y));
}

/// `-(-x) = x`.
pub proof fn lemma_neg_neg<R: Ring<O>, O: RingOperations<R>>(x: R::V)
    ensures
        R::eqv(neg::<R, O>(neg::<R, O>(x)), x),
{
    lemma_ring_laws::<R, O>();
    assert(R::eqv(sum::<R, O>(neg::<R, O>(x), x), zero::<R, O>()));
    lemma_neg_unique::<R, O>(neg::<R, O>(x), x);
}

/// In every ring multiplication distributes over addition: `a * (b + c) == a * b + a * c`.
pub proof fn lemma_ring_law<R: Ring<O>, O: RingOperations<R>>(a: R::V, b: R::V, c: R::V)
    ensures
        R::eqv(
            prod::<R, O>(a, sum::<R, O>(b, c)),
            sum::<R, O>(prod::<R, O>(a, b), prod::<R, O>(a, c)),
        ),
{
    R::lemma_distributive(a, b, c);
}

} // verus!
