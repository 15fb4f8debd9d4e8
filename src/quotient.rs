use vstd::prelude::*;
use core::marker::PhantomData;
use crate::impls::StandardOps;
use crate::integer::Integer;
use crate::modular::{Multiples, Wrapper};
use crate::operation::O2;
use crate::set::{Setoid, Subset, Text};
use vstd::string::StringExecFns;
use crate::structure::group::{
    Group, NormalSubgroup, Subgroup, group_laws, lemma_group_law_bundle, lemma_inverse_of_product,
};
use crate::structure::monoid::{AbsorbingSubset, Monoid};
use crate::structure::ring::{
    Ideal, Ring, RingOperations, lemma_neg_neg, lemma_neg_sum, lemma_neg_times, lemma_ring_laws,
    lemma_sum_swap, lemma_times_neg, neg, one, prod, ring_laws, sum, zero,
};

verus! {

/// The integer `N`, as a named constant.
pub struct IntWrap<const N: u64> {}

impl<const N: u64> Wrapper<Integer> for IntWrap<N> {
    open spec fn val() -> int {
        N as int
    }

    fn value() -> (r: Integer) {
        Integer::from_u64(N)
    }
}

/// The multiples of `N` among the integers.
pub type IntMultiples<const N: u64> = Multiples<Integer, StandardOps, IntWrap<N>>;

/// `a` and `b` lie in the same coset of the ideal `I`: `-a + b` is in `I`.
pub open spec fn same_coset<R: Ring<O>, O: RingOperations<R>, I: Ideal<R, O>>(
    a: R::V,
    b: R::V,
) -> bool {
    I::member(sum::<R, O>(neg::<R, O>(a), b))
}

/// `(-p + q) + (-q + r) = -p + r`.
pub proof fn lemma_telescope<R: Ring<O>, O: RingOperations<R>>(p: R::V, q: R::V, r: R::V)
    ensures
        R::eqv(
            sum::<R, O>(sum::<R, O>(neg::<R, O>(p), q), sum::<R, O>(neg::<R, O>(q), r)),
            sum::<R, O>(neg::<R, O>(p), r),
        ),
{
    lemma_ring_laws::<R, O>();
    let np = neg::<R, O>(p);
    let nq = neg::<R, O>(q);
    let z = zero::<R, O>();
    let t0 = sum::<R, O>(sum::<R, O>(np, q), sum::<R, O>(nq, r));
    let t1 = sum::<R, O>(np, sum::<R, O>(q, sum::<R, O>(nq, r)));
    let t2 = sum::<R, O>(np, sum::<R, O>(sum::<R, O>(q, nq), r));
    let t3 = sum::<R, O>(np, sum::<R, O>(z, r));
    assert(R::eqv(t0, t1));
    assert(R::eqv(sum::<R, O>(q, sum::<R, O>(nq, r)), sum::<R, O>(sum::<R, O>(q, nq), r)));
    assert(R::eqv(t1, t2));
    assert(R::eqv(sum::<R, O>(sum::<R, O>(q, nq), r), sum::<R, O>(z, r)));
    assert(R::eqv(t2, t3));
    assert(R::eqv(sum::<R, O>(z, r), r));
    assert(R::eqv(t3, sum::<R, O>(np, r)));
    assert(R::eqv(t0, t2));
    assert(R::eqv(t0, t3));
}

/// Lying in the same coset is an equivalence that ring equality implies, that every reduced
/// representative keeps, and that addition, multiplication and negation preserve.
pub open spec fn coset_laws<R: Ring<O>, O: RingOperations<R>, I: Ideal<R, O>>() -> bool {
    &&& forall|a: R::V, b: R::V| R::eqv(a, b) ==> #[trigger] same_coset::<R, O, I>(a, b)
    &&& forall|a: R::V, b: R::V| #[trigger] same_coset::<R, O, I>(a, b) ==> same_coset::<R, O, I>(b, a)
    &&& forall|a: R::V, b: R::V, c: R::V|
        #[trigger] same_coset::<R, O, I>(a, b) && #[trigger] same_coset::<R, O, I>(b, c)
            ==> same_coset::<R, O, I>(a, c)
    &&& forall|a: R::V|
        same_coset::<R, O, I>(a, #[trigger] I::reduced(a)) && same_coset::<R, O, I>(I::reduced(a), a)
    &&& forall|a: R::V, b: R::V, c: R::V, d: R::V|
        same_coset::<R, O, I>(a, b) && same_coset::<R, O, I>(c, d) ==> #[trigger] same_coset::<
            R,
            O,
            I,
        >(sum::<R, O>(a, c), sum::<R, O>(b, d))
    &&& forall|a: R::V, b: R::V, c: R::V, d: R::V|
        same_coset::<R, O, I>(a, b) && same_coset::<R, O, I>(c, d) ==> #[trigger] same_coset::<
            R,
            O,
            I,
        >(prod::<R, O>(a, c), prod::<R, O>(b, d))
    &&& forall|a: R::V, b: R::V|
        same_coset::<R, O, I>(a, b) ==> #[trigger] same_coset::<R, O, I>(
            neg::<R, O>(a),
            neg::<R, O>(b),
        )
}

/// Every ideal satisfies [`coset_laws`].
pub proof fn lemma_coset_laws<R: Ring<O>, O: RingOperations<R>, I: Ideal<R, O>>()
    ensures
        coset_laws::<R, O, I>(),
{
    lemma_ring_laws::<R, O>();
    let z = zero::<R, O>();
    I::lemma_subgroup(z, z);
    assert forall|a: R::V, b: R::V| R::eqv(a, b) implies #[trigger] same_coset::<R, O, I>(a, b) by {
        assert(R::eqv(sum::<R, O>(neg::<R, O>(a), b), sum::<R, O>(neg::<R, O>(a), a)));
        assert(R::eqv(z, sum::<R, O>(neg::<R, O>(a), b)));
        I::lemma_member_respects_eqv(z, sum::<R, O>(neg::<R, O>(a), b));
    }
    assert forall|a: R::V, b: R::V| #[trigger] same_coset::<R, O, I>(a, b) implies same_coset::<
        R,
        O,
        I,
    >(b, a) by {
        lemma_coset_symmetric::<R, O, I>(a, b);
    }
    assert forall|a: R::V, b: R::V, c: R::V|
        #[trigger] same_coset::<R, O, I>(a, b) && #[trigger] same_coset::<R, O, I>(
            b,
            c,
        ) implies same_coset::<R, O, I>(a, c) by {
        let x = sum::<R, O>(neg::<R, O>(a), b);
        let y = sum::<R, O>(neg::<R, O>(b), c);
        I::lemma_subgroup(x, y);
        lemma_telescope::<R, O>(a, b, c);
        I::lemma_member_respects_eqv(sum::<R, O>(x, y), sum::<R, O>(neg::<R, O>(a), c));
    }
    assert forall|a: R::V|
        same_coset::<R, O, I>(a, #[trigger] I::reduced(a)) && same_coset::<R, O, I>(
            I::reduced(a),
            a,
        ) by {
        I::lemma_reduced(a);
        lemma_coset_symmetric::<R, O, I>(a, I::reduced(a));
    }
    assert forall|a: R::V, b: R::V, c: R::V, d: R::V|
        same_coset::<R, O, I>(a, b) && same_coset::<R, O, I>(c, d) implies #[trigger] same_coset::<
            R,
            O,
            I,
        >(sum::<R, O>(a, c), sum::<R, O>(b, d)) by {
        let x = sum::<R, O>(neg::<R, O>(a), b);
        let y = sum::<R, O>(neg::<R, O>(c), d);
        I::lemma_subgroup(x, y);
        lemma_neg_sum::<R, O>(a, c);
        lemma_sum_swap::<R, O>(neg::<R, O>(a), neg::<R, O>(c), b, d);
        let t = sum::<R, O>(neg::<R, O>(sum::<R, O>(a, c)), sum::<R, O>(b, d));
        let u = sum::<R, O>(sum::<R, O>(neg::<R, O>(a), neg::<R, O>(c)), sum::<R, O>(b, d));
        assert(R::eqv(t, u));
        assert(R::eqv(u, sum::<R, O>(x, y)));
        assert(R::eqv(sum::<R, O>(x, y), t));
        I::lemma_member_respects_eqv(sum::<R, O>(x, y), t);
    }
    assert forall|a: R::V, b: R::V, c: R::V, d: R::V|
        same_coset::<R, O, I>(a, b) && same_coset::<R, O, I>(c, d) implies #[trigger] same_coset::<
            R,
            O,
            I,
        >(prod::<R, O>(a, c), prod::<R, O>(b, d)) by {
        lemma_coset_product::<R, O, I>(a, b, c, d);
    }
    assert forall|a: R::V, b: R::V|
        same_coset::<R, O, I>(a, b) implies #[trigger] same_coset::<R, O, I>(
            neg::<R, O>(a),
            neg::<R, O>(b),
        ) by {
        let x = sum::<R, O>(neg::<R, O>(a), b);
        I::lemma_subgroup(x, x);
        lemma_neg_sum::<R, O>(neg::<R, O>(a), b);
        I::lemma_member_respects_eqv(
            neg::<R, O>(x),
            sum::<R, O>(neg::<R, O>(neg::<R, O>(a)), neg::<R, O>(b)),
        );
    }
}

/// Lying in the same coset is symmetric.
proof fn lemma_coset_symmetric<R: Ring<O>, O: RingOperations<R>, I: Ideal<R, O>>(a: R::V, b: R::V)
    requires
        same_coset::<R, O, I>(a, b),
    ensures
        same_coset::<R, O, I>(b, a),
{
    lemma_ring_laws::<R, O>();
    let x = sum::<R, O>(neg::<R, O>(a), b);
    I::lemma_subgroup(x, x);
    lemma_neg_sum::<R, O>(neg::<R, O>(a), b);
    lemma_neg_neg::<R, O>(a);
    assert(R::eqv(
        sum::<R, O>(neg::<R, O>(neg::<R, O>(a)), neg::<R, O>(b)),
        sum::<R, O>(a, neg::<R, O>(b)),
    ));
    assert(R::eqv(neg::<R, O>(x), sum::<R, O>(a, neg::<R, O>(b))));
    assert(R::eqv(neg::<R, O>(x), sum::<R, O>(neg::<R, O>(b), a)));
    I::lemma_member_respects_eqv(neg::<R, O>(x), sum::<R, O>(neg::<R, O>(b), a));
}

/// Products of elements of the same cosets lie in the same coset.
proof fn lemma_coset_product<R: Ring<O>, O: RingOperations<R>, I: Ideal<R, O>>(
    a: R::V,
    b: R::V,
    c: R::V,
    d: R::V,
)
    requires
        same_coset::<R, O, I>(a, b),
        same_coset::<R, O, I>(c, d),
    ensures
        same_coset::<R, O, I>(prod::<R, O>(a, c), prod::<R, O>(b, d)),
{
    lemma_ring_laws::<R, O>();
    let x = sum::<R, O>(neg::<R, O>(a), b);
    let y = sum::<R, O>(neg::<R, O>(c), d);
    I::lemma_absorbs(x, c);
    I::lemma_absorbs(y, b);
    let xc = prod::<R, O>(x, c);
    let by = prod::<R, O>(b, y);
    I::lemma_subgroup(xc, by);
    let ac = prod::<R, O>(a, c);
    let bc = prod::<R, O>(b, c);
    let bd = prod::<R, O>(b, d);
    // x * c = -(a*c) + b*c
    lemma_neg_times::<R, O>(a, c);
    assert(R::eqv(xc, sum::<R, O>(prod::<R, O>(neg::<R, O>(a), c), bc)));
    assert(R::eqv(sum::<R, O>(prod::<R, O>(neg::<R, O>(a), c), bc), sum::<R, O>(neg::<R, O>(ac), bc)));
    assert(R::eqv(xc, sum::<R, O>(neg::<R, O>(ac), bc)));
    // b * y = -(b*c) + b*d
    lemma_times_neg::<R, O>(b, c);
    assert(R::eqv(by, sum::<R, O>(prod::<R, O>(b, neg::<R, O>(c)), bd)));
    assert(R::eqv(sum::<R, O>(prod::<R, O>(b, neg::<R, O>(c)), bd), sum::<R, O>(neg::<R, O>(bc), bd)));
    assert(R::eqv(by, sum::<R, O>(neg::<R, O>(bc), bd)));
    lemma_telescope::<R, O>(ac, bc, bd);
    assert(R::eqv(
        sum::<R, O>(xc, by),
        sum::<R, O>(sum::<R, O>(neg::<R, O>(ac), bc), sum::<R, O>(neg::<R, O>(bc), bd)),
    ));
    assert(R::eqv(sum::<R, O>(xc, by), sum::<R, O>(neg::<R, O>(ac), bd)));
    I::lemma_member_respects_eqv(sum::<R, O>(xc, by), sum::<R, O>(neg::<R, O>(ac), bd));
}

/// An element of the quotient of the ring `R` by the ideal `I`: a representative of its coset.
/// Two elements are equal when their representatives differ by a member of `I`, whichever
/// representatives were stored.
#[verifier::reject_recursive_types(R)]
#[verifier::reject_recursive_types(O)]
#[verifier::reject_recursive_types(I)]
pub struct QuotientRing<R, O, I> {
    representative: R,
    i: PhantomData<I>,
    o: PhantomData<O>,
}

/// The addition of a quotient ring.
pub struct QuotientSum<O> {
    o: PhantomData<O>,
}

/// The multiplication of a quotient ring.
pub struct QuotientProduct<O> {
    o: PhantomData<O>,
}

impl<R: View, O, I> View for QuotientRing<R, O, I> {
    type V = R::V;

    closed spec fn view(&self) -> R::V {
        self.representative@
    }
}

impl<R: Ring<O>, O: RingOperations<R>, I: Ideal<R, O>> QuotientRing<R, O, I> {
    /// The coset of `value`, stored by the representative that the ideal picks.
    pub fn from(value: R) -> (r: Self)
        ensures
            r@ == I::reduced(value@),
    {
        QuotientRing { representative: I::reduce(value), i: PhantomData, o: PhantomData }
    }

    /// The stored representative.
    pub fn representative(&self) -> (r: &R)
        ensures
            r@ == self@,
    {
        &self.representative
    }

    /// The element written as `[representative]`.
    pub fn render(&self) -> (r: String) where R: Text
        ensures
            r@ == seq!['['] + R::shown(self@) + seq![']'],
    {
        bracketed(&self.representative)
    }
}

/// The text of `t` between square brackets.
pub fn bracketed<T: Text>(t: &T) -> (r: String)
    ensures
        r@ == seq!['['] + T::shown(t@) + seq![']'],
        r@.len() >= 2,
        r@[0] == '[',
        r@[r@.len() - 1] == ']',
{
    let inner = t.text();
    let mut s = String::from_str("[");
    s.append(inner.as_str());
    s.append("]");
    proof {
        reveal_strlit("[");
        reveal_strlit("]");
        assert(s@ =~= seq!['['] + T::shown(t@) + seq![']']);
    }
    s
}

impl<R: Ring<O>, O: RingOperations<R>, I: Ideal<R, O>> Setoid for QuotientRing<R, O, I> {
    open spec fn eqv(a: R::V, b: R::V) -> bool {
        same_coset::<R, O, I>(a, b)
    }

    proof fn lemma_eqv_equivalence(a: R::V, b: R::V, c: R::V) {
        lemma_ring_laws::<R, O>();
        lemma_coset_laws::<R, O, I>();
    }

    fn equals(&self, other: &Self) -> (r: bool) {
        let d = self.representative.duplicate().negated().plus(&other.representative);
        I::contains(&d)
    }

    fn duplicate(&self) -> (r: Self) {
        QuotientRing { representative: self.representative.duplicate(), i: PhantomData, o: PhantomData }
    }
}

impl<R: Ring<O>, O: RingOperations<R>, I: Ideal<R, O>> O2<QuotientRing<R, O, I>> for QuotientSum<O> {
    open spec fn op(a: R::V, b: R::V) -> R::V {
        I::reduced(sum::<R, O>(a, b))
    }

    fn apply(a: QuotientRing<R, O, I>, b: &QuotientRing<R, O, I>) -> (r: QuotientRing<R, O, I>) {
        QuotientRing::from(a.representative.plus(&b.representative))
    }
}

impl<R: Ring<O>, O: RingOperations<R>, I: Ideal<R, O>> O2<QuotientRing<R, O, I>> for QuotientProduct<O> {
    open spec fn op(a: R::V, b: R::V) -> R::V {
        I::reduced(prod::<R, O>(a, b))
    }

    fn apply(a: QuotientRing<R, O, I>, b: &QuotientRing<R, O, I>) -> (r: QuotientRing<R, O, I>) {
        QuotientRing::from(a.representative.times(&b.representative))
    }
}

impl<R: Ring<O>, O: RingOperations<R>, I: Ideal<R, O>> RingOperations<QuotientRing<R, O, I>> for O {
    type PLUS = QuotientSum<O>;
    type TIMES = QuotientProduct<O>;
}

impl<R: Ring<O>, O: RingOperations<R>, I: Ideal<R, O>> Monoid<QuotientSum<O>> for QuotientRing<R, O, I> {
    open spec fn id() -> R::V {
        I::reduced(zero::<R, O>())
    }

    proof fn lemma_associative(a: R::V, b: R::V, c: R::V) {
        lemma_ring_laws::<R, O>();
        lemma_coset_laws::<R, O, I>();
        lemma_reduced_associative::<R, O, I>(a, b, c, true);
    }

    proof fn lemma_identity(a: R::V) {
        lemma_ring_laws::<R, O>();
        lemma_coset_laws::<R, O, I>();
        let z = zero::<R, O>();
        let e = I::reduced(z);
        assert(same_coset::<R, O, I>(e, z));
        assert(same_coset::<R, O, I>(a, a));
        assert(same_coset::<R, O, I>(sum::<R, O>(a, e), sum::<R, O>(a, z)));
        assert(same_coset::<R, O, I>(sum::<R, O>(a, z), a));
        assert(same_coset::<R, O, I>(sum::<R, O>(a, e), I::reduced(sum::<R, O>(a, e))));
        assert(same_coset::<R, O, I>(I::reduced(sum::<R, O>(a, e)), sum::<R, O>(a, e)));
        assert(same_coset::<R, O, I>(I::reduced(sum::<R, O>(a, e)), sum::<R, O>(a, z)));
        assert(same_coset::<R, O, I>(sum::<R, O>(e, a), sum::<R, O>(z, a)));
        assert(same_coset::<R, O, I>(sum::<R, O>(z, a), a));
        assert(same_coset::<R, O, I>(sum::<R, O>(e, a), I::reduced(sum::<R, O>(e, a))));
        assert(same_coset::<R, O, I>(I::reduced(sum::<R, O>(e, a)), sum::<R, O>(e, a)));
        assert(same_coset::<R, O, I>(I::reduced(sum::<R, O>(e, a)), sum::<R, O>(z, a)));
    }

    proof fn lemma_congruent(a: R::V, b: R::V, c: R::V, d: R::V) {
        lemma_coset_laws::<R, O, I>();
        lemma_reduced_congruent::<R, O, I>(sum::<R, O>(a, c), sum::<R, O>(b, d));
    }

    fn identity() -> (r: Self) {
        QuotientRing::from(R::zero())
    }
}

impl<R: Ring<O>, O: RingOperations<R>, I: Ideal<R, O>> Monoid<QuotientProduct<O>> for QuotientRing<R, O, I> {
    open spec fn id() -> R::V {
        I::reduced(one::<R, O>())
    }

    proof fn lemma_associative(a: R::V, b: R::V, c: R::V) {
        lemma_ring_laws::<R, O>();
        lemma_coset_laws::<R, O, I>();
        lemma_reduced_associative::<R, O, I>(a, b, c, false);
    }

    proof fn lemma_identity(a: R::V) {
        lemma_ring_laws::<R, O>();
        lemma_coset_laws::<R, O, I>();
        let u = one::<R, O>();
        let e = I::reduced(u);
        assert(same_coset::<R, O, I>(e, u));
        assert(same_coset::<R, O, I>(a, a));
        assert(same_coset::<R, O, I>(prod::<R, O>(a, e), prod::<R, O>(a, u)));
        assert(same_coset::<R, O, I>(prod::<R, O>(a, u), a));
        assert(same_coset::<R, O, I>(I::reduced(prod::<R, O>(a, e)), prod::<R, O>(a, e)));
        assert(same_coset::<R, O, I>(I::reduced(prod::<R, O>(a, e)), prod::<R, O>(a, u)));
        assert(same_coset::<R, O, I>(prod::<R, O>(e, a), prod::<R, O>(u, a)));
        assert(same_coset::<R, O, I>(prod::<R, O>(u, a), a));
        assert(same_coset::<R, O, I>(I::reduced(prod::<R, O>(e, a)), prod::<R, O>(e, a)));
        assert(same_coset::<R, O, I>(I::reduced(prod::<R, O>(e, a)), prod::<R, O>(u, a)));
    }

    proof fn lemma_congruent(a: R::V, b: R::V, c: R::V, d: R::V) {
        lemma_coset_laws::<R, O, I>();
        lemma_reduced_congruent::<R, O, I>(prod::<R, O>(a, c), prod::<R, O>(b, d));
    }

    fn identity() -> (r: Self) {
        QuotientRing::from(R::one())
    }
}

impl<R: Ring<O>, O: RingOperations<R>, I: Ideal<R, O>> Group<QuotientSum<O>> for QuotientRing<R, O, I> {
    open spec fn inv(a: R::V) -> R::V {
        I::reduced(neg::<R, O>(a))
    }

    proof fn lemma_inverse(a: R::V) {
        lemma_ring_laws::<R, O>();
        lemma_coset_laws::<R, O, I>();
        let z = zero::<R, O>();
        let na = I::reduced(neg::<R, O>(a));
        assert(same_coset::<R, O, I>(na, neg::<R, O>(a)));
        assert(same_coset::<R, O, I>(a, a));
        assert(same_coset::<R, O, I>(sum::<R, O>(a, na), sum::<R, O>(a, neg::<R, O>(a))));
        assert(same_coset::<R, O, I>(sum::<R, O>(a, neg::<R, O>(a)), z));
        assert(same_coset::<R, O, I>(z, I::reduced(z)));
        assert(same_coset::<R, O, I>(I::reduced(sum::<R, O>(a, na)), sum::<R, O>(a, na)));
        assert(same_coset::<R, O, I>(I::reduced(sum::<R, O>(a, na)), sum::<R, O>(a, neg::<R, O>(a))));
        assert(same_coset::<R, O, I>(I::reduced(sum::<R, O>(a, na)), z));
        assert(same_coset::<R, O, I>(sum::<R, O>(na, a), sum::<R, O>(neg::<R, O>(a), a)));
        assert(same_coset::<R, O, I>(sum::<R, O>(neg::<R, O>(a), a), z));
        assert(same_coset::<R, O, I>(I::reduced(sum::<R, O>(na, a)), sum::<R, O>(na, a)));
        assert(same_coset::<R, O, I>(I::reduced(sum::<R, O>(na, a)), sum::<R, O>(neg::<R, O>(a), a)));
        assert(same_coset::<R, O, I>(I::reduced(sum::<R, O>(na, a)), z));
    }

    proof fn lemma_inverse_congruent(a: R::V, b: R::V) {
        lemma_coset_laws::<R, O, I>();
        lemma_reduced_congruent::<R, O, I>(neg::<R, O>(a), neg::<R, O>(b));
    }

    fn inverse(self) -> (r: Self) {
        QuotientRing::from(self.representative.negated())
    }
}

impl<R: Ring<O>, O: RingOperations<R>, I: Ideal<R, O>> Ring<O> for QuotientRing<R, O, I> {
    proof fn lemma_distributive(a: R::V, b: R::V, c: R::V) {
        lemma_ring_laws::<R, O>();
        lemma_coset_laws::<R, O, I>();
        lemma_reduced_distributive::<R, O, I>(a, b, c);
    }

    proof fn lemma_plus_commutative(a: R::V, b: R::V) {
        lemma_ring_laws::<R, O>();
        lemma_coset_laws::<R, O, I>();
        assert(same_coset::<R, O, I>(sum::<R, O>(a, b), sum::<R, O>(b, a)));
        lemma_reduced_congruent::<R, O, I>(sum::<R, O>(a, b), sum::<R, O>(b, a));
    }
}

/// Reduced representatives of elements of one coset lie in one coset.
proof fn lemma_reduced_congruent<R: Ring<O>, O: RingOperations<R>, I: Ideal<R, O>>(x: R::V, y: R::V)
    requires
        coset_laws::<R, O, I>(),
        same_coset::<R, O, I>(x, y),
    ensures
        same_coset::<R, O, I>(I::reduced(x), I::reduced(y)),
{
    assert(same_coset::<R, O, I>(x, I::reduced(x)));
    assert(same_coset::<R, O, I>(I::reduced(x), x));
    assert(same_coset::<R, O, I>(y, I::reduced(y)));
    assert(same_coset::<R, O, I>(I::reduced(x), y));
}

/// Associativity survives reduction, for addition (`is_sum`) and for multiplication.
proof fn lemma_reduced_associative<R: Ring<O>, O: RingOperations<R>, I: Ideal<R, O>>(
    a: R::V,
    b: R::V,
    c: R::V,
    is_sum: bool,
)
    requires
        ring_laws::<R, O>(),
        coset_laws::<R, O, I>(),
    ensures
        is_sum ==> same_coset::<R, O, I>(
            I::reduced(sum::<R, O>(I::reduced(sum::<R, O>(a, b)), c)),
            I::reduced(sum::<R, O>(a, I::reduced(sum::<R, O>(b, c)))),
        ),
        !is_sum ==> same_coset::<R, O, I>(
            I::reduced(prod::<R, O>(I::reduced(prod::<R, O>(a, b)), c)),
            I::reduced(prod::<R, O>(a, I::reduced(prod::<R, O>(b, c)))),
        ),
{
    assert(same_coset::<R, O, I>(a, a));
    assert(same_coset::<R, O, I>(c, c));
    if is_sum {
        let ab = I::reduced(sum::<R, O>(a, b));
        let bc = I::reduced(sum::<R, O>(b, c));
        let x = sum::<R, O>(ab, c);
        let y = sum::<R, O>(a, bc);
        assert(same_coset::<R, O, I>(ab, sum::<R, O>(a, b)));
        assert(same_coset::<R, O, I>(bc, sum::<R, O>(b, c)));
        assert(same_coset::<R, O, I>(x, sum::<R, O>(sum::<R, O>(a, b), c)));
        assert(same_coset::<R, O, I>(sum::<R, O>(sum::<R, O>(a, b), c), sum::<R, O>(a, sum::<R, O>(b, c))));
        assert(same_coset::<R, O, I>(y, sum::<R, O>(a, sum::<R, O>(b, c))));
        assert(same_coset::<R, O, I>(sum::<R, O>(a, sum::<R, O>(b, c)), y));
        assert(same_coset::<R, O, I>(x, sum::<R, O>(a, sum::<R, O>(b, c))));
        assert(same_coset::<R, O, I>(x, y));
        lemma_reduced_congruent::<R, O, I>(x, y);
    } else {
        let ab = I::reduced(prod::<R, O>(a, b));
        let bc = I::reduced(prod::<R, O>(b, c));
        let x = prod::<R, O>(ab, c);
        let y = prod::<R, O>(a, bc);
        assert(same_coset::<R, O, I>(ab, prod::<R, O>(a, b)));
        assert(same_coset::<R, O, I>(bc, prod::<R, O>(b, c)));
        assert(same_coset::<R, O, I>(x, prod::<R, O>(prod::<R, O>(a, b), c)));
        assert(same_coset::<R, O, I>(prod::<R, O>(prod::<R, O>(a, b), c), prod::<R, O>(a, prod::<R, O>(b, c))));
        assert(same_coset::<R, O, I>(y, prod::<R, O>(a, prod::<R, O>(b, c))));
        assert(same_coset::<R, O, I>(prod::<R, O>(a, prod::<R, O>(b, c)), y));
        assert(same_coset::<R, O, I>(x, prod::<R, O>(a, prod::<R, O>(b, c))));
        assert(same_coset::<R, O, I>(x, y));
        lemma_reduced_congruent::<R, O, I>(x, y);
    }
}

/// Distributivity survives reduction.
proof fn lemma_reduced_distributive<R: Ring<O>, O: RingOperations<R>, I: Ideal<R, O>>(
    a: R::V,
    b: R::V,
    c: R::V,
)
    requires
        ring_laws::<R, O>(),
        coset_laws::<R, O, I>(),
    ensures
        same_coset::<R, O, I>(
            I::reduced(prod::<R, O>(a, I::reduced(sum::<R, O>(b, c)))),
            I::reduced(sum::<R, O>(I::reduced(prod::<R, O>(a, b)), I::reduced(prod::<R, O>(a, c)))),
        ),
        same_coset::<R, O, I>(
            I::reduced(prod::<R, O>(I::reduced(sum::<R, O>(a, b)), c)),
            I::reduced(sum::<R, O>(I::reduced(prod::<R, O>(a, c)), I::reduced(prod::<R, O>(b, c)))),
        ),
{
    assert(same_coset::<R, O, I>(a, a));
    assert(same_coset::<R, O, I>(c, c));
    let ab = prod::<R, O>(a, b);
    let ac = prod::<R, O>(a, c);
    let bc = prod::<R, O>(b, c);
    // left
    let x = prod::<R, O>(a, I::reduced(sum::<R, O>(b, c)));
    let y = sum::<R, O>(I::reduced(ab), I::reduced(ac));
    assert(same_coset::<R, O, I>(I::reduced(sum::<R, O>(b, c)), sum::<R, O>(b, c)));
    assert(same_coset::<R, O, I>(x, prod::<R, O>(a, sum::<R, O>(b, c))));
    assert(same_coset::<R, O, I>(prod::<R, O>(a, sum::<R, O>(b, c)), sum::<R, O>(ab, ac)));
    assert(same_coset::<R, O, I>(I::reduced(ab), ab));
    assert(same_coset::<R, O, I>(I::reduced(ac), ac));
    assert(same_coset::<R, O, I>(y, sum::<R, O>(ab, ac)));
    assert(same_coset::<R, O, I>(sum::<R, O>(ab, ac), y));
    assert(same_coset::<R, O, I>(x, sum::<R, O>(ab, ac)));
    assert(same_coset::<R, O, I>(x, y));
    lemma_reduced_congruent::<R, O, I>(x, y);
    // right
    let x2 = prod::<R, O>(I::reduced(sum::<R, O>(a, b)), c);
    let y2 = sum::<R, O>(I::reduced(ac), I::reduced(bc));
    assert(same_coset::<R, O, I>(I::reduced(sum::<R, O>(a, b)), sum::<R, O>(a, b)));
    assert(same_coset::<R, O, I>(x2, prod::<R, O>(sum::<R, O>(a, b), c)));
    assert(same_coset::<R, O, I>(prod::<R, O>(sum::<R, O>(a, b), c), sum::<R, O>(ac, bc)));
    assert(same_coset::<R, O, I>(I::reduced(bc), bc));
    assert(same_coset::<R, O, I>(y2, sum::<R, O>(ac, bc)));
    assert(same_coset::<R, O, I>(sum::<R, O>(ac, bc), y2));
    assert(same_coset::<R, O, I>(x2, sum::<R, O>(ac, bc)));
    assert(same_coset::<R, O, I>(x2, y2));
    lemma_reduced_congruent::<R, O, I>(x2, y2);
}

/// Two values give equal elements of the quotient exactly when their difference lies in the
/// ideal: `from(a) == from(b)` iff `contains(a - b)`.
pub proof fn lemma_quotient_equality<R: Ring<O>, O: RingOperations<R>, I: Ideal<R, O>>(
    a: R::V,
    b: R::V,
)
    ensures
        QuotientRing::<R, O, I>::eqv(I::reduced(a), I::reduced(b)) <==> I::member(
            sum::<R, O>(a, neg::<R, O>(b)),
        ),
{
    lemma_ring_laws::<R, O>();
    lemma_coset_laws::<R, O, I>();
    let ra = I::reduced(a);
    let rb = I::reduced(b);
    // `a - b` is in the ideal exactly when `-a + b` is.
    let d = sum::<R, O>(a, neg::<R, O>(b));
    let e = sum::<R, O>(neg::<R, O>(a), b);
    lemma_neg_sum::<R, O>(neg::<R, O>(a), b);
    lemma_neg_neg::<R, O>(a);
    assert(R::eqv(sum::<R, O>(neg::<R, O>(neg::<R, O>(a)), neg::<R, O>(b)), d));
    assert(R::eqv(neg::<R, O>(e), d));
    lemma_neg_sum::<R, O>(a, neg::<R, O>(b));
    lemma_neg_neg::<R, O>(b);
    assert(R::eqv(sum::<R, O>(neg::<R, O>(a), neg::<R, O>(neg::<R, O>(b))), e));
    assert(R::eqv(neg::<R, O>(d), e));
    I::lemma_subgroup(d, e);
    I::lemma_subgroup(e, d);
    if I::member(d) {
        I::lemma_member_respects_eqv(neg::<R, O>(d), e);
        assert(same_coset::<R, O, I>(a, b));
        assert(same_coset::<R, O, I>(ra, a));
        assert(same_coset::<R, O, I>(ra, b));
        assert(same_coset::<R, O, I>(ra, rb));
    }
    if same_coset::<R, O, I>(ra, rb) {
        assert(same_coset::<R, O, I>(a, ra));
        assert(same_coset::<R, O, I>(a, rb));
        assert(same_coset::<R, O, I>(a, b));
        I::lemma_member_respects_eqv(neg::<R, O>(e), d);
    }
}

/// `a` and `b` lie in the same left coset of `H`: `a^-1 * b` is in `H`.
pub open spec fn same_left_coset<G: Group<Op>, H: NormalSubgroup<G, Op>, Op: O2<G>>(
    a: G::V,
    b: G::V,
) -> bool {
    H::member(Op::op(G::inv(a), b))
}

/// `(x^-1 * y) * (y^-1 * z) = x^-1 * z`.
proof fn lemma_group_telescope<G: Group<Op>, Op: O2<G>>(x: G::V, y: G::V, z: G::V)
    requires
        group_laws::<G, Op>(),
    ensures
        G::eqv(
            Op::op(Op::op(G::inv(x), y), Op::op(G::inv(y), z)),
            Op::op(G::inv(x), z),
        ),
{
    let e = G::id();
    let ix = G::inv(x);
    let iy = G::inv(y);
    let t0 = Op::op(Op::op(ix, y), Op::op(iy, z));
    let t1 = Op::op(ix, Op::op(y, Op::op(iy, z)));
    let t2 = Op::op(ix, Op::op(Op::op(y, iy), z));
    let t3 = Op::op(ix, Op::op(e, z));
    assert(G::eqv(t0, t1));
    assert(G::eqv(Op::op(y, Op::op(iy, z)), Op::op(Op::op(y, iy), z)));
    assert(G::eqv(t1, t2));
    assert(G::eqv(Op::op(Op::op(y, iy), z), Op::op(e, z)));
    assert(G::eqv(t2, t3));
    assert(G::eqv(t3, Op::op(ix, z)));
    assert(G::eqv(t0, t2));
    assert(G::eqv(t0, t3));
}

/// Lying in the same left coset of a normal subgroup is an equivalence that group equality
/// implies, that every reduced representative keeps, and that the operation and inverses
/// preserve.
pub open spec fn left_coset_laws<G: Group<Op>, H: NormalSubgroup<G, Op>, Op: O2<G>>() -> bool {
    &&& forall|a: G::V, b: G::V| G::eqv(a, b) ==> #[trigger] same_left_coset::<G, H, Op>(a, b)
    &&& forall|a: G::V, b: G::V| #[trigger] same_left_coset::<G, H, Op>(a, b) ==> same_left_coset::<G, H, Op>(b, a)
    &&& forall|a: G::V, b: G::V, c: G::V|
        #[trigger] same_left_coset::<G, H, Op>(a, b) && #[trigger] same_left_coset::<G, H, Op>(b, c)
            ==> same_left_coset::<G, H, Op>(a, c)
    &&& forall|a: G::V|
        same_left_coset::<G, H, Op>(a, #[trigger] H::reduced(a)) && same_left_coset::<G, H, Op>(
            H::reduced(a),
            a,
        )
    &&& forall|a: G::V, b: G::V, c: G::V, d: G::V|
        same_left_coset::<G, H, Op>(a, b) && same_left_coset::<G, H, Op>(c, d)
            ==> #[trigger] same_left_coset::<G, H, Op>(Op::op(a, c), Op::op(b, d))
    &&& forall|a: G::V, b: G::V|
        same_left_coset::<G, H, Op>(a, b) ==> #[trigger] same_left_coset::<G, H, Op>(G::inv(a), G::inv(b))
}

/// Left cosets are symmetric.
proof fn lemma_left_coset_symmetric<G: Group<Op>, H: NormalSubgroup<G, Op>, Op: O2<G>>(
    a: G::V,
    b: G::V,
)
    requires
        same_left_coset::<G, H, Op>(a, b),
    ensures
        same_left_coset::<G, H, Op>(b, a),
{
    lemma_group_law_bundle::<G, Op>();
    let h = Op::op(G::inv(a), b);
    H::lemma_subgroup(h, h);
    lemma_inverse_of_product::<G, Op>(G::inv(a), b);
    lemma_inverse_of_product::<G, Op>(a, a);
    assert(G::eqv(Op::op(G::inv(b), G::inv(G::inv(a))), Op::op(G::inv(b), a)));
    assert(G::eqv(G::inv(h), Op::op(G::inv(b), a)));
    H::lemma_member_respects_eqv(G::inv(h), Op::op(G::inv(b), a));
}

/// The operation preserves left cosets of a normal subgroup.
proof fn lemma_left_coset_op<G: Group<Op>, H: NormalSubgroup<G, Op>, Op: O2<G>>(
    a: G::V,
    b: G::V,
    c: G::V,
    d: G::V,
)
    requires
        same_left_coset::<G, H, Op>(a, b),
        same_left_coset::<G, H, Op>(c, d),
    ensures
        same_left_coset::<G, H, Op>(Op::op(a, c), Op::op(b, d)),
{
    lemma_group_law_bundle::<G, Op>();
    let e = G::id();
    let ia = G::inv(a);
    let ic = G::inv(c);
    let h1 = Op::op(ia, b);
    let h2 = Op::op(ic, d);
    let bd = Op::op(b, d);
    let target = Op::op(G::inv(Op::op(a, c)), bd);
    // target = c^-1 * (h1 * d)
    lemma_inverse_of_product::<G, Op>(a, c);
    assert(G::eqv(target, Op::op(Op::op(ic, ia), bd)));
    assert(G::eqv(Op::op(Op::op(ic, ia), bd), Op::op(ic, Op::op(ia, bd))));
    assert(G::eqv(Op::op(ia, bd), Op::op(h1, d)));
    assert(G::eqv(Op::op(ic, Op::op(ia, bd)), Op::op(ic, Op::op(h1, d))));
    assert(G::eqv(target, Op::op(Op::op(ic, ia), bd)));
    assert(G::eqv(target, Op::op(ic, Op::op(ia, bd))));
    assert(G::eqv(target, Op::op(ic, Op::op(h1, d))));
    // n = (c^-1 * h1) * c is in H
    H::lemma_normal(ic, h1);
    lemma_inverse_of_product::<G, Op>(c, c);
    let ich = Op::op(ic, h1);
    assert(G::eqv(Op::op(ich, G::inv(ic)), Op::op(ich, c)));
    H::lemma_member_respects_eqv(Op::op(ich, G::inv(ic)), Op::op(ich, c));
    let n = Op::op(ich, c);
    H::lemma_subgroup(n, h2);
    // n * h2 = c^-1 * (h1 * d)
    let m = Op::op(n, h2);
    assert(G::eqv(m, Op::op(ich, Op::op(c, h2))));
    assert(G::eqv(Op::op(c, h2), Op::op(Op::op(c, ic), d)));
    assert(G::eqv(Op::op(Op::op(c, ic), d), Op::op(e, d)));
    assert(G::eqv(Op::op(e, d), d));
    assert(G::eqv(Op::op(c, h2), Op::op(e, d)));
    assert(G::eqv(Op::op(c, h2), d));
    assert(G::eqv(Op::op(ich, Op::op(c, h2)), Op::op(ich, d)));
    assert(G::eqv(Op::op(ich, d), Op::op(ic, Op::op(h1, d))));
    assert(G::eqv(m, Op::op(ich, d)));
    assert(G::eqv(m, Op::op(ic, Op::op(h1, d))));
    assert(G::eqv(Op::op(ic, Op::op(h1, d)), target));
    assert(G::eqv(m, target));
    H::lemma_member_respects_eqv(m, target);
}

/// Inverses preserve left cosets of a normal subgroup.
proof fn lemma_left_coset_inv<G: Group<Op>, H: NormalSubgroup<G, Op>, Op: O2<G>>(a: G::V, b: G::V)
    requires
        same_left_coset::<G, H, Op>(a, b),
    ensures
        same_left_coset::<G, H, Op>(G::inv(a), G::inv(b)),
{
    lemma_group_law_bundle::<G, Op>();
    let e = G::id();
    let ia = G::inv(a);
    let ib = G::inv(b);
    let h = Op::op(ia, b);
    H::lemma_subgroup(h, h);
    let hi = G::inv(h);
    // h^-1 = b^-1 * a
    lemma_inverse_of_product::<G, Op>(ia, b);
    lemma_inverse_of_product::<G, Op>(a, b);
    assert(G::eqv(hi, Op::op(ib, G::inv(ia))));
    assert(G::eqv(Op::op(ib, G::inv(ia)), Op::op(ib, a)));
    assert(G::eqv(hi, Op::op(ib, a)));
    // (a * h^-1) * a^-1 is in H, and equals a * b^-1
    H::lemma_normal(a, hi);
    let x = Op::op(Op::op(a, hi), ia);
    assert(G::eqv(x, Op::op(a, Op::op(hi, ia))));
    assert(G::eqv(Op::op(hi, ia), Op::op(Op::op(ib, a), ia)));
    assert(G::eqv(Op::op(Op::op(ib, a), ia), Op::op(ib, Op::op(a, ia))));
    assert(G::eqv(Op::op(ib, Op::op(a, ia)), Op::op(ib, e)));
    assert(G::eqv(Op::op(ib, e), ib));
    assert(G::eqv(Op::op(Op::op(ib, a), ia), Op::op(ib, e)));
    assert(G::eqv(Op::op(Op::op(ib, a), ia), ib));
    assert(G::eqv(Op::op(hi, ia), ib));
    assert(G::eqv(Op::op(a, Op::op(hi, ia)), Op::op(a, ib)));
    assert(G::eqv(x, Op::op(a, ib)));
    let target = Op::op(G::inv(ia), ib);
    assert(G::eqv(G::inv(ia), a));
    assert(G::eqv(target, Op::op(a, ib)));
    assert(G::eqv(x, target));
    H::lemma_member_respects_eqv(x, target);
}

/// Every normal subgroup satisfies [`left_coset_laws`].
pub proof fn lemma_left_coset_laws<G: Group<Op>, H: NormalSubgroup<G, Op>, Op: O2<G>>()
    ensures
        left_coset_laws::<G, H, Op>(),
{
    lemma_group_law_bundle::<G, Op>();
    let e = G::id();
    H::lemma_subgroup(e, e);
    assert forall|a: G::V, b: G::V| G::eqv(a, b) implies #[trigger] same_left_coset::<G, H, Op>(a, b) by {
        assert(G::eqv(Op::op(G::inv(a), b), Op::op(G::inv(a), a)));
        assert(G::eqv(e, Op::op(G::inv(a), b)));
        H::lemma_member_respects_eqv(e, Op::op(G::inv(a), b));
    }
    assert forall|a: G::V, b: G::V| #[trigger] same_left_coset::<G, H, Op>(a, b) implies same_left_coset::<G, H, Op>(b, a) by {
        lemma_left_coset_symmetric::<G, H, Op>(a, b);
    }
    assert forall|a: G::V, b: G::V, c: G::V|
        #[trigger] same_left_coset::<G, H, Op>(a, b) && #[trigger] same_left_coset::<G, H, Op>(
            b,
            c,
        ) implies same_left_coset::<G, H, Op>(a, c) by {
        let x = Op::op(G::inv(a), b);
        let y = Op::op(G::inv(b), c);
        H::lemma_subgroup(x, y);
        lemma_group_telescope::<G, Op>(a, b, c);
        H::lemma_member_respects_eqv(Op::op(x, y), Op::op(G::inv(a), c));
    }
    assert forall|a: G::V|
        same_left_coset::<G, H, Op>(a, #[trigger] H::reduced(a)) && same_left_coset::<G, H, Op>(
            H::reduced(a),
            a,
        ) by {
        H::lemma_reduced(a);
        lemma_left_coset_symmetric::<G, H, Op>(a, H::reduced(a));
    }
    assert forall|a: G::V, b: G::V, c: G::V, d: G::V|
        same_left_coset::<G, H, Op>(a, b) && same_left_coset::<G, H, Op>(c, d) implies #[trigger] same_left_coset::<G, H, Op>(
            Op::op(a, c),
            Op::op(b, d),
        ) by {
        lemma_left_coset_op::<G, H, Op>(a, b, c, d);
    }
    assert forall|a: G::V, b: G::V|
        same_left_coset::<G, H, Op>(a, b) implies #[trigger] same_left_coset::<G, H, Op>(
            G::inv(a),
            G::inv(b),
        ) by {
        lemma_left_coset_inv::<G, H, Op>(a, b);
    }
}

/// An element of the quotient of the group `G` by the normal subgroup `H`: a representative of
/// its coset. Two elements are equal when `a^-1 * b` lies in `H`.
#[verifier::reject_recursive_types(G)]
#[verifier::reject_recursive_types(H)]
#[verifier::reject_recursive_types(Op)]
pub struct QuotientGroup<G, H, Op> {
    representative: G,
    h: PhantomData<H>,
    o: PhantomData<Op>,
}

impl<G: View, H, Op> View for QuotientGroup<G, H, Op> {
    type V = G::V;

    closed spec fn view(&self) -> G::V {
        self.representative@
    }
}

impl<G: Group<Op>, H: NormalSubgroup<G, Op>, Op: O2<G>> QuotientGroup<G, H, Op> {
    /// The coset of `g`, stored by the representative that the subgroup picks. This is a group
    /// homomorphism from `G` with kernel `H`.
    pub fn from(g: G) -> (r: Self)
        ensures
            r@ == H::reduced(g@),
    {
        QuotientGroup { representative: H::reduce(g), h: PhantomData, o: PhantomData }
    }

    /// The stored representative.
    pub fn representative(&self) -> (r: &G)
        ensures
            r@ == self@,
    {
        &self.representative
    }

    /// The element written as `[representative]`.
    pub fn render(&self) -> (r: String) where G: Text
        ensures
            r@ == seq!['['] + G::shown(self@) + seq![']'],
    {
        bracketed(&self.representative)
    }
}

impl<G: Group<Op>, H: NormalSubgroup<G, Op>, Op: O2<G>> Setoid for QuotientGroup<G, H, Op> {
    open spec fn eqv(a: G::V, b: G::V) -> bool {
        same_left_coset::<G, H, Op>(a, b)
    }

    proof fn lemma_eqv_equivalence(a: G::V, b: G::V, c: G::V) {
        lemma_group_law_bundle::<G, Op>();
        lemma_left_coset_laws::<G, H, Op>();
    }

    fn equals(&self, other: &Self) -> (r: bool) {
        let d = Op::apply(self.representative.duplicate().inverse(), &other.representative);
        H::contains(&d)
    }

    fn duplicate(&self) -> (r: Self) {
        QuotientGroup { representative: self.representative.duplicate(), h: PhantomData, o: PhantomData }
    }
}

impl<G: Group<Op>, H: NormalSubgroup<G, Op>, Op: O2<G>> O2<QuotientGroup<G, H, Op>> for Op {
    open spec fn op(a: G::V, b: G::V) -> G::V {
        H::reduced(<Op as O2<G>>::op(a, b))
    }

    fn apply(a: QuotientGroup<G, H, Op>, b: &QuotientGroup<G, H, Op>) -> (r: QuotientGroup<G, H, Op>) {
        QuotientGroup::from(<Op as O2<G>>::apply(a.representative, &b.representative))
    }
}

/// Reduced representatives of elements of one left coset lie in one left coset.
proof fn lemma_left_reduced_congruent<G: Group<Op>, H: NormalSubgroup<G, Op>, Op: O2<G>>(
    x: G::V,
    y: G::V,
)
    requires
        left_coset_laws::<G, H, Op>(),
        same_left_coset::<G, H, Op>(x, y),
    ensures
        same_left_coset::<G, H, Op>(H::reduced(x), H::reduced(y)),
{
    assert(same_left_coset::<G, H, Op>(H::reduced(x), x));
    assert(same_left_coset::<G, H, Op>(y, H::reduced(y)));
    assert(same_left_coset::<G, H, Op>(H::reduced(x), y));
}

impl<G: Group<Op>, H: NormalSubgroup<G, Op>, Op: O2<G>> Monoid<Op> for QuotientGroup<G, H, Op> {
    open spec fn id() -> G::V {
        H::reduced(G::id())
    }

    proof fn lemma_associative(a: G::V, b: G::V, c: G::V) {
        lemma_group_law_bundle::<G, Op>();
        lemma_left_coset_laws::<G, H, Op>();
        let ab = H::reduced(<Op as O2<G>>::op(a, b));
        let bc = H::reduced(<Op as O2<G>>::op(b, c));
        let x = <Op as O2<G>>::op(ab, c);
        let y = <Op as O2<G>>::op(a, bc);
        let abc1 = <Op as O2<G>>::op(<Op as O2<G>>::op(a, b), c);
        let abc2 = <Op as O2<G>>::op(a, <Op as O2<G>>::op(b, c));
        assert(same_left_coset::<G, H, Op>(a, a));
        assert(same_left_coset::<G, H, Op>(c, c));
        assert(same_left_coset::<G, H, Op>(ab, <Op as O2<G>>::op(a, b)));
        assert(same_left_coset::<G, H, Op>(bc, <Op as O2<G>>::op(b, c)));
        assert(same_left_coset::<G, H, Op>(x, abc1));
        assert(same_left_coset::<G, H, Op>(abc1, abc2));
        assert(same_left_coset::<G, H, Op>(y, abc2));
        assert(same_left_coset::<G, H, Op>(abc2, y));
        assert(same_left_coset::<G, H, Op>(x, abc2));
        assert(same_left_coset::<G, H, Op>(x, y));
        lemma_left_reduced_congruent::<G, H, Op>(x, y);
    }

    proof fn lemma_identity(a: G::V) {
        lemma_group_law_bundle::<G, Op>();
        lemma_left_coset_laws::<G, H, Op>();
        let e0 = G::id();
        let e = H::reduced(e0);
        assert(same_left_coset::<G, H, Op>(e, e0));
        assert(same_left_coset::<G, H, Op>(a, a));
        let ae = <Op as O2<G>>::op(a, e);
        let ea = <Op as O2<G>>::op(e, a);
        assert(same_left_coset::<G, H, Op>(ae, <Op as O2<G>>::op(a, e0)));
        assert(same_left_coset::<G, H, Op>(<Op as O2<G>>::op(a, e0), a));
        assert(same_left_coset::<G, H, Op>(H::reduced(ae), ae));
        assert(same_left_coset::<G, H, Op>(H::reduced(ae), <Op as O2<G>>::op(a, e0)));
        assert(same_left_coset::<G, H, Op>(ea, <Op as O2<G>>::op(e0, a)));
        assert(same_left_coset::<G, H, Op>(<Op as O2<G>>::op(e0, a), a));
        assert(same_left_coset::<G, H, Op>(H::reduced(ea), ea));
        assert(same_left_coset::<G, H, Op>(H::reduced(ea), <Op as O2<G>>::op(e0, a)));
    }

    proof fn lemma_congruent(a: G::V, b: G::V, c: G::V, d: G::V) {
        lemma_left_coset_laws::<G, H, Op>();
        lemma_left_reduced_congruent::<G, H, Op>(<Op as O2<G>>::op(a, c), <Op as O2<G>>::op(b, d));
    }

    fn identity() -> (r: Self) {
        QuotientGroup::from(G::identity())
    }
}

impl<G: Group<Op>, H: NormalSubgroup<G, Op>, Op: O2<G>> Group<Op> for QuotientGroup<G, H, Op> {
    open spec fn inv(a: G::V) -> G::V {
        H::reduced(G::inv(a))
    }

    proof fn lemma_inverse(a: G::V) {
        lemma_group_law_bundle::<G, Op>();
        lemma_left_coset_laws::<G, H, Op>();
        let e0 = G::id();
        let e = H::reduced(e0);
        let ia = G::inv(a);
        let na = H::reduced(ia);
        assert(same_left_coset::<G, H, Op>(na, ia));
        assert(same_left_coset::<G, H, Op>(a, a));
        let x = <Op as O2<G>>::op(a, na);
        let y = <Op as O2<G>>::op(na, a);
        assert(same_left_coset::<G, H, Op>(x, <Op as O2<G>>::op(a, ia)));
        assert(same_left_coset::<G, H, Op>(<Op as O2<G>>::op(a, ia), e0));
        assert(same_left_coset::<G, H, Op>(e0, e));
        assert(same_left_coset::<G, H, Op>(H::reduced(x), x));
        assert(same_left_coset::<G, H, Op>(H::reduced(x), <Op as O2<G>>::op(a, ia)));
        assert(same_left_coset::<G, H, Op>(H::reduced(x), e0));
        assert(same_left_coset::<G, H, Op>(y, <Op as O2<G>>::op(ia, a)));
        assert(same_left_coset::<G, H, Op>(<Op as O2<G>>::op(ia, a), e0));
        assert(same_left_coset::<G, H, Op>(H::reduced(y), y));
        assert(same_left_coset::<G, H, Op>(H::reduced(y), <Op as O2<G>>::op(ia, a)));
        assert(same_left_coset::<G, H, Op>(H::reduced(y), e0));
    }

    proof fn lemma_inverse_congruent(a: G::V, b: G::V) {
        lemma_left_coset_laws::<G, H, Op>();
        lemma_left_reduced_congruent::<G, H, Op>(G::inv(a), G::inv(b));
    }

    fn inverse(self) -> (r: Self) {
        QuotientGroup::from(self.representative.inverse())
    }
}

/// Two values give equal elements of the quotient group exactly when `a^-1 * b` lies in the
/// subgroup.
pub proof fn lemma_quotient_group_equality<G: Group<Op>, H: NormalSubgroup<G, Op>, Op: O2<G>>(
    a: G::V,
    b: G::V,
)
    ensures
        QuotientGroup::<G, H, Op>::eqv(H::reduced(a), H::reduced(b)) <==> H::member(
            <Op as O2<G>>::op(G::inv(a), b),
        ),
{
    lemma_group_law_bundle::<G, Op>();
    lemma_left_coset_laws::<G, H, Op>();
    let ra = H::reduced(a);
    let rb = H::reduced(b);
    if H::member(<Op as O2<G>>::op(G::inv(a), b)) {
        assert(same_left_coset::<G, H, Op>(a, b));
        assert(same_left_coset::<G, H, Op>(ra, a));
        assert(same_left_coset::<G, H, Op>(ra, b));
        assert(same_left_coset::<G, H, Op>(ra, rb));
    }
    if same_left_coset::<G, H, Op>(ra, rb) {
        assert(same_left_coset::<G, H, Op>(a, ra));
        assert(same_left_coset::<G, H, Op>(a, rb));
        assert(same_left_coset::<G, H, Op>(a, b));
    }
}

} // verus!
