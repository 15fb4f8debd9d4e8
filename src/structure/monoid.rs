use vstd::prelude::*;
use crate::operation::O2;
use crate::set::{Setoid, Subset};

verus! {

/// `a` combined with itself `n` times under `Op`, starting from `unit`.
pub open spec fn power<S: View, Op: O2<S>>(unit: S::V, a: S::V, n: nat) -> S::V
    decreases n,
{
    if n == 0 {
        unit
    } else {
        Op::op(a, power::<S, Op>(unit, a, (n - 1) as nat))
    }
}

/// `Op` is associative, has `unit` as its identity on both sides, and preserves equality.
pub open spec fn monoid_laws<S: Setoid, Op: O2<S>>(unit: S::V) -> bool {
    &&& forall|a: S::V, b: S::V, c: S::V| #[trigger]
        S::eqv(Op::op(Op::op(a, b), c), Op::op(a, Op::op(b, c)))
    &&& forall|a: S::V| #[trigger] S::eqv(Op::op(a, unit), a)
    &&& forall|a: S::V| #[trigger] S::eqv(Op::op(unit, a), a)
    &&& forall|a: S::V, b: S::V, c: S::V, d: S::V|
        S::eqv(a, b) && S::eqv(c, d) ==> #[trigger] S::eqv(Op::op(a, c), Op::op(b, d))
}

/// Any implementation guarantees that `Op` is associative, that `identity` is its identity,
/// and that `Op` preserves the equality of the value domain.
pub trait Monoid<Op: O2<Self>>: Setoid {
    spec fn id() -> Self::V;

    proof fn lemma_associative(a: Self::V, b: Self::V, c: Self::V)
        ensures
            Self::eqv(Op::op(Op::op(a, b), c), Op::op(a, Op::op(b, c))),
    ;

    proof fn lemma_identity(a: Self::V)
        ensures
            Self::eqv(Op::op(a, Self::id()), a),
            Self::eqv(Op::op(Self::id(), a), a),
    ;

    proof fn lemma_congruent(a: Self::V, b: Self::V, c: Self::V, d: Self::V)
        requires
            Self::eqv(a, b),
            Self::eqv(c, d),
        ensures
            Self::eqv(Op::op(a, c), Op::op(b, d)),
    ;

    proof fn lemma_monoid_laws()
        ensures
            monoid_laws::<Self, Op>(Self::id()),
    {
        assert forall|a: Self::V, b: Self::V, c: Self::V|
            #[trigger] Self::eqv(Op::op(Op::op(a, b), c), Op::op(a, Op::op(b, c))) by {
            Self::lemma_associative(a, b, c);
        }
        assert forall|a: Self::V| #[trigger] Self::eqv(Op::op(a, Self::id()), a) by {
            Self::lemma_identity(a);
        }
        assert forall|a: Self::V| #[trigger] Self::eqv(Op::op(Self::id(), a), a) by {
            Self::lemma_identity(a);
        }
        assert forall|a: Self::V, b: Self::V, c: Self::V, d: Self::V|
            Self::eqv(a, b) && Self::eqv(c, d) implies #[trigger] Self::eqv(
                Op::op(a, c),
                Op::op(b, d),
            ) by {
            Self::lemma_congruent(a, b, c, d);
        }
    }

    fn identity() -> (r: Self)
        ensures
            r@ == Self::id(),
    ;

    fn star(self, other: &Self) -> (r: Self)
        ensures
            r@ == Op::op(self@, other@),
    {
        Op::apply(self, other)
    }

    /// `self` combined with itself `n` times, by repeated squaring.
    fn pow(self, n: u64) -> (r: Self)
        ensures
            Self::eqv(r@, power::<Self, Op>(Self::id(), self@, n as nat)),
    {
        proof {
            Self::lemma_monoid_laws();
        }
        let ghost a = self@;
        let mut result = Self::identity();
        let mut base = self;
        let mut e: u64 = n;
        let ghost mut m: nat = 0;
        let ghost mut b: nat = 1;
        proof {
            Self::lemma_eqv_equivalence(result@, result@, result@);
            lemma_power_one::<Self, Op>(Self::id(), a);
        }
        while e > 0
            invariant
                monoid_laws::<Self, Op>(Self::id()),
                Self::eqv(result@, power::<Self, Op>(Self::id(), a, m)),
                Self::eqv(base@, power::<Self, Op>(Self::id(), a, b)),
                m + b * e == n,
            decreases e,
        {
            let ghost m0 = m;
            let ghost q = e / 2;
            let ghost rr = e % 2;
            assert(e == 2 * q + rr);
            if e % 2 == 1 {
                result = Op::apply(result, &base);
                proof {
                    let pm = power::<Self, Op>(Self::id(), a, m);
                    let pb = power::<Self, Op>(Self::id(), a, b);
                    lemma_power_add::<Self, Op>(Self::id(), a, m, b);
                    Self::lemma_eqv_equivalence(
                        result@,
                        Op::op(pm, pb),
                        power::<Self, Op>(Self::id(), a, m + b),
                    );
                    m = m + b;
                }
            }
            let sq = base.duplicate();
            base = Op::apply(base, &sq);
            proof {
                let pb = power::<Self, Op>(Self::id(), a, b);
                lemma_power_add::<Self, Op>(Self::id(), a, b, b);
                Self::lemma_eqv_equivalence(
                    base@,
                    Op::op(pb, pb),
                    power::<Self, Op>(Self::id(), a, b + b),
                );
                assert(m + (b + b) * q == n) by (nonlinear_arith)
                    requires
                        m0 + b * e == n,
                        e == 2 * q + rr,
                        m == m0 + b * rr,
                ;
                b = b + b;
            }
            e = e / 2;
        }
        result
    }
}

/// A subset that is itself a monoid under the same operation: it holds the identity and is
/// closed under the operation.
pub trait Submonoid<M: Monoid<Op>, Op: O2<M>>: Subset<M> {
    proof fn lemma_submonoid(a: M::V, b: M::V)
        ensures
            Self::member(M::id()),
            Self::member(a) && Self::member(b) ==> Self::member(Op::op(a, b)),
    ;
}

/// A subset `A` of `M` such that `a * m` is in `A` for all `a` in `A` and `m` in `M` (for
/// example the zero of the multiplicative monoid of a ring).
pub trait AbsorbingSubset<M: Monoid<Op>, Op: O2<M>>: Subset<M> {
    proof fn lemma_absorbs(a: M::V, m: M::V)
        requires
            Self::member(a),
        ensures
            Self::member(Op::op(a, m)),
            Self::member(Op::op(m, a)),
    ;

    fn times(self, m: &M) -> (r: Self)
        ensures
            Self::incl(r) == Op::op(Self::incl(self), m@),
    ;
}

/// `a` once is `a`.
pub proof fn lemma_power_one<S: Setoid, Op: O2<S>>(unit: S::V, a: S::V)
    requires
        monoid_laws::<S, Op>(unit),
    ensures
        S::eqv(power::<S, Op>(unit, a, 1), a),
        S::eqv(a, power::<S, Op>(unit, a, 1)),
{
    assert(power::<S, Op>(unit, a, 0) == unit);
    assert(power::<S, Op>(unit, a, 1) == Op::op(a, unit));
    S::lemma_eqv_equivalence(power::<S, Op>(unit, a, 1), a, a);
}

/// `a^m * a^k` is `a^(m+k)`.
pub proof fn lemma_power_add<S: Setoid, Op: O2<S>>(unit: S::V, a: S::V, m: nat, k: nat)
    requires
        monoid_laws::<S, Op>(unit),
    ensures
        S::eqv(Op::op(power::<S, Op>(unit, a, m), power::<S, Op>(unit, a, k)), power::<S, Op>(unit, a, m + k)),
    decreases m,
{
    let pk = power::<S, Op>(unit, a, k);
    if m == 0 {
        assert(S::eqv(Op::op(unit, pk), pk));
    } else {
        let pm1 = power::<S, Op>(unit, a, (m - 1) as nat);
        let rest = power::<S, Op>(unit, a, (m - 1 + k) as nat);
        lemma_power_add::<S, Op>(unit, a, (m - 1) as nat, k);
        assert(S::eqv(Op::op(Op::op(a, pm1), pk), Op::op(a, Op::op(pm1, pk))));
        S::lemma_eqv_equivalence(a, a, a);
        assert(S::eqv(Op::op(a, Op::op(pm1, pk)), Op::op(a, rest)));
        assert(power::<S, Op>(unit, a, m + k) == Op::op(a, rest));
        S::lemma_eqv_equivalence(
            Op::op(Op::op(a, pm1), pk),
            Op::op(a, Op::op(pm1, pk)),
            power::<S, Op>(unit, a, m + k),
        );
    }
}

/// Every monoid is associative and has `identity` as a two-sided identity:
/// `(a * b) * c == a * (b * c)` and `a * e == a == e * a`.
pub proof fn lemma_monoid_law<M: Monoid<Op>, Op: O2<M>>(a: M::V, b: M::V, c: M::V)
    ensures
        M::eqv(Op::op(Op::op(a, b), c), Op::op(a, Op::op(b, c))),
        M::eqv(Op::op(a, M::id()), a),
        M::eqv(Op::op(M::id(), a), a),
{
    M::lemma_associative(a, b, c);
    M::lemma_identity(a);
}

} // verus!
