use vstd::prelude::*;
use crate::operation::O2;
use crate::set::{Setoid, Subset};
use crate::structure::monoid::{Monoid, power};

verus! {

/// `a` raised to the signed power `n`: a negative power is the inverse of the positive one.
pub open spec fn group_power<G: Group<Op>, Op: O2<G>>(a: G::V, n: int) -> G::V {
    if n >= 0 {
        power::<G, Op>(G::id(), a, n as nat)
    } else {
        G::inv(power::<G, Op>(G::id(), a, (-n) as nat))
    }
}

/// In addition to the laws of [`Monoid`], the product of any element with its inverse is the
/// identity, and taking inverses preserves equality.
pub trait Group<Op: O2<Self>>: Monoid<Op> {
    spec fn inv(a: Self::V) -> Self::V;

    proof fn lemma_inverse(a: Self::V)
        ensures
            Self::eqv(Op::op(a, Self::inv(a)), Self::id()),
            Self::eqv(Op::op(Self::inv(a), a), Self::id()),
    ;

    proof fn lemma_inverse_congruent(a: Self::V, b: Self::V)
        requires
            Self::eqv(a, b),
        ensures
            Self::eqv(Self::inv(a), Self::inv(b)),
    ;

    fn inverse(self) -> (r: Self)
        ensures
            r@ == Self::inv(self@),
    ;

    /// `a` raised to a signed power: a positive power by repeated squaring, any other power as
    /// the inverse of the opposite power.
    fn signed_pow(a: Self, n: i64) -> (r: Self)
        ensures
            n >= 0 ==> Self::eqv(r@, power::<Self, Op>(Self::id(), a@, n as nat)),
            n < 0 ==> Self::eqv(r@, Self::inv(power::<Self, Op>(Self::id(), a@, (-n) as nat))),
    {
        if n > 0 {
            return <Self as Monoid<Op>>::pow(a, n as u64);
        }
        let ghost av = a@;
        let m: u64 = (-(n as i128)) as u64;
        let p = <Self as Monoid<Op>>::pow(a, m);
        let r = p.inverse();
        proof {
            let pw = power::<Self, Op>(Self::id(), av, m as nat);
            Self::lemma_inverse_congruent(p@, pw);
            if n == 0 {
                // inv(e) ~ e * inv(e) ~ e
                let e = Self::id();
                Self::lemma_identity(Self::inv(e));
                Self::lemma_inverse(e);
                Self::lemma_eqv_equivalence(Self::inv(e), Op::op(e, Self::inv(e)), e);
                Self::lemma_eqv_equivalence(Op::op(e, Self::inv(e)), Self::inv(e), e);
                assert(pw == e);
                Self::lemma_eqv_equivalence(r@, Self::inv(e), e);
            }
        }
        r
    }
}

/// A group whose operation is commutative.
pub trait AbelianGroup<Op: O2<Self>>: Group<Op> {
    proof fn lemma_commutative(a: Self::V, b: Self::V)
        ensures
            Self::eqv(Op::op(a, b), Op::op(b, a)),
    ;
}

/// A subset of `G` that holds the identity and is closed under the operation and inverses.
pub trait Subgroup<G: Group<Op>, Op: O2<G>>: Subset<G> {
    proof fn lemma_subgroup(a: G::V, b: G::V)
        ensures
            Self::member(G::id()),
            Self::member(a) && Self::member(b) ==> Self::member(Op::op(a, b)),
            Self::member(a) ==> Self::member(G::inv(a)),
    ;
}

/// A subgroup `H` such that `g * h * g^-1` is in `H` for every `h` in `H` and `g` in `G`.
pub trait NormalSubgroup<G: Group<Op>, Op: O2<G>>: Subgroup<G, Op> {
    proof fn lemma_normal(g: G::V, h: G::V)
        requires
            Self::member(h),
        ensures
            Self::member(Op::op(Op::op(g, h), G::inv(g))),
    ;

    /// The representative that `reduce` picks for the coset of `g`.
    spec fn reduced(g: G::V) -> G::V;

    /// The representative lies in the coset of `g`.
    proof fn lemma_reduced(g: G::V)
        ensures
            Self::member(Op::op(G::inv(g), Self::reduced(g))),
    ;

    /// A representative of the coset of `g`, chosen to keep repeated computation small (the
    /// remainder modulo `n`, say).
    fn reduce(g: G) -> (r: G)
        ensures
            r@ == Self::reduced(g@),
    ;
}

/// The laws that every group satisfies: an element times its inverse is the identity, the
/// zeroth power is the identity, and a negative power is the inverse of the positive power.
pub proof fn lemma_group_laws<G: Group<Op>, Op: O2<G>>(a: G::V, n: nat)
    ensures
        G::eqv(Op::op(a, G::inv(a)), G::id()),
        group_power::<G, Op>(a, 0) == G::id(),
        n > 0 ==> group_power::<G, Op>(a, -n) == G::inv(group_power::<G, Op>(a, n as int)),
{
    G::lemma_inverse(a);
}

/// Every law of a group, quantified over its values.
pub open spec fn group_laws<G: Group<Op>, Op: O2<G>>() -> bool {
    &&& forall|a: G::V| #[trigger] G::eqv(a, a)
    &&& forall|a: G::V, b: G::V| #[trigger] G::eqv(a, b) ==> G::eqv(b, a)
    &&& forall|a: G::V, b: G::V, c: G::V|
        #[trigger] G::eqv(a, b) && #[trigger] G::eqv(b, c) ==> G::eqv(a, c)
    &&& forall|a: G::V, b: G::V, c: G::V, d: G::V|
        G::eqv(a, b) && G::eqv(c, d) ==> #[trigger] G::eqv(Op::op(a, c), Op::op(b, d))
    &&& forall|a: G::V, b: G::V| G::eqv(a, b) ==> #[trigger] G::eqv(G::inv(a), G::inv(b))
    &&& forall|a: G::V, b: G::V, c: G::V|
        G::eqv(#[trigger] Op::op(Op::op(a, b), c), Op::op(a, Op::op(b, c)))
    &&& forall|a: G::V, b: G::V, c: G::V|
        G::eqv(Op::op(Op::op(a, b), c), #[trigger] Op::op(a, Op::op(b, c)))
    &&& forall|a: G::V| G::eqv(#[trigger] Op::op(a, G::id()), a)
    &&& forall|a: G::V| G::eqv(#[trigger] Op::op(G::id(), a), a)
    &&& forall|a: G::V| G::eqv(#[trigger] Op::op(a, G::inv(a)), G::id())
    &&& forall|a: G::V| G::eqv(#[trigger] Op::op(G::inv(a), a), G::id())
}

/// Every group satisfies [`group_laws`].
pub proof fn lemma_group_law_bundle<G: Group<Op>, Op: O2<G>>()
    ensures
        group_laws::<G, Op>(),
{
    G::lemma_monoid_laws();
    assert forall|a: G::V, b: G::V, c: G::V|
        #[trigger] G::eqv(a, b) && #[trigger] G::eqv(b, c) implies G::eqv(a, c) by {
        G::lemma_eqv_equivalence(a, b, c);
    }
    assert forall|a: G::V, b: G::V| #[trigger] G::eqv(a, b) implies G::eqv(b, a) by {
        G::lemma_eqv_equivalence(a, b, a);
    }
    assert forall|a: G::V| #[trigger] G::eqv(a, a) by {
        G::lemma_eqv_equivalence(a, a, a);
    }
    assert forall|a: G::V, b: G::V| G::eqv(a, b) implies #[trigger] G::eqv(G::inv(a), G::inv(b)) by {
        G::lemma_inverse_congruent(a, b);
    }
    assert forall|a: G::V| G::eqv(#[trigger] Op::op(a, G::inv(a)), G::id()) by {
        G::lemma_inverse(a);
    }
    assert forall|a: G::V| G::eqv(#[trigger] Op::op(G::inv(a), a), G::id()) by {
        G::lemma_inverse(a);
    }
}

/// `(a * b)^-1 = b^-1 * a^-1` and `(a^-1)^-1 = a`.
pub proof fn lemma_inverse_of_product<G: Group<Op>, Op: O2<G>>(a: G::V, b: G::V)
    ensures
        G::eqv(G::inv(Op::op(a, b)), Op::op(G::inv(b), G::inv(a))),
        G::eqv(G::inv(G::inv(a)), a),
{
    lemma_group_law_bundle::<G, Op>();
    let e = G::id();
    let ab = Op::op(a, b);
    let ia = G::inv(a);
    let ib = G::inv(b);
    let x = Op::op(ib, ia);
    // (a * b) * (b^-1 * a^-1) = e
    assert(G::eqv(Op::op(ab, x), Op::op(a, Op::op(b, x))));
    assert(G::eqv(Op::op(b, x), Op::op(Op::op(b, ib), ia)));
    assert(G::eqv(Op::op(Op::op(b, ib), ia), Op::op(e, ia)));
    assert(G::eqv(Op::op(e, ia), ia));
    assert(G::eqv(Op::op(b, x), ia));
    assert(G::eqv(Op::op(a, Op::op(b, x)), Op::op(a, ia)));
    assert(G::eqv(Op::op(ab, x), e));
    lemma_inverse_unique::<G, Op>(ab, x);
    assert(G::eqv(Op::op(ia, a), e));
    lemma_inverse_unique::<G, Op>(ia, a);
}

/// An element that combines with `x` to the identity is the inverse of `x`.
pub proof fn lemma_inverse_unique<G: Group<Op>, Op: O2<G>>(x: G::V, y: G::V)
    requires
        G::eqv(Op::op(x, y), G::id()),
    ensures
        G::eqv(G::inv(x), y),
{
    lemma_group_law_bundle::<G, Op>();
    let e = G::id();
    let ix = G::inv(x);
    // x^-1 = x^-1 * e = x^-1 * (x * y) = (x^-1 * x) * y = e * y = y
    assert(G::eqv(Op::op(ix, e), ix));
    assert(G::eqv(Op::op(ix, Op::op(x, y)), Op::op(ix, e)));
    assert(G::eqv(Op::op(Op::op(ix, x), y), Op::op(ix, Op::op(x, y))));
    assert(G::eqv(Op::op(Op::op(ix, x), y), Op::op(e, y)));
    assert(G::eqv(Op::op(e, y), y));
    assert(G::eqv(Op::op(Op::op(ix, x), y), y));
    assert(G::eqv(Op::op(ix, Op::op(x, y)), y));
    assert(G::eqv(Op::op(ix, e), y));
}

/// The representative that the default reduction picks for the coset of `g`: the identity for
/// members of `H`, `g` itself otherwise.
pub open spec fn default_reduced<G: Group<Op>, Op: O2<G>, H: Subgroup<G, Op>>(g: G::V) -> G::V {
    if H::member(g) {
        G::id()
    } else {
        g
    }
}

/// The default representative lies in the coset of `g`.
pub proof fn lemma_default_reduced<G: Group<Op>, Op: O2<G>, H: Subgroup<G, Op>>(g: G::V)
    ensures
        H::member(Op::op(G::inv(g), default_reduced::<G, Op, H>(g))),
{
    G::lemma_monoid_laws();
    G::lemma_inverse(g);
    H::lemma_subgroup(g, g);
    H::lemma_subgroup(G::inv(g), g);
    let r = default_reduced::<G, Op, H>(g);
    if H::member(g) {
        G::lemma_eqv_equivalence(Op::op(G::inv(g), r), G::inv(g), G::inv(g));
        H::lemma_member_respects_eqv(G::inv(g), Op::op(G::inv(g), r));
    } else {
        G::lemma_eqv_equivalence(Op::op(G::inv(g), g), G::id(), G::id());
        H::lemma_member_respects_eqv(G::id(), Op::op(G::inv(g), g));
    }
}

/// The default reduction, for a subgroup (or an ideal, as a subgroup of the additive group)
/// without a better one: the identity for members, `g` itself otherwise. An implementation of
/// `NormalSubgroup` or `Ideal` can take `default_reduced` as its `reduced` and this as its
/// `reduce`.
pub fn default_reduce<G: Group<Op>, Op: O2<G>, H: Subgroup<G, Op>>(g: G) -> (r: G)
    ensures
        r@ == default_reduced::<G, Op, H>(g@),
        H::member(Op::op(G::inv(g@), r@)),
{
    proof {
        lemma_default_reduced::<G, Op, H>(g@);
    }
    if H::contains(&g) {
        G::identity()
    } else {
        g
    }
}

} // verus!
