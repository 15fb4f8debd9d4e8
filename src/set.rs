use vstd::prelude::*;
use crate::error::AlgebraError;

verus! {

/// A value domain: a type whose values stand for abstract values (its view), which can be
/// compared and duplicated. Equality is the equivalence relation `eqv` on abstract values, which
/// need not be their identity (two representatives of one coset are equal).
pub trait Setoid: View + Sized {
    spec fn eqv(a: Self::V, b: Self::V) -> bool;

    /// `eqv` is reflexive, symmetric and transitive.
    proof fn lemma_eqv_equivalence(a: Self::V, b: Self::V, c: Self::V)
        ensures
            Self::eqv(a, a),
            Self::eqv(a, b) ==> Self::eqv(b, a),
            Self::eqv(a, b) && Self::eqv(b, c) ==> Self::eqv(a, c),
    ;

    fn equals(&self, other: &Self) -> (r: bool)
        ensures
            r == Self::eqv(self@, other@),
    ;

    fn duplicate(&self) -> (r: Self)
        ensures
            r@ == self@,
    ;
}

/// A sub-collection of the value domain `T`, given by a membership predicate, with an
/// injection into `T` and a fallible extraction from it.
pub trait Subset<T: Setoid>: Sized {
    /// The membership predicate, on the abstract values of `T`.
    spec fn member(t: T::V) -> bool;

    /// The abstract value of `T` that `s` stands for.
    spec fn incl(s: Self) -> T::V;

    /// Members are closed under the equality of `T`.
    proof fn lemma_member_respects_eqv(a: T::V, b: T::V)
        requires
            Self::member(a),
            T::eqv(a, b),
        ensures
            Self::member(b),
    ;

    fn contains(t: &T) -> (r: bool)
        ensures
            r == Self::member(t@),
    ;

    /// The member that `self` stands for.
    fn inclusion(self) -> (r: T)
        ensures
            r@ == Self::incl(self),
            Self::member(r@),
    ;

    fn try_from(t: T) -> (r: Result<Self, AlgebraError>)
        ensures
            r is Ok <==> Self::member(t@),
            r is Ok ==> Self::incl(r->Ok_0) == t@,
            r is Err ==> r->Err_0 == AlgebraError::NotAMember,
    ;
}

/// A subset with finitely many members, listed once each up to the equality of `T`.
pub trait FiniteSubset<T: Setoid>: Subset<T> {
    spec fn listed() -> Seq<T::V>;

    fn order() -> (r: usize)
        ensures
            r == Self::listed().len(),
    ;

    /// Each member is equal to exactly one listed value, and every listed value is a member.
    proof fn lemma_listed(t: T::V)
        ensures
            Self::member(t) <==> exists|i: int|
                0 <= i < Self::listed().len() && T::eqv(#[trigger] Self::listed()[i], t),
    ;
}

/// A value domain with finitely many values, listed once each up to its equality.
pub trait FiniteSet: Setoid {
    spec fn listed() -> Seq<Self::V>;

    fn order() -> (r: usize)
        ensures
            r == Self::listed().len(),
    ;

    /// Every value is equal to some listed value.
    proof fn lemma_listed_covers(t: Self::V)
        ensures
            exists|i: int| 0 <= i < Self::listed().len() && Self::eqv(#[trigger] Self::listed()[i], t),
    ;
}

/// Extracting what a value of a subset stands for gives back an equal value: `try_from`
/// succeeds on every member and keeps it, and `inclusion` hands out a member.
pub proof fn lemma_round_trip<T: Setoid, S: Subset<T>>(s: S, back: S)
    requires
        S::member(S::incl(s)),
        S::incl(back) == S::incl(s),
    ensures
        T::eqv(S::incl(back), S::incl(s)),
{
    T::lemma_eqv_equivalence(S::incl(s), S::incl(s), S::incl(s));
}

/// A value with a text form.
pub trait Text: View {
    /// The text that stands for the abstract value `v`.
    spec fn shown(v: Self::V) -> Seq<char>;

    fn text(&self) -> (r: String)
        ensures
            r@ == Self::shown(self@),
    ;
}

} // verus!
