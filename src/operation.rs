use vstd::prelude::*;

verus! {

/// A binary operation on `S`, attached to a carrier type rather than to `S` itself, so that one
/// element type can carry several unrelated operations. `op` is the operation on the abstract
/// values that `S` stands for.
pub trait O2<S: View> {
    spec fn op(a: S::V, b: S::V) -> S::V;

    fn apply(a: S, b: &S) -> (r: S)
        ensures
            r@ == Self::op(a@, b@),
    ;
}

/// A nullary operation (a distinguished constant) of `S`.
pub trait O0<S: View> {
    spec fn value() -> S::V;

    fn apply() -> (r: S)
        ensures
            r@ == Self::value(),
    ;
}

/// A unary operation on `S`.
pub trait O1<S: View> {
    spec fn map(a: S::V) -> S::V;

    fn apply(a: S) -> (r: S)
        ensures
            r@ == Self::map(a@),
    ;
}

} // verus!
