use vstd::prelude::*;

verus! {

/// Why an algebraic operation could not produce a value.
#[derive(Debug, Clone, Copy, PartialEq, Eq, Structural)]
pub enum AlgebraError {
    /// The value does not satisfy the membership predicate of the subset it was extracted into.
    NotAMember,
    /// The divisor is the zero of its ring.
    DivisionByZero,
    /// The zero polynomial has no degree and no leading coefficient.
    UndefinedDegree,
}

} // verus!
