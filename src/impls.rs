use vstd::prelude::*;
use crate::integer::{Integer, abs};
use crate::operation::O2;
use crate::set::Setoid;
use crate::structure::euclidean_ring::EuclideanRing;
use crate::structure::group::{AbelianGroup, Group};
use crate::structure::monoid::Monoid;
use crate::structure::ring::{Ring, RingOperations};

verus! {

/// Addition of integers.
pub struct Plus {}

/// Multiplication of integers.
pub struct Times {}

/// The usual ring operations of the integers.
pub struct StandardOps {}

impl Setoid for Integer {
    open spec fn eqv(a: int, b: int) -> bool {
        a == b
    }

    proof fn lemma_eqv_equivalence(a: int, b: int, c: int) {
    }

    fn equals(&self, other: &Integer) -> (r: bool) {
        self.same_value(other)
    }

    fn duplicate(&self) -> (r: Integer) {
        self.copy()
    }
}

impl O2<Integer> for Plus {
    open spec fn op(a: int, b: int) -> int {
        a + b
    }

    fn apply(a: Integer, b: &Integer) -> (r: Integer) {
        a.add(b)
    }
}

impl O2<Integer> for Times {
    open spec fn op(a: int, b: int) -> int {
        a * b
    }

    fn apply(a: Integer, b: &Integer) -> (r: Integer) {
        a.mul(b)
    }
}

impl RingOperations<Integer> for StandardOps {
    type PLUS = Plus;
    type TIMES = Times;
}

impl Monoid<Plus> for Integer {
    open spec fn id() -> int {
        0
    }

    proof fn lemma_associative(a: int, b: int, c: int) {
    }

    proof fn lemma_identity(a: int) {
    }

    proof fn lemma_congruent(a: int, b: int, c: int, d: int) {
    }

    fn identity() -> (r: Integer) {
        Integer::from_i64(0)
    }
}

impl Monoid<Times> for Integer {
    open spec fn id() -> int {
        1
    }

    proof fn lemma_associative(a: int, b: int, c: int) {
        assert(a * b * c == a * (b * c)) by (nonlinear_arith);
    }

    proof fn lemma_identity(a: int) {
    }

    proof fn lemma_congruent(a: int, b: int, c: int, d: int) {
    }

    fn identity() -> (r: Integer) {
        Integer::from_i64(1)
    }
}

impl Group<Plus> for Integer {
    open spec fn inv(a: int) -> int {
        -a
    }

    proof fn lemma_inverse(a: int) {
    }

    proof fn lemma_inverse_congruent(a: int, b: int) {
    }

    fn inverse(self) -> (r: Integer) {
        self.neg()
    }
}

impl AbelianGroup<Plus> for Integer {
    proof fn lemma_commutative(a: int, b: int) {
    }
}

impl Ring<StandardOps> for Integer {
    proof fn lemma_distributive(a: int, b: int, c: int) {
        assert(a * (b + c) == a * b + a * c) by (nonlinear_arith);
        assert((a + b) * c == a * c + b * c) by (nonlinear_arith);
    }

    proof fn lemma_plus_commutative(a: int, b: int) {
    }
}

impl EuclideanRing<StandardOps> for Integer {
    /// The absolute value.
    open spec fn norm(a: int) -> int {
        abs(a)
    }

    /// The quotient of Euclidean division, whose remainder is never negative.
    open spec fn quot(a: int, b: int) -> int {
        a / b
    }

    proof fn lemma_norm(a: int) {
    }

    proof fn lemma_division(a: int, b: int) {
        lemma_euclid_quotient(a, b);
    }

    proof fn lemma_exact(a: int, b: int, c: int) {
        assert(a - c * b == 0);
        lemma_euclid_unique(a, b, c);
    }

    proof fn lemma_times_commutative(a: int, b: int) {
        assert(a * b == b * a) by (nonlinear_arith);
    }

    fn quotient(self, divisor: &Integer) -> (r: Integer) {
        let q = self.div_euclid(divisor);
        proof {
            lemma_euclid_unique(self@, divisor@, q@);
        }
        q
    }
}

/// The Euclidean quotient leaves a remainder in `0 .. |b|`.
proof fn lemma_euclid_quotient(a: int, b: int)
    requires
        b != 0,
    ensures
        0 <= a - (a / b) * b < abs(b),
{
    assert(0 <= a - (a / b) * b < abs(b)) by (nonlinear_arith)
        requires
            b != 0,
    ;
}

/// Only the Euclidean quotient leaves a remainder in `0 .. |b|`.
proof fn lemma_euclid_unique(a: int, b: int, q: int)
    requires
        b != 0,
        0 <= a - q * b < abs(b),
    ensures
        q == a / b,
{
    lemma_euclid_quotient(a, b);
    let p = a / b;
    let d = (a - q * b) - (a - p * b);
    assert(d == (p - q) * b) by (nonlinear_arith)
        requires d == (a - q * b) - (a - p * b);
    if p != q {
        assert(abs(d) >= abs(b)) by (nonlinear_arith)
            requires
                d == (p - q) * b,
                p != q,
                abs(d) == (if d < 0 { -d } else { d }),
                abs(b) == (if b < 0 { -b } else { b }),
        ;
    }
}

} // verus!
