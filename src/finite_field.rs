use vstd::prelude::*;
use crate::impls::StandardOps;
use crate::integer::Integer;
use crate::nonzero::NonZero;
use crate::quotient::{IntMultiples, QuotientRing, lemma_coset_laws};
use crate::set::{Setoid, Subset};
use crate::structure::field::Field;
use crate::structure::ring::{lemma_ring_laws, one, prod, zero};

verus! {

/// The field with seven elements: the integers modulo the prime 7.
pub type GF7 = QuotientRing<Integer, StandardOps, IntMultiples<7>>;

/// The inverse of `a` modulo 7 (zero for multiples of 7).
pub open spec fn inverse_mod_7(a: int) -> int {
    let m = a % 7;
    if m == 1 {
        1
    } else if m == 2 {
        4
    } else if m == 3 {
        5
    } else if m == 4 {
        2
    } else if m == 5 {
        3
    } else if m == 6 {
        6
    } else {
        0
    }
}

/// `a * inverse_mod_7(a)` leaves the remainder one, for every `a` that 7 does not divide.
proof fn lemma_inverse_mod_7(a: int)
    requires
        a % 7 != 0,
    ensures
        (a * inverse_mod_7(a)) % 7 == 1,
        1 <= inverse_mod_7(a) <= 6,
{
    let m = a % 7;
    let r = inverse_mod_7(a);
    let q = a / 7;
    vstd::arithmetic::div_mod::lemma_fundamental_div_mod(a, 7);
    assert(a == 7 * q + m);
    let t: int = if m == 1 {
        0
    } else if m == 2 || m == 4 {
        1
    } else if m == 3 || m == 5 {
        2
    } else {
        5
    };
    assert(m * r == 7 * t + 1) by {
        assert(0 <= m < 7);
    }
    assert(a * r == (q * r + t) * 7 + 1) by (nonlinear_arith)
        requires
            a == 7 * q + m,
            m * r == 7 * t + 1,
    ;
    vstd::arithmetic::div_mod::lemma_fundamental_div_mod_converse(a * r, 7, q * r + t, 1);
}

/// A value equal to zero modulo 7 is a multiple of 7.
proof fn lemma_zero_mod_7(a: int)
    requires
        QuotientRing::<Integer, StandardOps, IntMultiples<7>>::eqv(a, zero::<GF7, StandardOps>()),
    ensures
        a % 7 == 0,
{
    let b = -a;
    assert(zero::<GF7, StandardOps>() == 0) by {
        vstd::arithmetic::div_mod::lemma_fundamental_div_mod_converse(0, 7, 0, 0);
    }
    assert(b == (b / 7) * 7);
    vstd::arithmetic::div_mod::lemma_fundamental_div_mod_converse(a, 7, -(b / 7), 0);
}

impl Field<StandardOps> for GF7 {
    open spec fn recip(a: int) -> int {
        inverse_mod_7(a)
    }

    proof fn lemma_reciprocal(a: int) {
        if a % 7 == 0 {
            lemma_multiple_of_7_is_zero(a);
        }
        lemma_inverse_mod_7(a);
        let r = inverse_mod_7(a);
        assert(a * r == r * a) by (nonlinear_arith);
        vstd::arithmetic::div_mod::lemma_fundamental_div_mod_converse(1, 7, 0, 1);
        assert(one::<GF7, StandardOps>() == 1);
        let p = (a * r) % 7;
        assert(prod::<GF7, StandardOps>(a, r) == p);
        assert(prod::<GF7, StandardOps>(r, a) == p);
        vstd::arithmetic::div_mod::lemma_fundamental_div_mod_converse(-p + 1, 7, 0, 0);
    }

    proof fn lemma_times_commutative(a: int, b: int) {
        lemma_coset_laws::<Integer, StandardOps, IntMultiples<7>>();
        assert(a * b == b * a) by (nonlinear_arith);
        lemma_ring_laws::<Integer, StandardOps>();
    }

    fn nonzero_inverse(a: NonZero<GF7, StandardOps>) -> (r: NonZero<GF7, StandardOps>) {
        let ghost av = <NonZero<GF7, StandardOps> as Subset<GF7>>::incl(a);
        let backup = a.duplicate();
        let x = a.inclusion();
        let seven = Integer::from_i64(7);
        let rep = x.representative();
        let q = rep.div_euclid(&seven);
        let m = rep.add(&q.mul(&seven).neg());
        proof {
            vstd::arithmetic::div_mod::lemma_fundamental_div_mod_converse(av, 7, q@, m@);
            if av % 7 == 0 {
                lemma_multiple_of_7_is_zero(av);
            }
        }
        let inv: i64 = match m.to_i64() {
            Some(1) => 1,
            Some(2) => 4,
            Some(3) => 5,
            Some(4) => 2,
            Some(5) => 3,
            _ => 6,
        };
        proof {
            lemma_inverse_mod_7(av);
            assert(inv as int == inverse_mod_7(av));
            vstd::arithmetic::div_mod::lemma_fundamental_div_mod_converse(inv as int, 7, 0, inv as int);
        }
        let y = GF7::from(Integer::from_i64(inv));
        proof {
            assert(y@ == inv as int);
            assert(!GF7::eqv(y@, zero::<GF7, StandardOps>())) by {
                if GF7::eqv(y@, zero::<GF7, StandardOps>()) {
                    lemma_zero_mod_7(y@);
                }
            }
        }
        match <NonZero<GF7, StandardOps> as Subset<GF7>>::try_from(y) {
            Ok(nz) => nz,
            Err(_) => backup,
        }
    }
}

/// A multiple of 7 is zero in the field.
proof fn lemma_multiple_of_7_is_zero(a: int)
    requires
        a % 7 == 0,
    ensures
        QuotientRing::<Integer, StandardOps, IntMultiples<7>>::eqv(a, zero::<GF7, StandardOps>()),
{
    vstd::arithmetic::div_mod::lemma_fundamental_div_mod(a, 7);
    vstd::arithmetic::div_mod::lemma_fundamental_div_mod_converse(0, 7, 0, 0);
    let k = a / 7;
    assert(a == 7 * k);
    vstd::arithmetic::div_mod::lemma_fundamental_div_mod_converse(-a, 7, -k, 0);
    assert(zero::<GF7, StandardOps>() == 0);
}

} // verus!
