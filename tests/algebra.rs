use algebra::error::AlgebraError;
use algebra::finite_field::GF7;
use algebra::structure::field::Field;
use algebra::impls::{Plus, StandardOps};
use algebra::nonzero::NonZero;
use algebra::polynomial::Degree;
use algebra::quotient::QuotientGroup;
use algebra::unit::{TryInverse, Unit};
use algebra::integer::Integer;
use algebra::poly_ring::PPLUS;
use algebra::polynomial::Polynomial;
use algebra::quotient::{IntMultiples, QuotientRing};
use algebra::set::{Setoid, Subset, Text};
use algebra::structure::euclidean_ring::{bezout, gcd, EuclideanRing};
use algebra::structure::group::{default_reduce, Group};
use algebra::structure::monoid::Monoid;
use algebra::structure::ring::Ring;
use std::marker::PhantomData;

type ZMod15 = QuotientRing<Integer, StandardOps, IntMultiples<15>>;
type ZMod97 = QuotientRing<Integer, StandardOps, IntMultiples<97>>;
type ZMod7 = QuotientRing<Integer, StandardOps, IntMultiples<7>>;
type IntPoly = Polynomial<Integer, StandardOps>;

fn z(n: i64) -> Integer {
    Integer::from_i64(n)
}

fn val(x: &Integer) -> i64 {
    x.to_i64().unwrap()
}

fn poly(cs: &[i64]) -> IntPoly {
    Polynomial { coefficients: cs.iter().map(|c| z(*c)).collect(), o: PhantomData }
}

fn coeffs(p: &IntPoly) -> Vec<i64> {
    p.coefficients.iter().map(val).collect()
}

#[test]
fn t1() {
    let x = (z(1), z(4));
    let y = (z(-2), z(3));
    let f: Polynomial<(Integer, Integer), (StandardOps, StandardOps)> = Polynomial {
        coefficients: vec![(z(1), z(0)), (z(2), z(1)), (z(-1), z(3))],
        o: PhantomData,
    };
    let s = x.duplicate().plus(&y);
    println!("{:?}", (val(&s.0), val(&s.1)));
    assert_eq!((val(&s.0), val(&s.1)), (-1, 7));
    let t = x.duplicate().times(&y);
    println!("{:?}", (val(&t.0), val(&t.1)));
    assert_eq!((val(&t.0), val(&t.1)), (-2, 12));
    let v = f.of(x);
    println!("{:?}", (val(&v.0), val(&v.1)));
    assert_eq!((val(&v.0), val(&v.1)), (2, 52));
    let o = ZMod15::from(z(27));
    println!("{}", IntMultiples::<15>::contains(&z(30)));
    assert!(IntMultiples::<15>::contains(&z(30)));
    let p = ZMod15::from(z(2));
    let o20 = o.duplicate().times_pow(20);
    println!("{:?}", val(o20.representative()));
    assert_eq!(val(o20.representative()), 6);
    println!("{:?}", val(o.representative()));
    let p15 = p.times_pow(15);
    println!("{:?}", val(p15.representative()));
    assert_eq!(val(p15.representative()), 8);
    let two = ZMod97::from(z(2));
    let three = ZMod97::from(z(3));
    let t16 = two.duplicate().times_pow(16);
    let t24 = two.duplicate().times_pow(24);
    let t48 = two.times_pow(48);
    println!("{:?}", val(t16.representative()));
    println!("{:?}", val(t24.representative()));
    println!("{:?}", val(t48.representative()));
    assert_eq!(val(t16.representative()), 61);
    assert_eq!(val(t24.representative()), 96);
    assert_eq!(val(t48.representative()), 1);
    // order of 2 is 48
    let h48 = three.times_pow(48);
    println!("{:?}", val(h48.representative()));
    assert_eq!(val(h48.representative()), 1);
    // 3 is a square mod 97
    let d = z(-5).div_euclid(&z(-3));
    println!("{:?}", val(&d));
    assert_eq!(val(&d), 2);
}

#[test]
fn integers_mod_15_reduce_to_representative() {
    let o = ZMod15::from(z(27));
    assert_eq!(val(o.representative()), 12);
    assert!(o.equals(&ZMod15::from(z(12))));
    assert!(!o.equals(&ZMod15::from(z(13))));
}

#[test]
fn quotient_equality_ignores_stored_representative() {
    // 27 and 42 differ by 15; -3 and 12 differ by 15.
    assert!(ZMod15::from(z(27)).equals(&ZMod15::from(z(42))));
    assert!(ZMod15::from(z(-3)).equals(&ZMod15::from(z(12))));
    assert_eq!(val(ZMod15::from(z(-3)).representative()), 12);
    assert!(!ZMod15::from(z(1)).equals(&ZMod15::from(z(2))));
}

#[test]
fn order_of_two_mod_97_is_48() {
    let one = ZMod97::from(z(1));
    assert!(ZMod97::from(z(2)).times_pow(48).equals(&one));
    for k in 1..48u64 {
        assert!(!ZMod97::from(z(2)).times_pow(k).equals(&one), "k = {}", k);
    }
}

#[test]
fn three_is_a_square_mod_97() {
    let one = ZMod97::from(z(1));
    assert!(ZMod97::from(z(3)).times_pow(48).equals(&one));
}

#[test]
fn quotient_ring_operations() {
    let a = ZMod15::from(z(7));
    let b = ZMod15::from(z(11));
    assert_eq!(val(a.duplicate().plus(&b).representative()), 3);
    assert_eq!(val(a.duplicate().times(&b).representative()), 2);
    assert_eq!(val(a.duplicate().negated().representative()), 8);
    assert_eq!(val(a.minus(&b).representative()), 11);
    assert_eq!(val(ZMod15::zero().representative()), 0);
    assert_eq!(val(ZMod15::one().representative()), 1);
}

#[test]
fn quotient_signed_power() {
    let two = ZMod7::from(z(2));
    // 2^-1 = 4 mod 7 in the additive group: the inverse of 2*1 is -2 = 5.
    let r = <ZMod7 as Group<_>>::signed_pow(two.duplicate(), -1);
    assert_eq!(val(r.representative()), 5);
    let z = <ZMod7 as Group<_>>::signed_pow(two.duplicate(), 0);
    assert_eq!(val(z.representative()), 0);
    let p = <ZMod7 as Group<_>>::signed_pow(two, 3);
    assert_eq!(val(p.representative()), 6);
}

#[test]
fn gcd_of_48_and_18() {
    assert_eq!(val(&gcd(z(48), z(18))), 6);
}

#[test]
fn bezout_of_48_and_18() {
    let (x, y) = bezout(z(48), z(18));
    assert_eq!(48 * val(&x) + 18 * val(&y), 6);
    assert_eq!((val(&x), val(&y)), (-1, 3));
}

#[test]
fn bezout_with_negative_and_zero_inputs() {
    for (a, b) in [(-48i64, 18i64), (48, -18), (-48, -18), (0, 5), (5, 0), (17, 5), (-7, 3), (1, 1)] {
        let g = val(&gcd(z(a), z(b)));
        let (x, y) = bezout(z(a), z(b));
        assert_eq!(a * val(&x) + b * val(&y), g, "a = {}, b = {}", a, b);
    }
}

#[test]
fn euclidean_division_of_negative_numbers() {
    assert_eq!(val(&z(-5).div_euclid(&z(-3))), 2);
    assert_eq!(val(&z(-7).quotient(&z(2))), -4);
    assert_eq!(val(&z(-7).remainder(&z(2))), 1);
    assert_eq!(val(&z(7).remainder(&z(-2))), 1);
    let (q, r) = z(-7).divide(&z(-2));
    assert_eq!((val(&q), val(&r)), (4, 1));
}

#[test]
fn evaluating_polynomial_at_three() {
    let f = poly(&[1, 2, 0, -1]);
    assert_eq!(val(&f.of(z(3))), -20);
}

#[test]
fn polynomial_sum_is_trimmed() {
    let f = poly(&[1, 2, 3]);
    let g = poly(&[1, 0, -3]);
    assert_eq!(coeffs(&f.add(&g)), vec![2, 2]);
    let h = poly(&[0, 0, -3]);
    assert_eq!(coeffs(&poly(&[0, 0, 3]).add(&h)), Vec::<i64>::new());
}

#[test]
fn polynomial_product() {
    // (1 + x)(1 - x + x^2) = 1 + x^3
    let f = poly(&[1, 1]);
    let g = poly(&[1, -1, 1]);
    assert_eq!(coeffs(&f.mul(&g)), vec![1, 0, 0, 1]);
    assert_eq!(coeffs(&poly(&[]).mul(&g)), Vec::<i64>::new());
}

#[test]
fn polynomial_negation_and_builders() {
    assert_eq!(coeffs(&poly(&[1, -2, 3]).negated()), vec![-1, 2, -3]);
    assert_eq!(coeffs(&IntPoly::x()), vec![0, 1]);
    assert_eq!(coeffs(&IntPoly::x_pow(3)), vec![0, 0, 0, 1]);
    assert_eq!(coeffs(&IntPoly::one()), vec![1]);
    assert_eq!(coeffs(&IntPoly::constant(z(0))), Vec::<i64>::new());
    assert_eq!(coeffs(&IntPoly::zero()), Vec::<i64>::new());
}

#[test]
fn integer_arithmetic_through_bigint() {
    let big = z(i64::MAX).mul(&z(i64::MAX));
    assert_eq!(big.to_i64(), None);
    let back = big.add(&z(i64::MAX).mul(&z(i64::MAX)).neg());
    assert_eq!(back.to_i64(), Some(0));
    assert_eq!(val(&z(-3).add(&z(10))), 7);
    assert_eq!(val(&z(-3).mul(&z(10))), -30);
    assert_eq!(val(&Integer::from_u64(u64::MAX).add(&z(1)).add(&Integer::from_u64(u64::MAX).neg())), 1);
}

#[test]
fn polynomial_division_exact() {
    // (x^3 + 1) / (x + 1) = x^2 - x + 1, remainder 0
    let (q, r) = IntPoly::divide(poly(&[1, 0, 0, 1]), &poly(&[1, 1])).unwrap();
    assert_eq!(coeffs(&q), vec![1, -1, 1]);
    assert_eq!(coeffs(&r), Vec::<i64>::new());
}

#[test]
fn polynomial_division_with_remainder() {
    // x^3 + 2x + 5 = (x^2 - 2x + 6)(x + 2) - 7
    let dividend = poly(&[5, 2, 0, 1]);
    let divisor = poly(&[2, 1]);
    let (q, r) = IntPoly::divide(dividend.duplicate(), &divisor).unwrap();
    assert_eq!(coeffs(&q), vec![6, -2, 1]);
    assert_eq!(coeffs(&r), vec![-7]);
    assert!(q.mul(&divisor).add(&r).equals(&dividend));
}

#[test]
fn polynomial_division_smaller_dividend() {
    let (q, r) = IntPoly::divide(poly(&[3, 1]), &poly(&[1, 0, 1])).unwrap();
    assert_eq!(coeffs(&q), Vec::<i64>::new());
    assert_eq!(coeffs(&r), vec![3, 1]);
}

#[test]
fn polynomial_division_errors() {
    assert!(matches!(
        IntPoly::divide(poly(&[1, 1]), &poly(&[])),
        Err(AlgebraError::DivisionByZero)
    ));
    // the leading coefficient 2 is not invertible in the integers
    assert!(matches!(
        IntPoly::divide(poly(&[1, 1]), &poly(&[1, 2])),
        Err(AlgebraError::NotAMember)
    ));
}

#[test]
fn degree_and_leading_coefficient() {
    assert!(matches!(poly(&[]).degree().unwrap(), Err(AlgebraError::UndefinedDegree)));
    assert!(matches!(poly(&[4, 0, 7]).degree().unwrap(), Ok(2)));
    assert!(matches!(poly(&[]).lead_coeff(), Err(AlgebraError::UndefinedDegree)));
    assert_eq!(val(&poly(&[4, 0, 7]).lead_coeff().unwrap()), 7);
    assert_eq!(val(&poly(&[4, 0, 7]).coefficient(1)), 0);
    assert_eq!(val(&poly(&[4, 0, 7]).coefficient(9)), 0);
    assert!(Degree::NegInfty.less_than(&Degree::Integer(0)));
    assert!(!Degree::Integer(3).less_than(&Degree::Integer(3)));
}

#[test]
fn unit_times_its_inverse_is_identity() {
    type U7 = Unit<ZMod7, StandardOps>;
    let u = U7::from_pair(ZMod7::from(z(3)), ZMod7::from(z(5))).unwrap();
    let prod = u.duplicate().star(&u.duplicate().inverse());
    assert!(prod.equals(&U7::identity()));
    assert_eq!(val(prod.value().representative()), 1);
    assert_eq!(val(u.duplicate().inverse().value().representative()), 5);
    assert!(U7::from_pair(ZMod7::from(z(3)), ZMod7::from(z(4))).is_err());
}

#[test]
fn units_of_the_integers() {
    type IU = Unit<Integer, StandardOps>;
    assert!(IU::contains(&z(-1)));
    assert!(!IU::contains(&z(2)));
    assert!(!IU::contains(&z(0)));
    assert!(matches!(<IU as Subset<Integer>>::try_from(z(2)), Err(AlgebraError::NotAMember)));
    let u = <IU as Subset<Integer>>::try_from(z(-1)).unwrap();
    assert_eq!(val(u.inverse_value()), -1);
    assert_eq!(val(&u.inclusion()), -1);
}

#[test]
fn try_inverse_in_the_integers() {
    assert_eq!(z(1).try_inverse().map(|v| val(&v)), Some(1));
    assert_eq!(z(-1).try_inverse().map(|v| val(&v)), Some(-1));
    assert!(z(3).try_inverse().is_none());
    assert!(z(0).try_inverse().is_none());
}

#[test]
fn nonzero_extraction() {
    type NZ = NonZero<Integer, StandardOps>;
    assert!(matches!(<NZ as Subset<Integer>>::try_from(z(0)), Err(AlgebraError::NotAMember)));
    let n = <NZ as Subset<Integer>>::try_from(z(5)).unwrap();
    assert_eq!(val(&n.inclusion()), 5);
    assert!(NZ::contains(&z(-2)));
    assert!(!NZ::contains(&z(0)));
}

#[test]
fn subset_round_trip() {
    let m = <IntMultiples<6> as Subset<Integer>>::try_from(z(18)).unwrap();
    let back = <IntMultiples<6> as Subset<Integer>>::try_from(m.inclusion()).unwrap();
    assert_eq!(val(&back.inclusion()), 18);
    assert!(matches!(<IntMultiples<6> as Subset<Integer>>::try_from(z(19)), Err(AlgebraError::NotAMember)));
}

#[test]
fn multiples_of_zero_are_zero() {
    assert!(IntMultiples::<0>::contains(&z(0)));
    assert!(!IntMultiples::<0>::contains(&z(3)));
}

#[test]
fn quotient_group_of_the_integers() {
    type Z5 = QuotientGroup<Integer, IntMultiples<5>, Plus>;
    let a = Z5::from(z(13));
    assert_eq!(val(a.representative()), 3);
    assert!(a.equals(&Z5::from(z(-2))));
    let b = Z5::from(z(4));
    let s = a.duplicate().star(&b);
    assert_eq!(val(s.representative()), 2);
    let i = a.duplicate().inverse();
    assert_eq!(val(i.representative()), 2);
    assert!(a.star(&i).equals(&Z5::identity()));
    let p = <Z5 as Group<Plus>>::signed_pow(Z5::from(z(2)), -3);
    assert_eq!(val(p.representative()), 4);
}

#[test]
fn monoid_laws_on_concrete_values() {
    let (a, b, c) = (ZMod15::from(z(4)), ZMod15::from(z(7)), ZMod15::from(z(13)));
    let left = a.duplicate().times(&b).times(&c);
    let right = a.duplicate().times(&b.duplicate().times(&c));
    assert!(left.equals(&right));
    assert!(a.duplicate().times(&ZMod15::one()).equals(&a));
    assert!(ZMod15::one().times(&a).equals(&a));
}

#[test]
fn group_laws_on_concrete_values() {
    let a = ZMod15::from(z(4));
    assert!(a.duplicate().plus(&a.duplicate().negated()).equals(&ZMod15::zero()));
    let p0 = <ZMod15 as Group<_>>::signed_pow(a.duplicate(), 0);
    assert!(p0.equals(&ZMod15::zero()));
    let pm = <ZMod15 as Group<_>>::signed_pow(a.duplicate(), -4);
    let pp = <ZMod15 as Group<_>>::signed_pow(a, 4);
    assert!(pm.equals(&pp.negated()));
}

#[test]
fn distributivity_on_concrete_values() {
    let (a, b, c) = (z(-3), z(5), z(11));
    let l = a.copy().mul(&b.add(&c));
    let r = a.mul(&b).add(&z(-3).mul(&c));
    assert_eq!(val(&l), val(&r));
    let (x, y, w) = (ZMod15::from(z(7)), ZMod15::from(z(9)), ZMod15::from(z(14)));
    let l2 = x.duplicate().times(&y.duplicate().plus(&w));
    let r2 = x.duplicate().times(&y).plus(&x.times(&w));
    assert!(l2.equals(&r2));
}

#[test]
fn from_integer_and_gcd_of_zeros() {
    assert_eq!(val(&Integer::from_integer(5)), 5);
    assert_eq!(val(ZMod7::from_integer(12).representative()), 5);
    assert_eq!(val(&gcd(z(0), z(0))), 0);
    assert_eq!(val(&gcd(z(-12), z(0))), -12);
}

#[test]
fn quotient_polynomials_have_canonical_form() {
    // coefficients that vanish mod 7 are trimmed
    type P7 = Polynomial<ZMod7, StandardOps>;
    let f: P7 = Polynomial { coefficients: vec![ZMod7::from(z(1)), ZMod7::from(z(3))], o: PhantomData };
    let g: P7 = Polynomial { coefficients: vec![ZMod7::from(z(2)), ZMod7::from(z(4))], o: PhantomData };
    let s = f.add(&g);
    assert_eq!(s.coefficients.len(), 1);
    assert_eq!(val(s.coefficients[0].representative()), 3);
}

#[test]
fn polynomial_additive_group() {
    let f = poly(&[1, 2, 3]);
    let g = poly(&[4, 0, -3]);
    let s = <IntPoly as Monoid<PPLUS<Integer, StandardOps>>>::star(f.duplicate(), &g);
    assert_eq!(coeffs(&s), vec![5, 2]);
    let n = <IntPoly as Group<PPLUS<Integer, StandardOps>>>::inverse(f.duplicate());
    assert_eq!(coeffs(&n), vec![-1, -2, -3]);
    let e = <IntPoly as Monoid<PPLUS<Integer, StandardOps>>>::identity();
    assert!(f.duplicate().add(&e).equals(&f));
    let p = <IntPoly as Monoid<PPLUS<Integer, StandardOps>>>::pow(poly(&[1, 1]), 3);
    assert_eq!(coeffs(&p), vec![3, 3]);
}

#[test]
fn polynomial_product_is_associative_on_values() {
    let (a, b, c) = (poly(&[1, -1]), poly(&[2, 0, 1]), poly(&[0, 3, 1]));
    let l = a.duplicate().mul(&b).mul(&c);
    let r = a.mul(&b.mul(&c));
    assert!(l.equals(&r));
}

#[test]
fn quotients_render_their_representative() {
    assert_eq!(ZMod15::from(z(27)).render(), "[12]");
    assert_eq!(ZMod15::from(z(-1)).render(), "[14]");
    assert_eq!(ZMod15::from(z(30)).render(), "[0]");
    type Z5 = QuotientGroup<Integer, IntMultiples<5>, Plus>;
    assert_eq!(Z5::from(z(13)).render(), "[3]");
}

#[test]
fn integers_have_decimal_text() {
    assert_eq!(z(0).text(), "0");
    assert_eq!(z(-120).text(), "-120");
    assert_eq!(z(i64::MAX).mul(&z(10)).text(), "92233720368547758070");
}

#[test]
fn polynomial_division_of_non_canonical_input() {
    // a trailing zero in the dividend does not change the result
    let (q, r) = IntPoly::divide(poly(&[3, 1, 0]), &poly(&[1, 0, 1])).unwrap();
    assert_eq!(coeffs(&q), Vec::<i64>::new());
    assert_eq!(coeffs(&r), vec![3, 1]);
    // a divisor whose last stored coefficient is zero has no invertible leading coefficient
    assert!(matches!(
        IntPoly::divide(poly(&[1, 1]), &poly(&[1, 1, 0])),
        Err(AlgebraError::NotAMember)
    ));
}

fn gf7(n: i64) -> GF7 {
    GF7::from(z(n))
}

fn gf7_val(x: &GF7) -> i64 {
    val(x.representative())
}

#[test]
fn reciprocals_in_gf7() {
    assert_eq!(gf7_val(&gf7(3).reciprocal().unwrap()), 5);
    assert_eq!(gf7_val(&gf7(-1).reciprocal().unwrap()), 6);
    for k in 1..7 {
        let r = gf7(k).reciprocal().unwrap();
        assert!(gf7(k).times(&r).equals(&GF7::one()), "k = {}", k);
    }
    assert!(matches!(gf7(14).reciprocal(), Err(AlgebraError::DivisionByZero)));
}

#[test]
fn gf7_is_a_euclidean_ring() {
    // division in a field is exact: 3 / 5 = 3 * 3 = 2
    assert_eq!(gf7_val(&gf7(3).quotient(&gf7(5))), 2);
    assert!(gf7(3).remainder(&gf7(5)).equals(&GF7::zero()));
    assert_eq!(gf7(2).try_inverse().map(|v| gf7_val(&v)), Some(4));
    assert!(gf7(0).try_inverse().is_none());
    let (x, y) = bezout(gf7(3), gf7(5));
    let g = gcd(gf7(3), gf7(5));
    assert!(gf7(3).times(&x).plus(&gf7(5).times(&y)).equals(&g));
}

#[test]
fn polynomial_division_over_gf7() {
    type P = Polynomial<GF7, StandardOps>;
    let mk = |cs: &[i64]| -> P { Polynomial { coefficients: cs.iter().map(|c| gf7(*c)).collect(), o: PhantomData } };
    // (x^2 + 1) / (2x + 1): quotient 4x + 5, remainder 3, since (4x + 5)(2x + 1) = x^2 + 5
    let (q, r) = P::divide(mk(&[1, 0, 1]), &mk(&[1, 2])).unwrap();
    let qs: Vec<i64> = q.coefficients.iter().map(gf7_val).collect();
    let rs: Vec<i64> = r.coefficients.iter().map(gf7_val).collect();
    assert_eq!(qs, vec![5, 4]);
    assert_eq!(rs, vec![3]);
    assert!(q.mul(&mk(&[1, 2])).add(&r).equals(&mk(&[1, 0, 1])));
}

#[test]
fn default_reduction_picks_identity_for_members() {
    assert_eq!(val(&default_reduce::<Integer, Plus, IntMultiples<5>>(z(10))), 0);
    assert_eq!(val(&default_reduce::<Integer, Plus, IntMultiples<5>>(z(7))), 7);
}

#[test]
fn bezout_pair_follows_the_recursion() {
    // (48, 18): q = 2, r = 12; (18, 12): q = 1, r = 6; (12, 6): q = 2, r = 0; (6, 0) -> (1, 0)
    // back up: (0, 1 - 2*0) = (0, 1); (1, 0 - 1*1) = (1, -1); (-1, 1 - 2*(-1)) = (-1, 3)
    let (x, y) = bezout(z(48), z(18));
    assert_eq!((val(&x), val(&y)), (-1, 3));
    let (x, y) = bezout(z(5), z(0));
    assert_eq!((val(&x), val(&y)), (1, 0));
    let (x, y) = bezout(z(18), z(48));
    assert_eq!((val(&x), val(&y)), (3, -1));
}

#[test]
fn trimming_removes_trailing_zeros() {
    assert!(IntPoly::trim_zeros(vec![z(1), z(0), z(0)]).len() == 1);
    assert!(IntPoly::trim_zeros(vec![z(0), z(0)]).is_empty());
    assert!(IntPoly::trim_zeros(vec![]).is_empty());
}
