use vstd::prelude::*;
use crate::set::Text;
use num_bigint::{BigInt, Sign};

verus! {

/// The value of little-endian base-2^32 digits.
pub open spec fn magnitude(digits: Seq<u32>) -> nat
    decreases digits.len(),
{
    if digits.len() == 0 {
        0
    } else {
        (digits[0] + 0x1_0000_0000 * magnitude(digits.drop_first())) as nat
    }
}

/// The decimal digit `d`.
pub open spec fn digit_char(d: nat) -> char {
    if d == 0 {
        '0'
    } else if d == 1 {
        '1'
    } else if d == 2 {
        '2'
    } else if d == 3 {
        '3'
    } else if d == 4 {
        '4'
    } else if d == 5 {
        '5'
    } else if d == 6 {
        '6'
    } else if d == 7 {
        '7'
    } else if d == 8 {
        '8'
    } else {
        '9'
    }
}

/// The decimal digits of `n`, most significant first, without leading zeros.
pub open spec fn decimal(n: nat) -> Seq<char>
    decreases n,
{
    if n < 10 {
        seq![digit_char(n)]
    } else {
        decimal(n / 10).push(digit_char(n % 10))
    }
}

/// The decimal text of `v`: a minus sign for a negative value, then the digits of `|v|`.
pub open spec fn decimal_text(v: int) -> Seq<char> {
    if v < 0 {
        seq!['-'] + decimal((-v) as nat)
    } else {
        decimal(v as nat)
    }
}

/// Truncating division (rounding toward zero) on integers.
pub open spec fn trunc_div(a: int, b: int) -> int
    recommends
        b != 0,
{
    let q = abs(a) / abs(b);
    if (a >= 0) == (b > 0) {
        q
    } else {
        -q
    }
}

pub open spec fn abs(a: int) -> int {
    if a < 0 {
        -a
    } else {
        a
    }
}

/// An arbitrary-precision integer, held as a sign and the base-2^32 digits of its magnitude,
/// least significant first. The arithmetic is done by `num_bigint`.
#[derive(Debug)]
pub struct Integer {
    pub negative: bool,
    pub digits: Vec<u32>,
}

impl View for Integer {
    type V = int;

    open spec fn view(&self) -> int {
        if self.negative {
            -magnitude(self.digits@)
        } else {
            magnitude(self.digits@) as int
        }
    }
}

impl Integer {
    /// The sign flag is set exactly for negative values (as `num_bigint` hands them out).
    pub open spec fn canonical(&self) -> bool {
        self.negative == (self@ < 0)
    }

    pub fn from_i64(n: i64) -> (r: Integer)
        ensures
            r@ == n as int,
            r.canonical(),
    {
        if n < 0 {
            let m = (-(n as i128)) as u64;
            Integer { negative: true, digits: digits_of_u64(m) }
        } else {
            Integer { negative: false, digits: digits_of_u64(n as u64) }
        }
    }

    pub fn from_u64(n: u64) -> (r: Integer)
        ensures
            r@ == n as int,
            r.canonical(),
    {
        Integer { negative: false, digits: digits_of_u64(n) }
    }

    /// The value as an `i64`, if it fits.
    pub fn to_i64(&self) -> (r: Option<i64>)
        ensures
            r is Some <==> i64::MIN <= self@ <= i64::MAX,
            r is Some ==> r->Some_0 as int == self@,
    {
        big_to_i64(self)
    }

    pub fn copy(&self) -> (r: Integer)
        ensures
            r@ == self@,
            r.negative == self.negative,
    {
        let digits = self.digits.clone();
        proof {
            assert(digits@ =~= self.digits@);
        }
        Integer { negative: self.negative, digits }
    }

    pub fn add(&self, other: &Integer) -> (r: Integer)
        ensures
            r@ == self@ + other@,
    {
        big_add(self, other)
    }

    pub fn mul(&self, other: &Integer) -> (r: Integer)
        ensures
            r@ == self@ * other@,
    {
        big_mul(self, other)
    }

    pub fn neg(&self) -> (r: Integer)
        ensures
            r@ == -self@,
    {
        big_neg(self)
    }

    pub fn same_value(&self, other: &Integer) -> (r: bool)
        ensures
            r == (self@ == other@),
    {
        big_eq(self, other)
    }

    /// The quotient of Euclidean division: the remainder `self - q * d` lies in `0 .. |d|`.
    pub fn div_euclid(&self, d: &Integer) -> (q: Integer)
        requires
            d@ != 0,
        ensures
            0 <= self@ - q@ * d@ < abs(d@),
    {
        let t = big_div_trunc(self, d);
        let r = big_add(self, &big_neg(&big_mul(&t, d)));
        if r.negative {
            proof {
                lemma_trunc_div(self@, d@);
            }
            if d.negative {
                let q = big_add(&t, &Integer::from_i64(1));
                assert(self@ - q@ * d@ == (self@ - t@ * d@) - d@) by (nonlinear_arith)
                    requires q@ == t@ + 1;
                q
            } else {
                let q = big_add(&t, &Integer::from_i64(-1));
                assert(self@ - q@ * d@ == (self@ - t@ * d@) + d@) by (nonlinear_arith)
                    requires q@ == t@ - 1;
                q
            }
        } else {
            proof {
                lemma_trunc_div(self@, d@);
            }
            t
        }
    }
}

/// The two base-2^32 digits of `n`, least significant first.
fn digits_of_u64(n: u64) -> (r: Vec<u32>)
    ensures
        magnitude(r@) == n,
{
    let lo = (n % 0x1_0000_0000) as u32;
    let hi = (n / 0x1_0000_0000) as u32;
    let mut v: Vec<u32> = Vec::new();
    v.push(lo);
    v.push(hi);
    proof {
        assert(v@.drop_first() =~= seq![hi]);
        assert(v@.drop_first().drop_first() =~= Seq::<u32>::empty());
        assert(magnitude(Seq::<u32>::empty()) == 0);
        assert(magnitude(seq![hi]) == hi) by {
            assert(seq![hi].drop_first() =~= Seq::<u32>::empty());
            assert(seq![hi][0] == hi);
        }
        assert(v@[0] == lo);
        assert(n == hi * 0x1_0000_0000 + lo);
    }
    v
}

/// The remainder of truncating division has the sign of the dividend and is smaller than the
/// divisor.
proof fn lemma_trunc_div(a: int, b: int)
    requires
        b != 0,
    ensures
        abs(a - trunc_div(a, b) * b) < abs(b),
        a >= 0 ==> a - trunc_div(a, b) * b >= 0,
        a < 0 ==> a - trunc_div(a, b) * b <= 0,
{
    let x = abs(a);
    let y = abs(b);
    let q = x / y;
    let m = x % y;
    vstd::arithmetic::div_mod::lemma_fundamental_div_mod(x, y);
    assert(0 <= m < y) by {
        vstd::arithmetic::div_mod::lemma_mod_bound(x, y);
    }
    assert(x == y * q + m);
    if a >= 0 && b > 0 {
        assert(a - q * b == m) by (nonlinear_arith) requires x == a, y == b, x == y * q + m;
    } else if a >= 0 && b < 0 {
        assert(a - (-q) * b == m) by (nonlinear_arith) requires x == a, y == -b, x == y * q + m;
    } else if a < 0 && b > 0 {
        assert(a - (-q) * b == -m) by (nonlinear_arith) requires x == -a, y == b, x == y * q + m;
    } else {
        assert(a - q * b == -m) by (nonlinear_arith) requires x == -a, y == -b, x == y * q + m;
    }
}

/// Relies on `Add for BigInt` (with `BigInt::from_slice` and `BigInt::to_u32_digits` to
/// convert): the exact sum.
#[verifier::external_body]
fn big_add(a: &Integer, b: &Integer) -> (r: Integer)
    ensures
        r@ == a@ + b@,
        r.canonical(),
{
    let x = BigInt::from_slice(if a.negative { Sign::Minus } else { Sign::Plus }, &a.digits);
    let y = BigInt::from_slice(if b.negative { Sign::Minus } else { Sign::Plus }, &b.digits);
    let (sign, digits) = (x + y).to_u32_digits();
    Integer { negative: sign == Sign::Minus, digits }
}

/// Relies on `Mul for BigInt` (with `BigInt::from_slice` and `BigInt::to_u32_digits` to
/// convert): the exact product.
#[verifier::external_body]
fn big_mul(a: &Integer, b: &Integer) -> (r: Integer)
    ensures
        r@ == a@ * b@,
        r.canonical(),
{
    let x = BigInt::from_slice(if a.negative { Sign::Minus } else { Sign::Plus }, &a.digits);
    let y = BigInt::from_slice(if b.negative { Sign::Minus } else { Sign::Plus }, &b.digits);
    let (sign, digits) = (x * y).to_u32_digits();
    Integer { negative: sign == Sign::Minus, digits }
}

/// Relies on `Neg for BigInt` (with `BigInt::from_slice` and `BigInt::to_u32_digits` to
/// convert): the opposite value.
#[verifier::external_body]
fn big_neg(a: &Integer) -> (r: Integer)
    ensures
        r@ == -a@,
        r.canonical(),
{
    let x = BigInt::from_slice(if a.negative { Sign::Minus } else { Sign::Plus }, &a.digits);
    let (sign, digits) = (-x).to_u32_digits();
    Integer { negative: sign == Sign::Minus, digits }
}

/// Relies on `Div for BigInt` (with `BigInt::from_slice` and `BigInt::to_u32_digits` to
/// convert): the quotient rounded toward zero. It panics on a zero divisor.
#[verifier::external_body]
fn big_div_trunc(a: &Integer, b: &Integer) -> (r: Integer)
    requires
        b@ != 0,
    ensures
        r@ == trunc_div(a@, b@),
        r.canonical(),
{
    let x = BigInt::from_slice(if a.negative { Sign::Minus } else { Sign::Plus }, &a.digits);
    let y = BigInt::from_slice(if b.negative { Sign::Minus } else { Sign::Plus }, &b.digits);
    let (sign, digits) = (x / y).to_u32_digits();
    Integer { negative: sign == Sign::Minus, digits }
}

/// Relies on `PartialEq for BigInt` (with `BigInt::from_slice` to convert): equality of values.
#[verifier::external_body]
fn big_eq(a: &Integer, b: &Integer) -> (r: bool)
    ensures
        r == (a@ == b@),
{
    let x = BigInt::from_slice(if a.negative { Sign::Minus } else { Sign::Plus }, &a.digits);
    let y = BigInt::from_slice(if b.negative { Sign::Minus } else { Sign::Plus }, &b.digits);
    x == y
}

/// Relies on `Display for BigInt` (through `ToString`, with `BigInt::from_slice` to convert):
/// the decimal digits of the magnitude, after a `-` for a negative value.
#[verifier::external_body]
fn big_to_string(a: &Integer) -> (r: String)
    ensures
        r@ == decimal_text(a@),
{
    let x = BigInt::from_slice(if a.negative { Sign::Minus } else { Sign::Plus }, &a.digits);
    x.to_string()
}

/// Relies on `TryFrom<&BigInt> for i64` (with `BigInt::from_slice` to convert): the value when
/// it fits in an `i64`.
#[verifier::external_body]
fn big_to_i64(a: &Integer) -> (r: Option<i64>)
    ensures
        r is Some <==> i64::MIN <= a@ <= i64::MAX,
        r is Some ==> r->Some_0 as int == a@,
{
    let x = BigInt::from_slice(if a.negative { Sign::Minus } else { Sign::Plus }, &a.digits);
    i64::try_from(&x).ok()
}

impl Text for Integer {
    /// The decimal text.
    open spec fn shown(v: int) -> Seq<char> {
        decimal_text(v)
    }

    fn text(&self) -> (r: String) {
        big_to_string(self)
    }
}

} // verus!
