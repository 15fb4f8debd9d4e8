use vstd::prelude::*;
use core::marker::PhantomData;
use crate::operation::O2;
use crate::set::Setoid;
use crate::structure::group::{AbelianGroup, Group};
use crate::structure::monoid::Monoid;
use crate::polynomial::Polynomial;
use crate::structure::ring::{
    Ring, RingOperations, lemma_ring_laws, lemma_sum_swap, lemma_times_zero, prod, ring_laws, sum,
    zero,
};
use crate::polynomial::{
    add_raw, canonical, coeff, conv, conv_sum, lemma_conv_zero, lemma_neg_zero, lemma_trimmed,
    mul_raw, neg_raw, trimmed,
};
use crate::structure::ring::{neg, one};

verus! {

/// `f(0) + f(1) + ... + f(n - 1)`, added up from the left.
pub open spec fn series<R: Ring<O>, O: RingOperations<R>>(f: spec_fn(int) -> R::V, n: nat) -> R::V
    decreases n,
{
    if n == 0 {
        zero::<R, O>()
    } else {
        sum::<R, O>(series::<R, O>(f, (n - 1) as nat), f(n - 1))
    }
}

/// A convolution sum is a series.
pub proof fn lemma_conv_series<R: Ring<O>, O: RingOperations<R>>(
    p: Seq<R::V>,
    q: Seq<R::V>,
    i: int,
    k: nat,
)
    ensures
        conv_sum::<R, O>(p, q, i, k) == series::<R, O>(
            |j: int| prod::<R, O>(coeff::<R, O>(p, j), coeff::<R, O>(q, i - j)),
            k,
        ),
    decreases k,
{
    if k > 0 {
        lemma_conv_series::<R, O>(p, q, i, (k - 1) as nat);
    }
}

/// Series of termwise equal functions are equal.
pub proof fn lemma_series_congruent<R: Ring<O>, O: RingOperations<R>>(
    f: spec_fn(int) -> R::V,
    g: spec_fn(int) -> R::V,
    n: nat,
)
    requires
        ring_laws::<R, O>(),
        forall|j: int| 0 <= j < n ==> R::eqv(#[trigger] f(j), g(j)),
    ensures
        R::eqv(series::<R, O>(f, n), series::<R, O>(g, n)),
    decreases n,
{
    if n > 0 {
        lemma_series_congruent::<R, O>(f, g, (n - 1) as nat);
        assert(R::eqv(f(n - 1), g(n - 1)));
    }
}

/// The series of a termwise sum is the sum of the series.
pub proof fn lemma_series_add<R: Ring<O>, O: RingOperations<R>>(
    f: spec_fn(int) -> R::V,
    g: spec_fn(int) -> R::V,
    n: nat,
)
    requires
        ring_laws::<R, O>(),
    ensures
        R::eqv(
            series::<R, O>(|j: int| sum::<R, O>(f(j), g(j)), n),
            sum::<R, O>(series::<R, O>(f, n), series::<R, O>(g, n)),
        ),
    decreases n,
{
    let h = |j: int| sum::<R, O>(f(j), g(j));
    if n == 0 {
        assert(R::eqv(sum::<R, O>(zero::<R, O>(), zero::<R, O>()), zero::<R, O>()));
    } else {
        let m = (n - 1) as nat;
        lemma_series_add::<R, O>(f, g, m);
        let sf = series::<R, O>(f, m);
        let sg = series::<R, O>(g, m);
        lemma_sum_swap::<R, O>(sf, sg, f(m as int), g(m as int));
        assert(series::<R, O>(h, n) == sum::<R, O>(series::<R, O>(h, m), h(m as int)));
        assert(R::eqv(
            sum::<R, O>(series::<R, O>(h, m), h(m as int)),
            sum::<R, O>(sum::<R, O>(sf, sg), sum::<R, O>(f(m as int), g(m as int))),
        ));
    }
}

/// `x * (f(0) + ... ) = x * f(0) + ...`.
pub proof fn lemma_series_scale_left<R: Ring<O>, O: RingOperations<R>>(
    x: R::V,
    f: spec_fn(int) -> R::V,
    n: nat,
)
    requires
        ring_laws::<R, O>(),
    ensures
        R::eqv(
            prod::<R, O>(x, series::<R, O>(f, n)),
            series::<R, O>(|j: int| prod::<R, O>(x, f(j)), n),
        ),
    decreases n,
{
    let h = |j: int| prod::<R, O>(x, f(j));
    if n == 0 {
        lemma_times_zero::<R, O>(x);
    } else {
        let m = (n - 1) as nat;
        lemma_series_scale_left::<R, O>(x, f, m);
        let sf = series::<R, O>(f, m);
        assert(R::eqv(
            prod::<R, O>(x, sum::<R, O>(sf, f(m as int))),
            sum::<R, O>(prod::<R, O>(x, sf), prod::<R, O>(x, f(m as int))),
        ));
        assert(series::<R, O>(h, n) == sum::<R, O>(series::<R, O>(h, m), h(m as int)));
        assert(R::eqv(
            sum::<R, O>(prod::<R, O>(x, sf), prod::<R, O>(x, f(m as int))),
            sum::<R, O>(series::<R, O>(h, m), h(m as int)),
        ));
    }
}

/// `(f(0) + ... ) * x = f(0) * x + ...`.
pub proof fn lemma_series_scale_right<R: Ring<O>, O: RingOperations<R>>(
    f: spec_fn(int) -> R::V,
    x: R::V,
    n: nat,
)
    requires
        ring_laws::<R, O>(),
    ensures
        R::eqv(
            prod::<R, O>(series::<R, O>(f, n), x),
            series::<R, O>(|j: int| prod::<R, O>(f(j), x), n),
        ),
    decreases n,
{
    let h = |j: int| prod::<R, O>(f(j), x);
    if n == 0 {
        lemma_times_zero::<R, O>(x);
    } else {
        let m = (n - 1) as nat;
        lemma_series_scale_right::<R, O>(f, x, m);
        let sf = series::<R, O>(f, m);
        assert(R::eqv(
            prod::<R, O>(sum::<R, O>(sf, f(m as int)), x),
            sum::<R, O>(prod::<R, O>(sf, x), prod::<R, O>(f(m as int), x)),
        ));
        assert(series::<R, O>(h, n) == sum::<R, O>(series::<R, O>(h, m), h(m as int)));
        assert(R::eqv(
            sum::<R, O>(prod::<R, O>(sf, x), prod::<R, O>(f(m as int), x)),
            sum::<R, O>(series::<R, O>(h, m), h(m as int)),
        ));
    }
}

/// Summing `F(j, k)` over the triangle `0 <= j <= k < n` by rows or by columns gives the same:
/// `sum_k sum_{j <= k} F(j, k) = sum_j sum_{m < n - j} F(j, j + m)`.
pub proof fn lemma_series_triangle<R: Ring<O>, O: RingOperations<R>>(
    big_f: spec_fn(int, int) -> R::V,
    n: nat,
)
    requires
        ring_laws::<R, O>(),
    ensures
        R::eqv(
            series::<R, O>(|k: int| series::<R, O>(|j: int| big_f(j, k), (k + 1) as nat), n),
            series::<R, O>(|j: int| series::<R, O>(|m: int| big_f(j, j + m), (n - j) as nat), n),
        ),
    decreases n,
{
    let rows = |k: int| series::<R, O>(|j: int| big_f(j, k), (k + 1) as nat);
    let cols_n = |j: int| series::<R, O>(|m: int| big_f(j, j + m), (n - j) as nat);
    if n == 0 {
    } else {
        let n1 = (n - 1) as nat;
        let cols_n1 = |j: int| series::<R, O>(|m: int| big_f(j, j + m), (n1 - j) as nat);
        lemma_series_triangle::<R, O>(big_f, n1);
        let last_row = |j: int| big_f(j, n1 as int);
        // rows: LHS(n) = LHS(n - 1) + sum_{j < n} F(j, n - 1)
        assert(series::<R, O>(rows, n) == sum::<R, O>(series::<R, O>(rows, n1), rows(n1 as int)));
        assert(rows(n1 as int) == series::<R, O>(last_row, n));
        // columns: each of the first n - 1 columns gains F(j, n - 1)
        assert forall|j: int| 0 <= j < n1 implies R::eqv(
            #[trigger] cols_n(j),
            sum::<R, O>(cols_n1(j), last_row(j)),
        ) by {
            let col = |m: int| big_f(j, j + m);
            assert(cols_n(j) == series::<R, O>(col, (n - j) as nat));
            assert(series::<R, O>(col, (n - j) as nat) == sum::<R, O>(
                series::<R, O>(col, (n1 - j) as nat),
                col(n1 - j),
            ));
            assert(col(n1 - j) == last_row(j));
        }
        let both = |j: int| sum::<R, O>(cols_n1(j), last_row(j));
        lemma_series_congruent::<R, O>(cols_n, both, n1);
        lemma_series_add::<R, O>(cols_n1, last_row, n1);
        let a = series::<R, O>(cols_n1, n1);
        let b = series::<R, O>(last_row, n1);
        let corner = last_row(n1 as int);
        // the last column holds F(n - 1, n - 1) alone
        let col_last = |m: int| big_f(n1 as int, n1 + m);
        assert(cols_n(n1 as int) == series::<R, O>(col_last, 1));
        assert(series::<R, O>(col_last, 1) == sum::<R, O>(series::<R, O>(col_last, 0), col_last(0)));
        assert(col_last(0) == corner);
        assert(R::eqv(cols_n(n1 as int), corner));
        assert(series::<R, O>(cols_n, n) == sum::<R, O>(series::<R, O>(cols_n, n1), cols_n(n1 as int)));
        assert(R::eqv(series::<R, O>(cols_n, n1), sum::<R, O>(a, b)));
        assert(R::eqv(series::<R, O>(cols_n, n), sum::<R, O>(sum::<R, O>(a, b), corner)));
        assert(R::eqv(sum::<R, O>(sum::<R, O>(a, b), corner), sum::<R, O>(a, sum::<R, O>(b, corner))));
        assert(series::<R, O>(last_row, n) == sum::<R, O>(b, corner));
        // LHS(n - 1) ~ a
        assert(R::eqv(series::<R, O>(rows, n1), a));
        assert(R::eqv(
            series::<R, O>(rows, n),
            sum::<R, O>(a, sum::<R, O>(b, corner)),
        ));
        assert(R::eqv(series::<R, O>(cols_n, n), sum::<R, O>(a, sum::<R, O>(b, corner))));
    }
}

/// The sum of two polynomials, as `Polynomial::add` computes it.
pub open spec fn padd<R: Ring<O>, O: RingOperations<R>>(p: Seq<R::V>, q: Seq<R::V>) -> Seq<R::V> {
    trimmed::<R, O>(add_raw::<R, O>(p, q))
}

/// The product of two polynomials, as `Polynomial::mul` computes it.
pub open spec fn pmul<R: Ring<O>, O: RingOperations<R>>(p: Seq<R::V>, q: Seq<R::V>) -> Seq<R::V> {
    trimmed::<R, O>(mul_raw::<R, O>(p, q))
}

/// The negation of a polynomial, as `Polynomial::negated` computes it.
pub open spec fn pneg<R: Ring<O>, O: RingOperations<R>>(p: Seq<R::V>) -> Seq<R::V> {
    trimmed::<R, O>(neg_raw::<R, O>(p))
}

/// The constant polynomial one, as `Polynomial::one` computes it.
pub open spec fn pone<R: Ring<O>, O: RingOperations<R>>() -> Seq<R::V> {
    trimmed::<R, O>(seq![one::<R, O>()])
}

/// Equal coefficients at every power.
pub open spec fn peqv<R: Ring<O>, O: RingOperations<R>>(p: Seq<R::V>, q: Seq<R::V>) -> bool {
    forall|i: int| 0 <= i ==> R::eqv(#[trigger] coeff::<R, O>(p, i), coeff::<R, O>(q, i))
}

/// Coefficient `i` of a sum is the sum of the coefficients.
pub proof fn lemma_padd_coeff<R: Ring<O>, O: RingOperations<R>>(p: Seq<R::V>, q: Seq<R::V>)
    requires
        ring_laws::<R, O>(),
    ensures
        canonical::<R, O>(padd::<R, O>(p, q)),
        forall|i: int|
            0 <= i ==> R::eqv(
                #[trigger] coeff::<R, O>(padd::<R, O>(p, q), i),
                sum::<R, O>(coeff::<R, O>(p, i), coeff::<R, O>(q, i)),
            ),
{
    let raw = add_raw::<R, O>(p, q);
    lemma_trimmed::<R, O>(raw);
    let z = zero::<R, O>();
    assert forall|i: int| 0 <= i implies R::eqv(
        #[trigger] coeff::<R, O>(padd::<R, O>(p, q), i),
        sum::<R, O>(coeff::<R, O>(p, i), coeff::<R, O>(q, i)),
    ) by {
        let s = sum::<R, O>(coeff::<R, O>(p, i), coeff::<R, O>(q, i));
        assert(R::eqv(coeff::<R, O>(padd::<R, O>(p, q), i), coeff::<R, O>(raw, i)));
        if i >= raw.len() {
            assert(R::eqv(s, sum::<R, O>(z, z)));
        } else if p.len() >= q.len() {
            if i >= q.len() {
                assert(R::eqv(s, coeff::<R, O>(p, i)));
            }
        } else {
            if i >= p.len() {
                assert(R::eqv(s, sum::<R, O>(z, coeff::<R, O>(q, i))));
            } else {
                assert(R::eqv(sum::<R, O>(q[i], p[i]), s));
            }
        }
    }
}

/// Coefficient `i` of a product is the convolution sum.
pub proof fn lemma_pmul_coeff<R: Ring<O>, O: RingOperations<R>>(p: Seq<R::V>, q: Seq<R::V>)
    requires
        ring_laws::<R, O>(),
    ensures
        canonical::<R, O>(pmul::<R, O>(p, q)),
        forall|i: int|
            0 <= i ==> R::eqv(#[trigger] coeff::<R, O>(pmul::<R, O>(p, q), i), conv::<R, O>(p, q, i)),
{
    let raw = mul_raw::<R, O>(p, q);
    lemma_trimmed::<R, O>(raw);
    assert forall|i: int| 0 <= i implies R::eqv(
        #[trigger] coeff::<R, O>(pmul::<R, O>(p, q), i),
        conv::<R, O>(p, q, i),
    ) by {
        assert(R::eqv(coeff::<R, O>(pmul::<R, O>(p, q), i), coeff::<R, O>(raw, i)));
        if i >= raw.len() {
            lemma_conv_zero::<R, O>(p, q, i, (i + 1) as nat);
        }
    }
}

/// Coefficient `i` of a negation is the negated coefficient.
pub proof fn lemma_pneg_coeff<R: Ring<O>, O: RingOperations<R>>(p: Seq<R::V>)
    requires
        ring_laws::<R, O>(),
    ensures
        canonical::<R, O>(pneg::<R, O>(p)),
        forall|i: int|
            0 <= i ==> R::eqv(#[trigger] coeff::<R, O>(pneg::<R, O>(p), i), neg::<R, O>(coeff::<R, O>(p, i))),
{
    let raw = neg_raw::<R, O>(p);
    lemma_trimmed::<R, O>(raw);
    lemma_neg_zero::<R, O>();
    assert forall|i: int| 0 <= i implies R::eqv(
        #[trigger] coeff::<R, O>(pneg::<R, O>(p), i),
        neg::<R, O>(coeff::<R, O>(p, i)),
    ) by {
        assert(R::eqv(coeff::<R, O>(pneg::<R, O>(p), i), coeff::<R, O>(raw, i)));
    }
}

/// Convolution sums respect coefficientwise equality in both arguments.
pub proof fn lemma_conv_congruent2<R: Ring<O>, O: RingOperations<R>>(
    p: Seq<R::V>,
    p2: Seq<R::V>,
    q: Seq<R::V>,
    q2: Seq<R::V>,
    i: int,
)
    requires
        ring_laws::<R, O>(),
        peqv::<R, O>(p, p2),
        peqv::<R, O>(q, q2),
    ensures
        R::eqv(conv::<R, O>(p, q, i), conv::<R, O>(p2, q2, i)),
{
    let f = |j: int| prod::<R, O>(coeff::<R, O>(p, j), coeff::<R, O>(q, i - j));
    let g = |j: int| prod::<R, O>(coeff::<R, O>(p2, j), coeff::<R, O>(q2, i - j));
    lemma_conv_series::<R, O>(p, q, i, (i + 1) as nat);
    lemma_conv_series::<R, O>(p2, q2, i, (i + 1) as nat);
    assert forall|j: int| 0 <= j < i + 1 implies R::eqv(#[trigger] f(j), g(j)) by {
        assert(R::eqv(coeff::<R, O>(p, j), coeff::<R, O>(p2, j)));
        assert(R::eqv(coeff::<R, O>(q, i - j), coeff::<R, O>(q2, i - j)));
    }
    lemma_series_congruent::<R, O>(f, g, (i + 1) as nat);
}

/// Multiplying by a sequence whose only nonzero coefficient is a leading one keeps `p`.
proof fn lemma_conv_one_right<R: Ring<O>, O: RingOperations<R>>(p: Seq<R::V>, i: int, k: nat)
    requires
        ring_laws::<R, O>(),
        0 <= i,
        k <= i + 1,
    ensures
        R::eqv(
            conv_sum::<R, O>(p, seq![one::<R, O>()], i, k),
            if k == i + 1 {
                coeff::<R, O>(p, i)
            } else {
                zero::<R, O>()
            },
        ),
    decreases k,
{
    let u = seq![one::<R, O>()];
    let z = zero::<R, O>();
    if k > 0 {
        let m = (k - 1) as nat;
        lemma_conv_one_right::<R, O>(p, i, m);
        let x = coeff::<R, O>(p, m as int);
        let y = coeff::<R, O>(u, i - m);
        lemma_times_zero::<R, O>(x);
        assert(R::eqv(conv_sum::<R, O>(p, u, i, m), z));
        if k == i + 1 {
            assert(y == one::<R, O>());
            assert(R::eqv(
                conv_sum::<R, O>(p, u, i, k),
                sum::<R, O>(z, prod::<R, O>(x, one::<R, O>())),
            ));
        } else {
            assert(y == z);
            assert(R::eqv(conv_sum::<R, O>(p, u, i, k), sum::<R, O>(z, z)));
        }
    }
}

/// Multiplying by a sequence whose only nonzero coefficient is a leading one, on the left.
proof fn lemma_conv_one_left<R: Ring<O>, O: RingOperations<R>>(p: Seq<R::V>, i: int, k: nat)
    requires
        ring_laws::<R, O>(),
        0 <= i,
        1 <= k <= i + 1,
    ensures
        R::eqv(conv_sum::<R, O>(seq![one::<R, O>()], p, i, k), coeff::<R, O>(p, i)),
    decreases k,
{
    let u = seq![one::<R, O>()];
    let z = zero::<R, O>();
    let m = (k - 1) as nat;
    if k == 1 {
        assert(conv_sum::<R, O>(u, p, i, 0) == z);
        assert(R::eqv(
            conv_sum::<R, O>(u, p, i, k),
            sum::<R, O>(z, prod::<R, O>(one::<R, O>(), coeff::<R, O>(p, i))),
        ));
    } else {
        lemma_conv_one_left::<R, O>(p, i, m);
        let y = coeff::<R, O>(p, i - m);
        lemma_times_zero::<R, O>(y);
        assert(coeff::<R, O>(u, m as int) == z);
        assert(R::eqv(
            conv_sum::<R, O>(u, p, i, k),
            sum::<R, O>(coeff::<R, O>(p, i), z),
        ));
    }
}

/// Convolution is associative.
pub proof fn lemma_conv_associative<R: Ring<O>, O: RingOperations<R>>(
    a: Seq<R::V>,
    b: Seq<R::V>,
    c: Seq<R::V>,
    n: int,
)
    requires
        ring_laws::<R, O>(),
        0 <= n,
    ensures
        R::eqv(
            conv::<R, O>(pmul::<R, O>(a, b), c, n),
            conv::<R, O>(a, pmul::<R, O>(b, c), n),
        ),
{
    let x = pmul::<R, O>(a, b);
    let y = pmul::<R, O>(b, c);
    lemma_pmul_coeff::<R, O>(a, b);
    lemma_pmul_coeff::<R, O>(b, c);
    let n1 = (n + 1) as nat;
    let big_f = |j: int, k: int|
        prod::<R, O>(
            prod::<R, O>(coeff::<R, O>(a, j), coeff::<R, O>(b, k - j)),
            coeff::<R, O>(c, n - k),
        );
    // conv(x, c, n) as a series over k
    let t0 = |k: int| prod::<R, O>(coeff::<R, O>(x, k), coeff::<R, O>(c, n - k));
    let t1 = |k: int| series::<R, O>(|j: int| big_f(j, k), (k + 1) as nat);
    lemma_conv_series::<R, O>(x, c, n, n1);
    assert forall|k: int| 0 <= k < n1 implies R::eqv(#[trigger] t0(k), t1(k)) by {
        let g = |j: int| prod::<R, O>(coeff::<R, O>(a, j), coeff::<R, O>(b, k - j));
        lemma_conv_series::<R, O>(a, b, k, (k + 1) as nat);
        assert(R::eqv(coeff::<R, O>(x, k), conv::<R, O>(a, b, k)));
        assert(R::eqv(t0(k), prod::<R, O>(series::<R, O>(g, (k + 1) as nat), coeff::<R, O>(c, n - k))));
        lemma_series_scale_right::<R, O>(g, coeff::<R, O>(c, n - k), (k + 1) as nat);
        let h1 = |j: int| prod::<R, O>(g(j), coeff::<R, O>(c, n - k));
        let h2 = |j: int| big_f(j, k);
        assert forall|j: int| 0 <= j < k + 1 implies R::eqv(#[trigger] h1(j), h2(j)) by {
            assert(h1(j) == h2(j));
        }
        lemma_series_congruent::<R, O>(h1, h2, (k + 1) as nat);
    }
    lemma_series_congruent::<R, O>(t0, t1, n1);
    // swap the order of summation
    lemma_series_triangle::<R, O>(big_f, n1);
    let t2 = |j: int| series::<R, O>(|m: int| big_f(j, j + m), (n1 - j) as nat);
    // conv(a, y, n) as a series over j
    let t3 = |j: int| prod::<R, O>(coeff::<R, O>(a, j), coeff::<R, O>(y, n - j));
    lemma_conv_series::<R, O>(a, y, n, n1);
    assert forall|j: int| 0 <= j < n1 implies R::eqv(#[trigger] t2(j), t3(j)) by {
        let aj = coeff::<R, O>(a, j);
        let d = n - j;
        let h = |m: int| prod::<R, O>(coeff::<R, O>(b, m), coeff::<R, O>(c, d - m));
        let inner = |m: int| big_f(j, j + m);
        let scaled = |m: int| prod::<R, O>(aj, h(m));
        assert forall|m: int| 0 <= m < d + 1 implies R::eqv(#[trigger] inner(m), scaled(m)) by {
            assert(inner(m) == prod::<R, O>(
                prod::<R, O>(aj, coeff::<R, O>(b, m)),
                coeff::<R, O>(c, d - m),
            ));
        }
        assert((n1 - j) as nat == (d + 1) as nat);
        lemma_series_congruent::<R, O>(inner, scaled, (d + 1) as nat);
        lemma_series_scale_left::<R, O>(aj, h, (d + 1) as nat);
        lemma_conv_series::<R, O>(b, c, d, (d + 1) as nat);
        assert(R::eqv(coeff::<R, O>(y, d), conv::<R, O>(b, c, d)));
        assert(R::eqv(prod::<R, O>(aj, conv::<R, O>(b, c, d)), t3(j)));
        assert(R::eqv(t2(j), series::<R, O>(scaled, (d + 1) as nat)));
        assert(R::eqv(series::<R, O>(scaled, (d + 1) as nat), prod::<R, O>(aj, series::<R, O>(h, (d + 1) as nat))));
        assert(R::eqv(t2(j), prod::<R, O>(aj, series::<R, O>(h, (d + 1) as nat))));
    }
    lemma_series_congruent::<R, O>(t2, t3, n1);
    assert(R::eqv(series::<R, O>(t0, n1), series::<R, O>(t1, n1)));
    assert(R::eqv(series::<R, O>(t1, n1), series::<R, O>(t2, n1)));
    assert(R::eqv(series::<R, O>(t0, n1), series::<R, O>(t2, n1)));
}

/// Products distribute over sums, coefficient by coefficient.
proof fn lemma_pmul_distributive<R: Ring<O>, O: RingOperations<R>>(
    a: Seq<R::V>,
    b: Seq<R::V>,
    c: Seq<R::V>,
)
    requires
        ring_laws::<R, O>(),
    ensures
        peqv::<R, O>(pmul::<R, O>(a, padd::<R, O>(b, c)), padd::<R, O>(pmul::<R, O>(a, b), pmul::<R, O>(a, c))),
        peqv::<R, O>(pmul::<R, O>(padd::<R, O>(a, b), c), padd::<R, O>(pmul::<R, O>(a, c), pmul::<R, O>(b, c))),
{
    let bc = padd::<R, O>(b, c);
    let ab = padd::<R, O>(a, b);
    lemma_padd_coeff::<R, O>(b, c);
    lemma_padd_coeff::<R, O>(a, b);
    lemma_pmul_coeff::<R, O>(a, bc);
    lemma_pmul_coeff::<R, O>(a, b);
    lemma_pmul_coeff::<R, O>(a, c);
    lemma_pmul_coeff::<R, O>(ab, c);
    lemma_pmul_coeff::<R, O>(b, c);
    lemma_padd_coeff::<R, O>(pmul::<R, O>(a, b), pmul::<R, O>(a, c));
    lemma_padd_coeff::<R, O>(pmul::<R, O>(a, c), pmul::<R, O>(b, c));
    assert forall|i: int| 0 <= i implies R::eqv(
        #[trigger] coeff::<R, O>(pmul::<R, O>(a, bc), i),
        coeff::<R, O>(padd::<R, O>(pmul::<R, O>(a, b), pmul::<R, O>(a, c)), i),
    ) by {
        let n1 = (i + 1) as nat;
        let f = |j: int| prod::<R, O>(coeff::<R, O>(a, j), coeff::<R, O>(bc, i - j));
        let g = |j: int| prod::<R, O>(coeff::<R, O>(a, j), coeff::<R, O>(b, i - j));
        let h = |j: int| prod::<R, O>(coeff::<R, O>(a, j), coeff::<R, O>(c, i - j));
        let gh = |j: int| sum::<R, O>(g(j), h(j));
        lemma_conv_series::<R, O>(a, bc, i, n1);
        lemma_conv_series::<R, O>(a, b, i, n1);
        lemma_conv_series::<R, O>(a, c, i, n1);
        assert forall|j: int| 0 <= j < n1 implies R::eqv(#[trigger] f(j), gh(j)) by {
            let aj = coeff::<R, O>(a, j);
            assert(R::eqv(coeff::<R, O>(bc, i - j), sum::<R, O>(coeff::<R, O>(b, i - j), coeff::<R, O>(c, i - j))));
            assert(R::eqv(f(j), prod::<R, O>(aj, sum::<R, O>(coeff::<R, O>(b, i - j), coeff::<R, O>(c, i - j)))));
        }
        lemma_series_congruent::<R, O>(f, gh, n1);
        lemma_series_add::<R, O>(g, h, n1);
        let lhs = coeff::<R, O>(pmul::<R, O>(a, bc), i);
        let cab = conv::<R, O>(a, b, i);
        let cac = conv::<R, O>(a, c, i);
        assert(R::eqv(lhs, sum::<R, O>(cab, cac)));
        assert(R::eqv(
            sum::<R, O>(coeff::<R, O>(pmul::<R, O>(a, b), i), coeff::<R, O>(pmul::<R, O>(a, c), i)),
            sum::<R, O>(cab, cac),
        ));
    }
    assert forall|i: int| 0 <= i implies R::eqv(
        #[trigger] coeff::<R, O>(pmul::<R, O>(ab, c), i),
        coeff::<R, O>(padd::<R, O>(pmul::<R, O>(a, c), pmul::<R, O>(b, c)), i),
    ) by {
        let n1 = (i + 1) as nat;
        let f = |j: int| prod::<R, O>(coeff::<R, O>(ab, j), coeff::<R, O>(c, i - j));
        let g = |j: int| prod::<R, O>(coeff::<R, O>(a, j), coeff::<R, O>(c, i - j));
        let h = |j: int| prod::<R, O>(coeff::<R, O>(b, j), coeff::<R, O>(c, i - j));
        let gh = |j: int| sum::<R, O>(g(j), h(j));
        lemma_conv_series::<R, O>(ab, c, i, n1);
        lemma_conv_series::<R, O>(a, c, i, n1);
        lemma_conv_series::<R, O>(b, c, i, n1);
        assert forall|j: int| 0 <= j < n1 implies R::eqv(#[trigger] f(j), gh(j)) by {
            let cj = coeff::<R, O>(c, i - j);
            assert(R::eqv(coeff::<R, O>(ab, j), sum::<R, O>(coeff::<R, O>(a, j), coeff::<R, O>(b, j))));
            assert(R::eqv(f(j), prod::<R, O>(sum::<R, O>(coeff::<R, O>(a, j), coeff::<R, O>(b, j)), cj)));
        }
        lemma_series_congruent::<R, O>(f, gh, n1);
        lemma_series_add::<R, O>(g, h, n1);
        let lhs = coeff::<R, O>(pmul::<R, O>(ab, c), i);
        let cac = conv::<R, O>(a, c, i);
        let cbc = conv::<R, O>(b, c, i);
        assert(R::eqv(lhs, sum::<R, O>(cac, cbc)));
        assert(R::eqv(
            sum::<R, O>(coeff::<R, O>(pmul::<R, O>(a, c), i), coeff::<R, O>(pmul::<R, O>(b, c), i)),
            sum::<R, O>(cac, cbc),
        ));
    }
}

/// Polynomials over a ring form a ring: addition is associative and commutative, with the
/// zero polynomial as identity and negation as inverse; multiplication is associative, with
/// the constant one as identity; and multiplication distributes over addition on both sides.
/// Equality is equality of every coefficient.
pub proof fn lemma_polynomial_ring<R: Ring<O>, O: RingOperations<R>>(
    a: Seq<R::V>,
    b: Seq<R::V>,
    c: Seq<R::V>,
)
    ensures
        peqv::<R, O>(padd::<R, O>(padd::<R, O>(a, b), c), padd::<R, O>(a, padd::<R, O>(b, c))),
        peqv::<R, O>(padd::<R, O>(a, b), padd::<R, O>(b, a)),
        peqv::<R, O>(padd::<R, O>(a, Seq::empty()), a),
        peqv::<R, O>(padd::<R, O>(a, pneg::<R, O>(a)), Seq::empty()),
        peqv::<R, O>(pmul::<R, O>(pmul::<R, O>(a, b), c), pmul::<R, O>(a, pmul::<R, O>(b, c))),
        peqv::<R, O>(pmul::<R, O>(a, pone::<R, O>()), a),
        peqv::<R, O>(pmul::<R, O>(pone::<R, O>(), a), a),
        peqv::<R, O>(pmul::<R, O>(a, padd::<R, O>(b, c)), padd::<R, O>(pmul::<R, O>(a, b), pmul::<R, O>(a, c))),
        peqv::<R, O>(pmul::<R, O>(padd::<R, O>(a, b), c), padd::<R, O>(pmul::<R, O>(a, c), pmul::<R, O>(b, c))),
{
    lemma_ring_laws::<R, O>();
    let z = zero::<R, O>();
    let e = Seq::<R::V>::empty();
    let ab = padd::<R, O>(a, b);
    let bc = padd::<R, O>(b, c);
    lemma_padd_coeff::<R, O>(a, b);
    lemma_padd_coeff::<R, O>(b, c);
    lemma_padd_coeff::<R, O>(ab, c);
    lemma_padd_coeff::<R, O>(a, bc);
    lemma_padd_coeff::<R, O>(b, a);
    lemma_padd_coeff::<R, O>(a, e);
    lemma_pneg_coeff::<R, O>(a);
    lemma_padd_coeff::<R, O>(a, pneg::<R, O>(a));
    assert forall|i: int| 0 <= i implies R::eqv(
        #[trigger] coeff::<R, O>(padd::<R, O>(ab, c), i),
        coeff::<R, O>(padd::<R, O>(a, bc), i),
    ) by {
        let (x, y, w) = (coeff::<R, O>(a, i), coeff::<R, O>(b, i), coeff::<R, O>(c, i));
        assert(R::eqv(coeff::<R, O>(padd::<R, O>(ab, c), i), sum::<R, O>(coeff::<R, O>(ab, i), w)));
        assert(R::eqv(sum::<R, O>(coeff::<R, O>(ab, i), w), sum::<R, O>(sum::<R, O>(x, y), w)));
        assert(R::eqv(coeff::<R, O>(padd::<R, O>(a, bc), i), sum::<R, O>(x, coeff::<R, O>(bc, i))));
        assert(R::eqv(sum::<R, O>(x, coeff::<R, O>(bc, i)), sum::<R, O>(x, sum::<R, O>(y, w))));
        assert(R::eqv(sum::<R, O>(sum::<R, O>(x, y), w), sum::<R, O>(x, sum::<R, O>(y, w))));
        assert(R::eqv(coeff::<R, O>(padd::<R, O>(ab, c), i), sum::<R, O>(sum::<R, O>(x, y), w)));
        assert(R::eqv(coeff::<R, O>(padd::<R, O>(a, bc), i), sum::<R, O>(x, sum::<R, O>(y, w))));
    }
    assert forall|i: int| 0 <= i implies R::eqv(
        #[trigger] coeff::<R, O>(padd::<R, O>(a, b), i),
        coeff::<R, O>(padd::<R, O>(b, a), i),
    ) by {
        let (x, y) = (coeff::<R, O>(a, i), coeff::<R, O>(b, i));
        assert(R::eqv(sum::<R, O>(x, y), sum::<R, O>(y, x)));
    }
    assert forall|i: int| 0 <= i implies R::eqv(
        #[trigger] coeff::<R, O>(padd::<R, O>(a, e), i),
        coeff::<R, O>(a, i),
    ) by {
        assert(coeff::<R, O>(e, i) == z);
    }
    assert forall|i: int| 0 <= i implies R::eqv(
        #[trigger] coeff::<R, O>(padd::<R, O>(a, pneg::<R, O>(a)), i),
        coeff::<R, O>(e, i),
    ) by {
        let x = coeff::<R, O>(a, i);
        assert(R::eqv(
            sum::<R, O>(x, coeff::<R, O>(pneg::<R, O>(a), i)),
            sum::<R, O>(x, neg::<R, O>(x)),
        ));
    }
    // multiplication
    let x1 = pmul::<R, O>(a, b);
    let y1 = pmul::<R, O>(b, c);
    lemma_pmul_coeff::<R, O>(x1, c);
    lemma_pmul_coeff::<R, O>(a, y1);
    assert forall|i: int| 0 <= i implies R::eqv(
        #[trigger] coeff::<R, O>(pmul::<R, O>(x1, c), i),
        coeff::<R, O>(pmul::<R, O>(a, y1), i),
    ) by {
        lemma_conv_associative::<R, O>(a, b, c, i);
    }
    let u = pone::<R, O>();
    let u0 = seq![one::<R, O>()];
    lemma_trimmed::<R, O>(u0);
    lemma_pmul_coeff::<R, O>(a, u);
    lemma_pmul_coeff::<R, O>(u, a);
    assert(peqv::<R, O>(u, u0));
    assert(peqv::<R, O>(a, a));
    assert forall|i: int| 0 <= i implies R::eqv(
        #[trigger] coeff::<R, O>(pmul::<R, O>(a, u), i),
        coeff::<R, O>(a, i),
    ) by {
        lemma_conv_congruent2::<R, O>(a, a, u, u0, i);
        lemma_conv_one_right::<R, O>(a, i, (i + 1) as nat);
    }
    assert forall|i: int| 0 <= i implies R::eqv(
        #[trigger] coeff::<R, O>(pmul::<R, O>(u, a), i),
        coeff::<R, O>(a, i),
    ) by {
        lemma_conv_congruent2::<R, O>(u, u0, a, a, i);
        lemma_conv_one_left::<R, O>(a, i, (i + 1) as nat);
    }
    lemma_pmul_distributive::<R, O>(a, b, c);
}

/// Sums, products and negations of coefficientwise equal polynomials are equal.
pub proof fn lemma_polynomial_congruence<R: Ring<O>, O: RingOperations<R>>(
    a: Seq<R::V>,
    a2: Seq<R::V>,
    b: Seq<R::V>,
    b2: Seq<R::V>,
)
    requires
        peqv::<R, O>(a, a2),
        peqv::<R, O>(b, b2),
    ensures
        peqv::<R, O>(padd::<R, O>(a, b), padd::<R, O>(a2, b2)),
        peqv::<R, O>(pmul::<R, O>(a, b), pmul::<R, O>(a2, b2)),
        peqv::<R, O>(pneg::<R, O>(a), pneg::<R, O>(a2)),
{
    lemma_ring_laws::<R, O>();
    lemma_padd_coeff::<R, O>(a, b);
    lemma_padd_coeff::<R, O>(a2, b2);
    lemma_pmul_coeff::<R, O>(a, b);
    lemma_pmul_coeff::<R, O>(a2, b2);
    lemma_pneg_coeff::<R, O>(a);
    lemma_pneg_coeff::<R, O>(a2);
    assert forall|i: int| 0 <= i implies R::eqv(
        #[trigger] coeff::<R, O>(padd::<R, O>(a, b), i),
        coeff::<R, O>(padd::<R, O>(a2, b2), i),
    ) by {
        assert(R::eqv(coeff::<R, O>(a, i), coeff::<R, O>(a2, i)));
        assert(R::eqv(coeff::<R, O>(b, i), coeff::<R, O>(b2, i)));
        assert(R::eqv(
            sum::<R, O>(coeff::<R, O>(a, i), coeff::<R, O>(b, i)),
            sum::<R, O>(coeff::<R, O>(a2, i), coeff::<R, O>(b2, i)),
        ));
    }
    assert forall|i: int| 0 <= i implies R::eqv(
        #[trigger] coeff::<R, O>(pmul::<R, O>(a, b), i),
        coeff::<R, O>(pmul::<R, O>(a2, b2), i),
    ) by {
        lemma_conv_congruent2::<R, O>(a, a2, b, b2, i);
    }
    assert forall|i: int| 0 <= i implies R::eqv(
        #[trigger] coeff::<R, O>(pneg::<R, O>(a), i),
        coeff::<R, O>(pneg::<R, O>(a2), i),
    ) by {
        assert(R::eqv(coeff::<R, O>(a, i), coeff::<R, O>(a2, i)));
        assert(R::eqv(neg::<R, O>(coeff::<R, O>(a, i)), neg::<R, O>(coeff::<R, O>(a2, i))));
    }
}

/// The addition of polynomials.
pub struct PPLUS<R, O> {
    r: PhantomData<R>,
    o: PhantomData<O>,
}

impl<R: Ring<O>, O: RingOperations<R>> O2<Polynomial<R, O>> for PPLUS<R, O> {
    open spec fn op(a: Seq<R::V>, b: Seq<R::V>) -> Seq<R::V> {
        padd::<R, O>(a, b)
    }

    fn apply(a: Polynomial<R, O>, b: &Polynomial<R, O>) -> (r: Polynomial<R, O>) {
        a.add(b)
    }
}

/// Polynomials under addition form a monoid, with the zero polynomial as identity.
impl<R: Ring<O>, O: RingOperations<R>> Monoid<PPLUS<R, O>> for Polynomial<R, O> {
    open spec fn id() -> Seq<R::V> {
        Seq::empty()
    }

    proof fn lemma_associative(a: Seq<R::V>, b: Seq<R::V>, c: Seq<R::V>) {
        lemma_polynomial_ring::<R, O>(a, b, c);
    }

    proof fn lemma_identity(a: Seq<R::V>) {
        lemma_polynomial_ring::<R, O>(a, a, a);
        lemma_polynomial_ring::<R, O>(Seq::empty(), a, a);
        lemma_ring_laws::<R, O>();
        let e = Seq::<R::V>::empty();
        assert forall|i: int| 0 <= i implies R::eqv(
            #[trigger] coeff::<R, O>(padd::<R, O>(e, a), i),
            coeff::<R, O>(a, i),
        ) by {
            assert(R::eqv(coeff::<R, O>(padd::<R, O>(e, a), i), coeff::<R, O>(padd::<R, O>(a, e), i)));
        }
    }

    proof fn lemma_congruent(a: Seq<R::V>, b: Seq<R::V>, c: Seq<R::V>, d: Seq<R::V>) {
        lemma_polynomial_congruence::<R, O>(a, b, c, d);
    }

    fn identity() -> (r: Polynomial<R, O>) {
        Polynomial::zero()
    }
}

/// Polynomials under addition form a group, with negation as inverse.
impl<R: Ring<O>, O: RingOperations<R>> Group<PPLUS<R, O>> for Polynomial<R, O> {
    open spec fn inv(a: Seq<R::V>) -> Seq<R::V> {
        pneg::<R, O>(a)
    }

    proof fn lemma_inverse(a: Seq<R::V>) {
        lemma_ring_laws::<R, O>();
        lemma_polynomial_ring::<R, O>(a, a, a);
        lemma_polynomial_ring::<R, O>(pneg::<R, O>(a), a, a);
        let n = pneg::<R, O>(a);
        assert forall|i: int| 0 <= i implies R::eqv(
            #[trigger] coeff::<R, O>(padd::<R, O>(n, a), i),
            coeff::<R, O>(Seq::<R::V>::empty(), i),
        ) by {
            assert(R::eqv(coeff::<R, O>(padd::<R, O>(n, a), i), coeff::<R, O>(padd::<R, O>(a, n), i)));
        }
    }

    proof fn lemma_inverse_congruent(a: Seq<R::V>, b: Seq<R::V>) {
        lemma_polynomial_congruence::<R, O>(a, b, a, b);
    }

    fn inverse(self) -> (r: Polynomial<R, O>) {
        self.negated()
    }
}

impl<R: Ring<O>, O: RingOperations<R>> AbelianGroup<PPLUS<R, O>> for Polynomial<R, O> {
    proof fn lemma_commutative(a: Seq<R::V>, b: Seq<R::V>) {
        lemma_polynomial_ring::<R, O>(a, b, b);
    }
}

/// Whatever sequences of coefficients they start from, trimming, sums, products and
/// negations of polynomials are in canonical form: they are empty or end in a nonzero
/// coefficient.
pub proof fn lemma_canonical_form<R: Ring<O>, O: RingOperations<R>>(p: Seq<R::V>, q: Seq<R::V>)
    ensures
        canonical::<R, O>(trimmed::<R, O>(p)),
        canonical::<R, O>(padd::<R, O>(p, q)),
        canonical::<R, O>(pmul::<R, O>(p, q)),
        canonical::<R, O>(pneg::<R, O>(p)),
{
    lemma_ring_laws::<R, O>();
    lemma_trimmed::<R, O>(p);
    lemma_padd_coeff::<R, O>(p, q);
    lemma_pmul_coeff::<R, O>(p, q);
    lemma_pneg_coeff::<R, O>(p);
}

} // verus!
