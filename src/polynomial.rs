use vstd::prelude::*;
use core::marker::PhantomData;
use crate::error::AlgebraError;
use crate::set::Setoid;
use crate::operation::O2;
use crate::structure::ring::{
    Ring, RingOperations, lemma_ring_laws, lemma_sum_swap, lemma_times_zero, neg, one, prod,
    ring_laws, sum, zero,
};
use crate::unit::{TryInverse, inverse_of};

verus! {

/// The abstract values of a sequence of ring elements.
pub open spec fn views<R: View>(s: Seq<R>) -> Seq<R::V> {
    s.map_values(|c: R| c@)
}

/// The views of a sequence with one more element.
pub proof fn lemma_views_push<R: View>(s: Seq<R>, x: R)
    ensures
        views(s.push(x)) == views(s).push(x@),
{
    assert(views(s.push(x)) =~= views(s).push(x@));
}

/// Coefficient `i` of the coefficient sequence `p`: zero past its end.
pub open spec fn coeff<R: Ring<O>, O: RingOperations<R>>(p: Seq<R::V>, i: int) -> R::V {
    if 0 <= i < p.len() {
        p[i]
    } else {
        zero::<R, O>()
    }
}

/// No trailing coefficient equals zero; the zero polynomial is the empty sequence.
pub open spec fn canonical<R: Ring<O>, O: RingOperations<R>>(p: Seq<R::V>) -> bool {
    p.len() == 0 || !R::eqv(p.last(), zero::<R, O>())
}

/// `s` without its trailing zeros.
pub open spec fn trimmed<R: Ring<O>, O: RingOperations<R>>(s: Seq<R::V>) -> Seq<R::V>
    decreases s.len(),
{
    if s.len() > 0 && R::eqv(s.last(), zero::<R, O>()) {
        trimmed::<R, O>(s.drop_last())
    } else {
        s
    }
}

/// The coefficients that `add` computes before trimming: the longer sequence, with the
/// shorter one added in.
pub open spec fn add_raw<R: Ring<O>, O: RingOperations<R>>(p: Seq<R::V>, q: Seq<R::V>) -> Seq<R::V> {
    if p.len() >= q.len() {
        Seq::new(p.len(), |i: int| if i < q.len() { sum::<R, O>(p[i], q[i]) } else { p[i] })
    } else {
        Seq::new(q.len(), |i: int| if i < p.len() { sum::<R, O>(q[i], p[i]) } else { q[i] })
    }
}

/// The coefficients that `mul` computes before trimming.
pub open spec fn mul_raw<R: Ring<O>, O: RingOperations<R>>(p: Seq<R::V>, q: Seq<R::V>) -> Seq<R::V> {
    if p.len() == 0 || q.len() == 0 {
        Seq::empty()
    } else {
        Seq::new((p.len() + q.len() - 1) as nat, |i: int| conv::<R, O>(p, q, i))
    }
}

/// The coefficients that `negated` computes before trimming.
pub open spec fn neg_raw<R: Ring<O>, O: RingOperations<R>>(p: Seq<R::V>) -> Seq<R::V> {
    Seq::new(p.len(), |i: int| neg::<R, O>(p[i]))
}

/// Trimming drops only zeros from the end and leaves a canonical sequence.
pub proof fn lemma_trimmed<R: Ring<O>, O: RingOperations<R>>(s: Seq<R::V>)
    requires
        ring_laws::<R, O>(),
    ensures
        trimmed::<R, O>(s).len() <= s.len(),
        trimmed::<R, O>(s) == s.subrange(0, trimmed::<R, O>(s).len() as int),
        canonical::<R, O>(trimmed::<R, O>(s)),
        forall|i: int| 0 <= i ==> R::eqv(#[trigger] coeff::<R, O>(trimmed::<R, O>(s), i), coeff::<R, O>(s, i)),
    decreases s.len(),
{
    if s.len() > 0 && R::eqv(s.last(), zero::<R, O>()) {
        let d = s.drop_last();
        lemma_trimmed::<R, O>(d);
        let t = trimmed::<R, O>(s);
        assert(t == trimmed::<R, O>(d));
        assert(t =~= s.subrange(0, t.len() as int));
        assert forall|i: int| 0 <= i implies R::eqv(#[trigger] coeff::<R, O>(t, i), coeff::<R, O>(s, i)) by {
            assert(R::eqv(coeff::<R, O>(t, i), coeff::<R, O>(d, i)));
            if i == s.len() - 1 {
                assert(coeff::<R, O>(s, i) == s.last());
            } else if i < s.len() - 1 {
                assert(coeff::<R, O>(d, i) == coeff::<R, O>(s, i));
            }
        }
    } else {
        assert(s =~= s.subrange(0, s.len() as int));
    }
}

/// `sum_{j < k} p[j] * q[i - j]`, added up from `j = 0`.
pub open spec fn conv_sum<R: Ring<O>, O: RingOperations<R>>(
    p: Seq<R::V>,
    q: Seq<R::V>,
    i: int,
    k: nat,
) -> R::V
    decreases k,
{
    if k == 0 {
        zero::<R, O>()
    } else {
        sum::<R, O>(
            conv_sum::<R, O>(p, q, i, (k - 1) as nat),
            prod::<R, O>(coeff::<R, O>(p, k - 1), coeff::<R, O>(q, i - (k - 1))),
        )
    }
}

/// Coefficient `i` of the product of `p` and `q`: `sum_{j <= i} p[j] * q[i - j]`.
pub open spec fn conv<R: Ring<O>, O: RingOperations<R>>(p: Seq<R::V>, q: Seq<R::V>, i: int) -> R::V {
    conv_sum::<R, O>(p, q, i, (i + 1) as nat)
}

/// `x^n`, as repeated multiplication on the right.
pub open spec fn xpow<R: Ring<O>, O: RingOperations<R>>(x: R::V, n: nat) -> R::V
    decreases n,
{
    if n == 0 {
        one::<R, O>()
    } else {
        prod::<R, O>(xpow::<R, O>(x, (n - 1) as nat), x)
    }
}

/// `sum_{n < k} p[n] * x^n`.
pub open spec fn eval<R: Ring<O>, O: RingOperations<R>>(p: Seq<R::V>, x: R::V, k: nat) -> R::V
    decreases k,
{
    if k == 0 {
        zero::<R, O>()
    } else {
        sum::<R, O>(
            eval::<R, O>(p, x, (k - 1) as nat),
            prod::<R, O>(coeff::<R, O>(p, k - 1), xpow::<R, O>(x, (k - 1) as nat)),
        )
    }
}

/// Past the last coefficient of the product, every convolution sum is zero.
pub proof fn lemma_conv_zero<R: Ring<O>, O: RingOperations<R>>(
    p: Seq<R::V>,
    q: Seq<R::V>,
    i: int,
    k: nat,
)
    requires
        ring_laws::<R, O>(),
        p.len() == 0 || q.len() == 0 || i >= p.len() + q.len() - 1,
        k <= i + 1,
    ensures
        R::eqv(conv_sum::<R, O>(p, q, i, k), zero::<R, O>()),
    decreases k,
{
    let z = zero::<R, O>();
    if k > 0 {
        lemma_conv_zero::<R, O>(p, q, i, (k - 1) as nat);
        let j = k - 1;
        let a = coeff::<R, O>(p, j);
        let b = coeff::<R, O>(q, i - j);
        lemma_times_zero::<R, O>(a);
        lemma_times_zero::<R, O>(b);
        if j >= p.len() {
            assert(a == z);
        } else if q.len() == 0 {
            assert(b == z);
        } else {
            assert(b == z);
        }
        assert(R::eqv(prod::<R, O>(a, b), z));
        assert(R::eqv(conv_sum::<R, O>(p, q, i, k), sum::<R, O>(z, z)));
    }
}

/// Take the `O::PLUS` sum of slot `i` of `v` and `x` in place.
///
/// Relies on `take_mut::take`: the slot is replaced by what the closure makes of its old value.
/// The closure only calls `Ring::plus`, which does not panic, so `take` never aborts.
#[verifier::external_body]
fn add_into<R: Ring<O>, O: RingOperations<R>>(v: &mut Vec<R>, i: usize, x: &R)
    requires
        i < old(v)@.len(),
    ensures
        final(v)@.len() == old(v)@.len(),
        final(v)@[i as int]@ == O::PLUS::op(old(v)@[i as int]@, x@),
        forall|j: int| 0 <= j < old(v)@.len() && j != i ==> final(v)@[j] == old(v)@[j],
{
    take_mut::take(&mut v[i], |c| c.plus(x));
}

/// The degree of a polynomial: negative infinity for the zero polynomial, else a natural number.
#[derive(Debug, Clone, Copy, PartialEq, Eq, Structural)]
pub enum Degree {
    NegInfty,
    Integer(usize),
}

impl Degree {
    /// The degree as a natural number. The zero polynomial has none.
    pub fn unwrap(self) -> (r: Result<usize, AlgebraError>)
        ensures
            self is NegInfty ==> r == Err::<usize, AlgebraError>(AlgebraError::UndefinedDegree),
            self is Integer ==> r == Ok::<usize, AlgebraError>(self->Integer_0),
    {
        match self {
            Degree::Integer(n) => Ok(n),
            Degree::NegInfty => Err(AlgebraError::UndefinedDegree),
        }
    }

    /// One more than the degree: 0 for negative infinity.
    pub open spec fn rank(self) -> nat {
        match self {
            Degree::NegInfty => 0,
            Degree::Integer(n) => (n + 1) as nat,
        }
    }

    /// Whether the degree is the natural number `n`.
    pub fn equals_usize(&self, n: usize) -> (r: bool)
        ensures
            r == (self.rank() == n + 1),
    {
        match self {
            Degree::NegInfty => false,
            Degree::Integer(m) => *m == n,
        }
    }

    /// Whether the degree is at least the natural number `n`.
    pub fn at_least(&self, n: usize) -> (r: bool)
        ensures
            r == (self.rank() >= n + 1),
    {
        match self {
            Degree::NegInfty => false,
            Degree::Integer(m) => *m >= n,
        }
    }

    /// The degree raised by `n`; negative infinity stays negative infinity.
    pub fn add_usize(self, n: usize) -> (r: Degree)
        requires
            self is Integer ==> self->Integer_0 + n <= usize::MAX,
        ensures
            self is NegInfty ==> r is NegInfty,
            self is Integer ==> r == Degree::Integer((self->Integer_0 + n) as usize),
    {
        match self {
            Degree::NegInfty => Degree::NegInfty,
            Degree::Integer(m) => Degree::Integer(m + n),
        }
    }

    /// The sum of two degrees (the degree of a product of polynomials over a domain); negative
    /// infinity absorbs.
    pub fn add(self, other: Degree) -> (r: Degree)
        requires
            self is Integer && other is Integer ==> self->Integer_0 + other->Integer_0 <= usize::MAX,
        ensures
            self is NegInfty || other is NegInfty ==> r is NegInfty,
            self is Integer && other is Integer ==> r == Degree::Integer(
                (self->Integer_0 + other->Integer_0) as usize,
            ),
    {
        match self {
            Degree::NegInfty => Degree::NegInfty,
            Degree::Integer(m) => other.add_usize(m),
        }
    }

    /// `self < other` in the order where negative infinity is below every natural number.
    pub fn less_than(&self, other: &Degree) -> (r: bool)
        ensures
            r == (self.rank() < other.rank()),
    {
        match (self, other) {
            (Degree::NegInfty, Degree::NegInfty) => false,
            (Degree::NegInfty, Degree::Integer(_)) => true,
            (Degree::Integer(_), Degree::NegInfty) => false,
            (Degree::Integer(a), Degree::Integer(b)) => *a < *b,
        }
    }
}

/// A polynomial over the ring `R`: its coefficients, the one at index `i` being that of `x^i`.
/// A well-formed polynomial is canonical: no trailing coefficient equals zero.
pub struct Polynomial<R, O> {
    pub coefficients: Vec<R>,
    pub o: PhantomData<O>,
}

impl<R: View, O> View for Polynomial<R, O> {
    type V = Seq<R::V>;

    open spec fn view(&self) -> Seq<R::V> {
        views(self.coefficients@)
    }
}

impl<R: Ring<O>, O: RingOperations<R>> Polynomial<R, O> {
    pub open spec fn wf(&self) -> bool {
        canonical::<R, O>(self@)
    }

    /// `v` without its trailing zeros: the result never ends in a zero.
    pub fn trim_zeros(v: Vec<R>) -> (r: Vec<R>)
        ensures
            r@.len() <= v@.len(),
            views(r@) == views(v@).subrange(0, r@.len() as int),
            forall|i: int| r@.len() <= i < v@.len() ==> R::eqv(#[trigger] v@[i]@, zero::<R, O>()),
            canonical::<R, O>(views(r@)),
            views(r@) == trimmed::<R, O>(views(v@)),
    {
        let mut v = v;
        let ghost original = v@;
        let z = R::zero();
        while v.len() > 0 && v[v.len() - 1].equals(&z)
            invariant
                z@ == zero::<R, O>(),
                v@ == original.subrange(0, v@.len() as int),
                v@.len() <= original.len(),
                forall|i: int| v@.len() <= i < original.len() ==> R::eqv(#[trigger] original[i]@, zero::<R, O>()),
                trimmed::<R, O>(views(v@)) == trimmed::<R, O>(views(original)),
            decreases v.len(),
        {
            let ghost before = v@;
            v.pop();
            proof {
                assert(views(v@) =~= views(before).drop_last());
            }
        }
        proof {
            assert(views(v@) =~= views(original).subrange(0, v@.len() as int));
        }
        v
    }

    /// The zero polynomial.
    pub fn zero() -> (r: Self)
        ensures
            r@ == Seq::<R::V>::empty(),
    {
        let r = Polynomial { coefficients: Vec::new(), o: PhantomData };
        proof {
            assert(r@ =~= Seq::<R::V>::empty());
        }
        r
    }

    /// The constant polynomial `c` (the zero polynomial when `c` is zero).
    pub fn constant(c: R) -> (r: Self)
        ensures
            r.wf(),
            R::eqv(c@, zero::<R, O>()) ==> r@ == Seq::<R::V>::empty(),
            !R::eqv(c@, zero::<R, O>()) ==> r@ == seq![c@],
    {
        let mut v = Vec::new();
        v.push(c);
        let coefficients = Self::trim_zeros(v);
        let r = Polynomial { coefficients, o: PhantomData };
        proof {
            assert(views(v@) =~= seq![c@]);
            if R::eqv(c@, zero::<R, O>()) {
                assert(r@ =~= Seq::<R::V>::empty());
            } else {
                if coefficients@.len() == 0 {
                    assert(R::eqv(v@[0]@, zero::<R, O>()));
                }
                assert(r@ =~= seq![c@]);
            }
        }
        r
    }

    /// The constant polynomial one.
    pub fn one() -> (r: Self)
        ensures
            r.wf(),
            !R::eqv(one::<R, O>(), zero::<R, O>()) ==> r@ == seq![one::<R, O>()],
    {
        Self::constant(R::one())
    }

    /// `x^n`: `n` zero coefficients, then one (the zero polynomial in the zero ring).
    pub fn x_pow(n: usize) -> (r: Self)
        ensures
            r.wf(),
            !R::eqv(one::<R, O>(), zero::<R, O>()) ==> r@ == Seq::new(n as nat, |i: int| zero::<R, O>()).push(
                one::<R, O>(),
            ),
    {
        let mut data: Vec<R> = Vec::new();
        let mut k: usize = 0;
        while k < n
            invariant
                k <= n,
                views(data@) == Seq::new(k as nat, |i: int| zero::<R, O>()),
            decreases n - k,
        {
            let ghost prev = data@;
            let z = R::zero();
            data.push(z);
            proof {
                lemma_views_push(prev, z);
                assert(views(data@) =~= Seq::new((k + 1) as nat, |i: int| zero::<R, O>()));
            }
            k = k + 1;
        }
        let ghost prev = data@;
        let u = R::one();
        data.push(u);
        proof {
            lemma_views_push(prev, u);
        }
        let ghost full = views(data@);
        let coefficients = Self::trim_zeros(data);
        let r = Polynomial { coefficients, o: PhantomData };
        proof {
            assert(full =~= Seq::new(n as nat, |i: int| zero::<R, O>()).push(one::<R, O>()));
            if !R::eqv(one::<R, O>(), zero::<R, O>()) {
                assert(coefficients@.len() == full.len()) by {
                    if coefficients@.len() < full.len() {
                        assert(R::eqv(data@[n as int]@, zero::<R, O>()));
                        assert(data@[n as int]@ == full[n as int]);
                    }
                }
                assert(r@ =~= full);
            }
        }
        r
    }

    /// The variable `x`.
    pub fn x() -> (r: Self)
        ensures
            r.wf(),
            !R::eqv(one::<R, O>(), zero::<R, O>()) ==> r@ == seq![zero::<R, O>(), one::<R, O>()],
    {
        let r = Self::x_pow(1);
        proof {
            assert(Seq::new(1, |i: int| zero::<R, O>()).push(one::<R, O>()) =~= seq![
                zero::<R, O>(),
                one::<R, O>(),
            ]);
        }
        r
    }

    /// The degree: the index of the last coefficient, or negative infinity for zero.
    pub fn degree(&self) -> (r: Degree)
        ensures
            r.rank() == self@.len(),
    {
        if self.coefficients.len() == 0 {
            Degree::NegInfty
        } else {
            Degree::Integer(self.coefficients.len() - 1)
        }
    }

    /// Coefficient `n`; zero past the last one.
    pub fn coefficient(&self, n: usize) -> (r: R)
        ensures
            r@ == coeff::<R, O>(self@, n as int),
    {
        if n < self.coefficients.len() {
            self.coefficients[n].duplicate()
        } else {
            R::zero()
        }
    }

    /// The leading coefficient. The zero polynomial has none.
    pub fn lead_coeff(&self) -> (r: Result<R, AlgebraError>)
        ensures
            self@.len() == 0 ==> r == Err::<R, AlgebraError>(AlgebraError::UndefinedDegree),
            self@.len() > 0 ==> r is Ok && r->Ok_0@ == self@.last(),
    {
        match self.degree() {
            Degree::Integer(n) => Ok(self.coefficient(n)),
            Degree::NegInfty => Err(AlgebraError::UndefinedDegree),
        }
    }

    /// The sum of two polynomials, coefficient by coefficient, in canonical form.
    pub fn add(self, other: &Self) -> (r: Self)
        ensures
            r.wf(),
            r@ == trimmed::<R, O>(add_raw::<R, O>(self@, other@)),
            forall|i: int|
                0 <= i ==> R::eqv(
                    #[trigger] coeff::<R, O>(r@, i),
                    sum::<R, O>(coeff::<R, O>(self@, i), coeff::<R, O>(other@, i)),
                ),
        decreases (if self.coefficients.len() < other.coefficients.len() {
            1int
        } else {
            0int
        }),
    {
        proof {
            lemma_ring_laws::<R, O>();
        }
        if self.coefficients.len() < other.coefficients.len() {
            let ghost sv = self@;
            let d = other.duplicate();
            assert(d.coefficients@.len() == views(d.coefficients@).len());
            assert(other.coefficients@.len() == views(other.coefficients@).len());
            let r = d.add(&self);
            proof {
                assert forall|i: int| 0 <= i implies R::eqv(
                    #[trigger] coeff::<R, O>(r@, i),
                    sum::<R, O>(coeff::<R, O>(sv, i), coeff::<R, O>(other@, i)),
                ) by {
                    assert(R::eqv(
                        coeff::<R, O>(r@, i),
                        sum::<R, O>(coeff::<R, O>(other@, i), coeff::<R, O>(sv, i)),
                    ));
                }
            }
            return r;
        }
        let ghost p = self@;
        let ghost q = other@;
        let mut v = self.coefficients;
        let mut l: usize = 0;
        while l < other.coefficients.len()
            invariant
                views(v@).len() == p.len(),
                v@.len() == p.len(),
                q.len() <= p.len(),
                other@ == q,
                l <= q.len(),
                forall|i: int| 0 <= i < l ==> (#[trigger] v@[i])@ == sum::<R, O>(p[i], q[i]),
                forall|i: int| l <= i < p.len() ==> (#[trigger] v@[i])@ == p[i],
            decreases q.len() - l,
        {
            add_into::<R, O>(&mut v, l, &other.coefficients[l]);
            l = l + 1;
        }
        let ghost full = v@;
        proof {
            assert(views(full) =~= add_raw::<R, O>(p, q));
        }
        let coefficients = Self::trim_zeros(v);
        let r = Polynomial { coefficients, o: PhantomData };
        proof {
            let z = zero::<R, O>();
            assert forall|i: int| 0 <= i implies R::eqv(
                #[trigger] coeff::<R, O>(r@, i),
                sum::<R, O>(coeff::<R, O>(p, i), coeff::<R, O>(q, i)),
            ) by {
                let s = sum::<R, O>(coeff::<R, O>(p, i), coeff::<R, O>(q, i));
                if i < p.len() {
                    assert(views(full)[i] == full[i]@);
                    if i >= q.len() {
                        assert(R::eqv(s, p[i]));
                    }
                    assert(R::eqv(full[i]@, s));
                    if i < r@.len() {
                        assert(coeff::<R, O>(r@, i) == full[i]@);
                    } else {
                        assert(R::eqv(full[i]@, z));
                    }
                } else {
                    assert(R::eqv(s, sum::<R, O>(z, z)));
                }
            }
        }
        r
    }

    /// The negation of a polynomial, coefficient by coefficient.
    pub fn negated(self) -> (r: Self)
        ensures
            r.wf(),
            r@ == trimmed::<R, O>(neg_raw::<R, O>(self@)),
            forall|i: int|
                0 <= i ==> R::eqv(
                    #[trigger] coeff::<R, O>(r@, i),
                    neg::<R, O>(coeff::<R, O>(self@, i)),
                ),
    {
        proof {
            lemma_ring_laws::<R, O>();
        }
        let mut res: Vec<R> = Vec::new();
        let mut i: usize = 0;
        while i < self.coefficients.len()
            invariant
                i <= self@.len(),
                res@.len() == i,
                forall|j: int| 0 <= j < i ==> (#[trigger] res@[j])@ == neg::<R, O>(self@[j]),
            decreases self@.len() - i,
        {
            let c = self.coefficients[i].duplicate().negated();
            res.push(c);
            i = i + 1;
        }
        let ghost full = res@;
        proof {
            assert(views(full) =~= neg_raw::<R, O>(self@));
        }
        let coefficients = Self::trim_zeros(res);
        let r = Polynomial { coefficients, o: PhantomData };
        proof {
            let z = zero::<R, O>();
            lemma_neg_zero::<R, O>();
            assert forall|j: int| 0 <= j implies R::eqv(
                #[trigger] coeff::<R, O>(r@, j),
                neg::<R, O>(coeff::<R, O>(self@, j)),
            ) by {
                if j < self@.len() {
                    if j < r@.len() {
                        assert(coeff::<R, O>(r@, j) == full[j]@);
                    } else {
                        assert(R::eqv(full[j]@, z));
                    }
                }
            }
        }
        r
    }

    /// The product of two polynomials: coefficient `i` is `sum_{j <= i} p[j] * q[i - j]`.
    pub fn mul(self, other: &Self) -> (r: Self)
        requires
            self@.len() + other@.len() <= usize::MAX,
        ensures
            r.wf(),
            r@ == trimmed::<R, O>(mul_raw::<R, O>(self@, other@)),
            forall|i: int|
                0 <= i ==> R::eqv(#[trigger] coeff::<R, O>(r@, i), conv::<R, O>(self@, other@, i)),
    {
        proof {
            lemma_ring_laws::<R, O>();
        }
        let ghost p = self@;
        let ghost q = other@;
        let mut res: Vec<R> = Vec::new();
        let n: usize = if self.coefficients.len() == 0 || other.coefficients.len() == 0 {
            0
        } else {
            self.coefficients.len() + other.coefficients.len() - 1
        };
        let mut i: usize = 0;
        while i < n
            invariant
                i <= n,
                n == 0 || n == p.len() + q.len() - 1,
                self@ == p,
                other@ == q,
                res@.len() == i,
                forall|k: int| 0 <= k < i ==> (#[trigger] res@[k])@ == conv::<R, O>(p, q, k),
            decreases n - i,
        {
            let mut s = R::zero();
            let mut j: usize = 0;
            while j <= i
                invariant
                    j <= i + 1,
                    i < n,
                    self@ == p,
                    other@ == q,
                    s@ == conv_sum::<R, O>(p, q, i as int, j as nat),
                decreases i + 1 - j,
            {
                let t = self.coefficient(j).times(&other.coefficient(i - j));
                s = s.plus(&t);
                j = j + 1;
            }
            res.push(s);
            i = i + 1;
        }
        let ghost full = res@;
        proof {
            assert(views(full) =~= mul_raw::<R, O>(p, q));
        }
        let coefficients = Self::trim_zeros(res);
        let r = Polynomial { coefficients, o: PhantomData };
        proof {
            let z = zero::<R, O>();
            assert forall|k: int| 0 <= k implies R::eqv(
                #[trigger] coeff::<R, O>(r@, k),
                conv::<R, O>(p, q, k),
            ) by {
                if k < n {
                    if k < r@.len() {
                        assert(coeff::<R, O>(r@, k) == full[k]@);
                    } else {
                        assert(R::eqv(full[k]@, z));
                    }
                } else {
                    lemma_conv_zero::<R, O>(p, q, k, (k + 1) as nat);
                }
            }
        }
        r
    }

    /// The value of the polynomial at `x`: `sum_n coefficient(n) * x^n`.
    pub fn of(&self, x: R) -> (r: R)
        ensures
            r@ == eval::<R, O>(self@, x@, self@.len()),
    {
        let mut n: usize = 0;
        let mut res = R::zero();
        let mut x_power = R::one();
        while n < self.coefficients.len()
            invariant
                n <= self@.len(),
                res@ == eval::<R, O>(self@, x@, n as nat),
                x_power@ == xpow::<R, O>(x@, n as nat),
            decreases self@.len() - n,
        {
            res = res.plus(&self.coefficient(n).times(&x_power));
            x_power = x_power.times(&x);
            n = n + 1;
        }
        res
    }
}

/// `-0 = 0`.
pub proof fn lemma_neg_zero<R: Ring<O>, O: RingOperations<R>>()
    ensures
        R::eqv(neg::<R, O>(zero::<R, O>()), zero::<R, O>()),
{
    lemma_ring_laws::<R, O>();
    let z = zero::<R, O>();
    assert(R::eqv(sum::<R, O>(z, neg::<R, O>(z)), z));
    assert(R::eqv(sum::<R, O>(z, neg::<R, O>(z)), neg::<R, O>(z)));
}

impl<R: Ring<O>, O: RingOperations<R>> Setoid for Polynomial<R, O> {
    /// Equal coefficients at every power.
    open spec fn eqv(a: Seq<R::V>, b: Seq<R::V>) -> bool {
        forall|i: int| 0 <= i ==> R::eqv(#[trigger] coeff::<R, O>(a, i), coeff::<R, O>(b, i))
    }

    proof fn lemma_eqv_equivalence(a: Seq<R::V>, b: Seq<R::V>, c: Seq<R::V>) {
        lemma_ring_laws::<R, O>();
        assert forall|i: int| 0 <= i implies R::eqv(#[trigger] coeff::<R, O>(a, i), coeff::<R, O>(a, i)) by {}
        if Self::eqv(a, b) {
            assert forall|i: int| 0 <= i implies R::eqv(#[trigger] coeff::<R, O>(b, i), coeff::<R, O>(a, i)) by {
                assert(R::eqv(coeff::<R, O>(a, i), coeff::<R, O>(b, i)));
            }
        }
        if Self::eqv(a, b) && Self::eqv(b, c) {
            assert forall|i: int| 0 <= i implies R::eqv(#[trigger] coeff::<R, O>(a, i), coeff::<R, O>(c, i)) by {
                assert(R::eqv(coeff::<R, O>(a, i), coeff::<R, O>(b, i)));
                assert(R::eqv(coeff::<R, O>(b, i), coeff::<R, O>(c, i)));
            }
        }
    }

    fn equals(&self, other: &Self) -> (r: bool) {
        proof {
            lemma_ring_laws::<R, O>();
        }
        let n = if self.coefficients.len() < other.coefficients.len() {
            other.coefficients.len()
        } else {
            self.coefficients.len()
        };
        let mut i: usize = 0;
        while i < n
            invariant
                i <= n,
                n >= self@.len(),
                n >= other@.len(),
                forall|k: int| 0 <= k < i ==> R::eqv(#[trigger] coeff::<R, O>(self@, k), coeff::<R, O>(other@, k)),
            decreases n - i,
        {
            if !self.coefficient(i).equals(&other.coefficient(i)) {
                return false;
            }
            i = i + 1;
        }
        proof {
            assert forall|k: int| 0 <= k implies R::eqv(#[trigger] coeff::<R, O>(self@, k), coeff::<R, O>(other@, k)) by {
                if k >= n {
                    assert(coeff::<R, O>(self@, k) == zero::<R, O>());
                    assert(coeff::<R, O>(other@, k) == zero::<R, O>());
                }
            }
        }
        true
    }

    fn duplicate(&self) -> (r: Self) {
        let mut res: Vec<R> = Vec::new();
        let mut i: usize = 0;
        while i < self.coefficients.len()
            invariant
                i <= self@.len(),
                res@.len() == i,
                forall|j: int| 0 <= j < i ==> (#[trigger] res@[j])@ == self@[j],
            decreases self@.len() - i,
        {
            res.push(self.coefficients[i].duplicate());
            i = i + 1;
        }
        let r = Polynomial { coefficients: res, o: PhantomData };
        proof {
            assert(r@ =~= self@);
        }
        r
    }
}

/// What trimming leaves has, up to equality, the coefficients of what was trimmed.
proof fn lemma_trim_coeff<R: Ring<O>, O: RingOperations<R>>(full: Seq<R>, trimmed: Seq<R>)
    requires
        ring_laws::<R, O>(),
        trimmed.len() <= full.len(),
        views(trimmed) == views(full).subrange(0, trimmed.len() as int),
        forall|i: int| trimmed.len() <= i < full.len() ==> R::eqv(#[trigger] full[i]@, zero::<R, O>()),
    ensures
        forall|j: int| 0 <= j ==> R::eqv(#[trigger] coeff::<R, O>(views(trimmed), j), coeff::<R, O>(views(full), j)),
{
    assert forall|j: int| 0 <= j implies R::eqv(#[trigger] coeff::<R, O>(views(trimmed), j), coeff::<R, O>(views(full), j)) by {
        if j < trimmed.len() {
            assert(views(trimmed)[j] == views(full)[j]);
        } else if j < full.len() {
            assert(views(full)[j] == full[j]@);
        }
    }
}

/// Convolution sums of coefficientwise equal sequences are equal.
proof fn lemma_conv_congruent<R: Ring<O>, O: RingOperations<R>>(
    a: Seq<R::V>,
    b: Seq<R::V>,
    d: Seq<R::V>,
    t: int,
    k: nat,
)
    requires
        ring_laws::<R, O>(),
        forall|j: int| 0 <= j ==> R::eqv(#[trigger] coeff::<R, O>(a, j), coeff::<R, O>(b, j)),
    ensures
        R::eqv(conv_sum::<R, O>(a, d, t, k), conv_sum::<R, O>(b, d, t, k)),
    decreases k,
{
    if k > 0 {
        lemma_conv_congruent::<R, O>(a, b, d, t, (k - 1) as nat);
        let x = coeff::<R, O>(a, k - 1);
        let y = coeff::<R, O>(b, k - 1);
        let e = coeff::<R, O>(d, t - (k - 1));
        assert(R::eqv(x, y));
        assert(R::eqv(prod::<R, O>(x, e), prod::<R, O>(y, e)));
    }
}

/// The term that setting coefficient `k` of the quotient to `c` adds at power `t`.
pub open spec fn shifted_term<R: Ring<O>, O: RingOperations<R>>(
    c: R::V,
    d: Seq<R::V>,
    k: int,
    t: int,
) -> R::V {
    if t >= k {
        prod::<R, O>(c, coeff::<R, O>(d, t - k))
    } else {
        zero::<R, O>()
    }
}

/// Setting a zero coefficient `k` of `a` to `c` adds `c * d[t - k]` to the convolution sum.
proof fn lemma_conv_update<R: Ring<O>, O: RingOperations<R>>(
    a: Seq<R::V>,
    d: Seq<R::V>,
    k: int,
    c: R::V,
    t: int,
    n: nat,
)
    requires
        ring_laws::<R, O>(),
        0 <= k < a.len(),
        a[k] == zero::<R, O>(),
        n <= t + 1,
    ensures
        R::eqv(
            conv_sum::<R, O>(a.update(k, c), d, t, n),
            sum::<R, O>(
                conv_sum::<R, O>(a, d, t, n),
                if n > k {
                    shifted_term::<R, O>(c, d, k, t)
                } else {
                    zero::<R, O>()
                },
            ),
        ),
    decreases n,
{
    let z = zero::<R, O>();
    let a2 = a.update(k, c);
    if n == 0 {
        assert(R::eqv(sum::<R, O>(z, z), z));
    } else {
        let m = (n - 1) as nat;
        lemma_conv_update::<R, O>(a, d, k, c, t, m);
        let prev2 = conv_sum::<R, O>(a2, d, t, m);
        let prev = conv_sum::<R, O>(a, d, t, m);
        let e = coeff::<R, O>(d, t - m);
        let x2 = prod::<R, O>(coeff::<R, O>(a2, m as int), e);
        let x = prod::<R, O>(coeff::<R, O>(a, m as int), e);
        let old_extra = if m > k {
            shifted_term::<R, O>(c, d, k, t)
        } else {
            z
        };
        assert(R::eqv(prev2, sum::<R, O>(prev, old_extra)));
        if m == k {
            assert(x2 == prod::<R, O>(c, e));
            assert(shifted_term::<R, O>(c, d, k, t) == x2);
            lemma_times_zero::<R, O>(e);
            assert(R::eqv(x, z));
            // (prev + 0) + x2  ~  (prev + x) + x2
            assert(R::eqv(sum::<R, O>(prev, z), prev));
            assert(R::eqv(sum::<R, O>(prev, x), sum::<R, O>(prev, z)));
            assert(R::eqv(sum::<R, O>(prev, x), prev));
            assert(R::eqv(prev2, sum::<R, O>(prev, x)));
            assert(R::eqv(sum::<R, O>(prev2, x2), sum::<R, O>(sum::<R, O>(prev, x), x2)));
        } else {
            assert(x2 == x);
            lemma_sum_swap::<R, O>(prev, old_extra, x, z);
            assert(R::eqv(sum::<R, O>(x, z), x));
            assert(R::eqv(sum::<R, O>(prev2, x2), sum::<R, O>(sum::<R, O>(prev, old_extra), sum::<R, O>(x, z))));
            assert(R::eqv(sum::<R, O>(sum::<R, O>(prev, x), sum::<R, O>(old_extra, z)), sum::<R, O>(sum::<R, O>(prev, x), old_extra)));
        }
    }
}

/// `(a + e) + (b + -e) = a + b`.
proof fn lemma_cancel_term<R: Ring<O>, O: RingOperations<R>>(a: R::V, b: R::V, e: R::V)
    requires
        ring_laws::<R, O>(),
    ensures
        R::eqv(sum::<R, O>(sum::<R, O>(a, e), sum::<R, O>(b, neg::<R, O>(e))), sum::<R, O>(a, b)),
{
    let z = zero::<R, O>();
    lemma_sum_swap::<R, O>(a, e, b, neg::<R, O>(e));
    assert(R::eqv(sum::<R, O>(e, neg::<R, O>(e)), z));
    assert(R::eqv(
        sum::<R, O>(sum::<R, O>(a, b), sum::<R, O>(e, neg::<R, O>(e))),
        sum::<R, O>(sum::<R, O>(a, b), z),
    ));
}

impl<R: TryInverse<O>, O: RingOperations<R>> Polynomial<R, O> {
    /// Long division by a polynomial whose leading coefficient is invertible: the quotient and
    /// the remainder, with `dividend = quotient * divisor + remainder` and the remainder of
    /// lower degree than the divisor.
    pub fn divide(dividend: Self, divisor: &Self) -> (r: Result<(Self, Self), AlgebraError>)
        ensures
            divisor@.len() == 0 ==> r == Err::<(Self, Self), AlgebraError>(
                AlgebraError::DivisionByZero,
            ),
            divisor@.len() > 0 ==> (r is Ok <==> exists|c: R::V|
                R::eqv(#[trigger] prod::<R, O>(c, divisor@.last()), one::<R, O>())),
            r is Err ==> r->Err_0 == AlgebraError::DivisionByZero || r->Err_0
                == AlgebraError::NotAMember,
            r is Ok ==> ({
                let (q, rem) = r->Ok_0;
                &&& q.wf()
                &&& rem.wf()
                &&& rem@.len() < divisor@.len()
                &&& forall|t: int|
                    0 <= t ==> R::eqv(
                        #[trigger] coeff::<R, O>(dividend@, t),
                        sum::<R, O>(conv::<R, O>(q@, divisor@, t), coeff::<R, O>(rem@, t)),
                    )
            }),
    {
        proof {
            lemma_ring_laws::<R, O>();
        }
        let dlen = divisor.coefficients.len();
        if dlen == 0 {
            return Err(AlgebraError::DivisionByZero);
        }
        let n = dlen - 1;
        let lead = divisor.coefficient(n);
        let inv = match lead.try_inverse() {
            Some(v) => v,
            None => {
                return Err(AlgebraError::NotAMember);
            },
        };
        let ghost dv = divisor@;
        let ghost big = dividend@;
        proof {
            assert(R::eqv(prod::<R, O>(inv@, dv.last()), one::<R, O>()));
        }
        let mut w = dividend.coefficients;
        let len = w.len();
        if len < dlen {
            let ghost wv = w@;
            let rc = Self::trim_zeros(w);
            let r = Polynomial { coefficients: rc, o: PhantomData };
            let q = Self::zero();
            proof {
                lemma_trim_coeff::<R, O>(wv, rc@);
                assert forall|t: int| 0 <= t implies R::eqv(
                    #[trigger] coeff::<R, O>(big, t),
                    sum::<R, O>(conv::<R, O>(q@, dv, t), coeff::<R, O>(r@, t)),
                ) by {
                    lemma_conv_zero::<R, O>(q@, dv, t, (t + 1) as nat);
                    assert(R::eqv(
                        sum::<R, O>(conv::<R, O>(q@, dv, t), coeff::<R, O>(r@, t)),
                        sum::<R, O>(zero::<R, O>(), coeff::<R, O>(r@, t)),
                    ));
                    assert(R::eqv(coeff::<R, O>(r@, t), coeff::<R, O>(big, t)));
                }
            }
            return Ok((q, r));
        }
        let steps = len - n;
        let mut qa: Vec<R> = Vec::new();
        let mut i: usize = 0;
        while i < steps
            invariant
                i <= steps,
                qa@.len() == i,
                forall|j: int| 0 <= j < i ==> (#[trigger] qa@[j])@ == zero::<R, O>(),
            decreases steps - i,
        {
            qa.push(R::zero());
            i = i + 1;
        }
        proof {
            assert forall|t: int| 0 <= t implies R::eqv(
                #[trigger] coeff::<R, O>(big, t),
                sum::<R, O>(conv::<R, O>(views(qa@), dv, t), coeff::<R, O>(views(w@), t)),
            ) by {
                assert forall|j: int| 0 <= j implies R::eqv(
                    #[trigger] coeff::<R, O>(views(qa@), j),
                    coeff::<R, O>(Seq::<R::V>::empty(), j),
                ) by {
                    if j < qa@.len() {
                        assert(views(qa@)[j] == qa@[j]@);
                    }
                }
                lemma_conv_congruent::<R, O>(views(qa@), Seq::<R::V>::empty(), dv, t, (t + 1) as nat);
                lemma_conv_zero::<R, O>(Seq::<R::V>::empty(), dv, t, (t + 1) as nat);
                assert(R::eqv(conv::<R, O>(views(qa@), dv, t), zero::<R, O>()));
                assert(R::eqv(
                    sum::<R, O>(conv::<R, O>(views(qa@), dv, t), coeff::<R, O>(views(w@), t)),
                    sum::<R, O>(zero::<R, O>(), coeff::<R, O>(big, t)),
                ));
            }
        }
        let mut k: usize = steps;
        while k > 0
            invariant
                ring_laws::<R, O>(),
                k <= steps,
                steps == len - n,
                n + 1 == dv.len(),
                dv.len() <= len,
                divisor@ == dv,
                w@.len() == len,
                qa@.len() == steps,
                inverse_of::<R, O>(dv[n as int], inv@),
                forall|j: int| 0 <= j < k ==> (#[trigger] qa@[j])@ == zero::<R, O>(),
                forall|t: int| n + k <= t < len ==> R::eqv(#[trigger] w@[t]@, zero::<R, O>()),
                forall|t: int| 0 <= t ==> R::eqv(
                    #[trigger] coeff::<R, O>(big, t),
                    sum::<R, O>(conv::<R, O>(views(qa@), dv, t), coeff::<R, O>(views(w@), t)),
                ),
            decreases k,
        {
            k = k - 1;
            let c = w[n + k].duplicate().times(&inv);
            let ghost w0 = w@;
            let ghost q0 = qa@;
            let mut j: usize = 0;
            while j <= n
                invariant
                    j <= n + 1,
                    n + 1 == dv.len(),
                    divisor@ == dv,
                    k + n < len,
                    w@.len() == len,
                    forall|t: int| k <= t < k + j ==> (#[trigger] w@[t])@ == sum::<R, O>(
                        w0[t]@,
                        neg::<R, O>(prod::<R, O>(c@, dv[t - k])),
                    ),
                    forall|t: int| 0 <= t < len && !(k <= t < k + j) ==> (#[trigger] w@[t]) == w0[t],
                decreases n + 1 - j,
            {
                let t = c.duplicate().times(&divisor.coefficients[j]);
                let cur = w[j + k].duplicate();
                w[j + k] = cur.minus(&t);
                j = j + 1;
            }
            let ghost top = w0[(n + k) as int]@;
            qa[k] = c;
            proof {
                let cv = c@;
                let z = zero::<R, O>();
                assert(q0[k as int]@ == z);
                assert(views(qa@) == views(q0).update(k as int, cv)) by {
                    assert(views(qa@) =~= views(q0).update(k as int, cv));
                }
                assert(views(q0)[k as int] == z);
                // the coefficient at n + k is now zero: top - (top * inv) * lead
                let lead_v = dv[n as int];
                assert(R::eqv(prod::<R, O>(prod::<R, O>(top, inv@), lead_v), prod::<R, O>(top, prod::<R, O>(inv@, lead_v))));
                assert(R::eqv(prod::<R, O>(top, prod::<R, O>(inv@, lead_v)), prod::<R, O>(top, one::<R, O>())));
                assert(R::eqv(prod::<R, O>(top, one::<R, O>()), top));
                assert(R::eqv(prod::<R, O>(cv, lead_v), prod::<R, O>(top, prod::<R, O>(inv@, lead_v))));
                assert(R::eqv(prod::<R, O>(cv, lead_v), top));
                assert(w@[(n + k) as int]@ == sum::<R, O>(top, neg::<R, O>(prod::<R, O>(cv, lead_v))));
                assert(R::eqv(neg::<R, O>(prod::<R, O>(cv, lead_v)), neg::<R, O>(top)));
                assert(R::eqv(w@[(n + k) as int]@, sum::<R, O>(top, neg::<R, O>(top))));
                assert forall|t: int| n + k <= t < len implies R::eqv(#[trigger] w@[t]@, zero::<R, O>()) by {
                    if t > n + k {
                        assert(w@[t] == w0[t]);
                    }
                }
                assert forall|t: int| 0 <= t implies R::eqv(
                    #[trigger] coeff::<R, O>(big, t),
                    sum::<R, O>(conv::<R, O>(views(qa@), dv, t), coeff::<R, O>(views(w@), t)),
                ) by {
                    let e = shifted_term::<R, O>(cv, dv, k as int, t);
                    let conv0 = conv::<R, O>(views(q0), dv, t);
                    let w0t = coeff::<R, O>(views(w0), t);
                    let w1t = coeff::<R, O>(views(w@), t);
                    assert(R::eqv(coeff::<R, O>(big, t), sum::<R, O>(conv0, w0t)));
                    lemma_conv_update::<R, O>(views(q0), dv, k as int, cv, t, (t + 1) as nat);
                    let extra = if t + 1 > k { e } else { z };
                    assert(extra == e);
                    assert(R::eqv(conv::<R, O>(views(qa@), dv, t), sum::<R, O>(conv0, e)));
                    // the remainder lost the same term
                    if k <= t < k + n + 1 {
                        assert(views(w@)[t] == w@[t]@);
                        assert(views(w0)[t] == w0[t]@);
                        assert(coeff::<R, O>(dv, t - k) == dv[t - k]);
                        assert(w1t == sum::<R, O>(w0t, neg::<R, O>(e)));
                    } else if t < k {
                        if t < len {
                            assert(w@[t] == w0[t]);
                            assert(views(w@)[t] == views(w0)[t]);
                        }
                        assert(w1t == w0t);
                        assert(e == z);
                        lemma_neg_zero::<R, O>();
                        assert(R::eqv(sum::<R, O>(w0t, neg::<R, O>(z)), sum::<R, O>(w0t, z)));
                        assert(R::eqv(sum::<R, O>(w0t, z), w0t));
                        assert(R::eqv(sum::<R, O>(w0t, neg::<R, O>(z)), w0t));
                        assert(R::eqv(w1t, sum::<R, O>(w0t, neg::<R, O>(e))));
                    } else {
                        if t < len {
                            assert(w@[t] == w0[t]);
                            assert(views(w@)[t] == views(w0)[t]);
                        }
                        assert(w1t == w0t);
                        lemma_times_zero::<R, O>(cv);
                        assert(coeff::<R, O>(dv, t - k) == z);
                        assert(R::eqv(e, z));
                        lemma_neg_zero::<R, O>();
                        assert(R::eqv(neg::<R, O>(e), neg::<R, O>(z)));
                        assert(R::eqv(neg::<R, O>(e), z));
                        assert(R::eqv(sum::<R, O>(w0t, neg::<R, O>(e)), sum::<R, O>(w0t, z)));
                        assert(R::eqv(w1t, sum::<R, O>(w0t, neg::<R, O>(e))));
                    }
                    lemma_cancel_term::<R, O>(conv0, w0t, e);
                    assert(R::eqv(
                        sum::<R, O>(conv::<R, O>(views(qa@), dv, t), w1t),
                        sum::<R, O>(sum::<R, O>(conv0, e), sum::<R, O>(w0t, neg::<R, O>(e))),
                    ));
                }
            }
        }
        let ghost wfull = w@;
        while w.len() > n
            invariant
                n <= w@.len() <= len,
                wfull.len() == len,
                w@ == wfull.subrange(0, w@.len() as int),
            decreases w.len(),
        {
            w.pop();
            assert(w@ =~= wfull.subrange(0, w@.len() as int));
        }
        let ghost wcut = w@;
        let rc = Self::trim_zeros(w);
        let ghost qfull = qa@;
        let qc = Self::trim_zeros(qa);
        let q = Polynomial { coefficients: qc, o: PhantomData };
        let r = Polynomial { coefficients: rc, o: PhantomData };
        proof {
            lemma_trim_coeff::<R, O>(qfull, qc@);
            lemma_trim_coeff::<R, O>(wcut, rc@);
            assert forall|t: int| 0 <= t implies R::eqv(
                #[trigger] coeff::<R, O>(big, t),
                sum::<R, O>(conv::<R, O>(q@, dv, t), coeff::<R, O>(r@, t)),
            ) by {
                lemma_conv_congruent::<R, O>(q@, views(qfull), dv, t, (t + 1) as nat);
                assert(R::eqv(coeff::<R, O>(r@, t), coeff::<R, O>(views(wcut), t)));
                if t < n {
                    assert(views(wcut)[t] == views(wfull)[t]);
                    assert(coeff::<R, O>(views(wcut), t) == coeff::<R, O>(views(wfull), t));
                } else if t < len {
                    assert(views(wfull)[t] == wfull[t]@);
                    assert(R::eqv(coeff::<R, O>(views(wfull), t), coeff::<R, O>(views(wcut), t)));
                }
                assert(R::eqv(coeff::<R, O>(r@, t), coeff::<R, O>(views(wfull), t)));
                assert(R::eqv(
                    sum::<R, O>(conv::<R, O>(q@, dv, t), coeff::<R, O>(r@, t)),
                    sum::<R, O>(conv::<R, O>(views(qfull), dv, t), coeff::<R, O>(views(wfull), t)),
                ));
            }
        }
        Ok((q, r))
    }
}

} // verus!
