//! Polynomials with arbitrary-precision integer coefficients.
//!
//! A polynomial is an ordered sequence of coefficients, highest degree first;
//! its view is the sequence of the denoted integers.  The module offers the
//! ring operations, long division, cyclotomic reduction, modular centering,
//! and the range checks that the constraint checker builds on.

use vstd::prelude::*;
use crate::big::{
    Big, big_add, big_div_trunc, big_eq, big_le, big_lt, big_mul, big_rem_trunc, big_sub, int_abs,
    lemma_tmod_emod, tdiv, tmod,
};

verus! {

/// The integers denoted by a sequence of stored coefficients.
pub open spec fn coeffs_view(v: Seq<Big>) -> Seq<int> {
    Seq::new(v.len(), |i: int| v[i]@)
}

/// True when every coefficient is zero.
pub open spec fn all_zero(s: Seq<int>) -> bool {
    forall|i: int| 0 <= i < s.len() ==> #[trigger] s[i] == 0
}

/// Entry `p` of `s` once `s` is right-aligned inside a row of width `w`
/// (missing leading entries read as zero).
pub open spec fn padded(s: Seq<int>, w: int, p: int) -> int {
    if w - s.len() <= p < w {
        s[p - (w - s.len())]
    } else {
        0
    }
}

/// Width of the sum of two coefficient rows.
pub open spec fn max_len(a: Seq<int>, b: Seq<int>) -> int {
    if a.len() >= b.len() {
        a.len() as int
    } else {
        b.len() as int
    }
}

/// Coefficient rows of the sum: entrywise sum after right-alignment.
pub open spec fn poly_add(a: Seq<int>, b: Seq<int>) -> Seq<int> {
    Seq::new(max_len(a, b) as nat, |p: int| padded(a, max_len(a, b), p) + padded(b, max_len(a, b), p))
}

/// Coefficient rows of the difference, aligned like `poly_add`.
pub open spec fn poly_sub(a: Seq<int>, b: Seq<int>) -> Seq<int> {
    Seq::new(max_len(a, b) as nat, |p: int| padded(a, max_len(a, b), p) - padded(b, max_len(a, b), p))
}

/// Every coefficient negated.
pub open spec fn poly_neg(a: Seq<int>) -> Seq<int> {
    Seq::new(a.len(), |p: int| -a[p])
}

/// Every coefficient multiplied by a scalar.
pub open spec fn poly_scalar(a: Seq<int>, c: int) -> Seq<int> {
    Seq::new(a.len(), |p: int| a[p] * c)
}

/// Convolution at storage index `p`, restricted to the first `i` entries of
/// `a`: the partial sums a product loop walks through.
pub open spec fn conv_partial(a: Seq<int>, b: Seq<int>, p: int, i: int) -> int
    decreases i,
{
    if i <= 0 {
        0
    } else {
        conv_partial(a, b, p, i - 1) + if 0 <= p - (i - 1) < b.len() {
            a[i - 1] * b[p - (i - 1)]
        } else {
            0
        }
    }
}

/// Full convolution at storage index `p`.
pub open spec fn conv_at(a: Seq<int>, b: Seq<int>, p: int) -> int {
    conv_partial(a, b, p, a.len() as int)
}

/// Coefficient rows of the product of two non-empty rows.
pub open spec fn poly_mul_raw(a: Seq<int>, b: Seq<int>) -> Seq<int> {
    Seq::new((a.len() + b.len() - 1) as nat, |p: int| conv_at(a, b, p))
}

/// Coefficient rows of the product; a zero factor collapses to the single
/// zero coefficient.
pub open spec fn poly_mul(a: Seq<int>, b: Seq<int>) -> Seq<int> {
    if all_zero(a) || all_zero(b) {
        seq![0int]
    } else {
        poly_mul_raw(a, b)
    }
}

/// A residue mapped into the symmetric range around zero: for an odd modulus
/// `m` the range is `[-(m-1)/2, (m-1)/2]`; for an even one it is asymmetric
/// by one unit, `[-m/2, m/2 - 1]`.
pub open spec fn spec_center(x: int, m: int) -> int {
    let r = x % m;
    let h = m / 2;
    if m % 2 == 1 {
        if r > h {
            r - m
        } else {
            r
        }
    } else {
        if r >= h {
            r - m
        } else {
            r
        }
    }
}

/// A centered residue lies in the symmetric range `[-(m-1)/2, (m-1)/2]` for
/// an odd modulus and in the asymmetric range `[-m/2, m/2 - 1]` for an even
/// one.
pub proof fn lemma_center_range(x: int, m: int)
    requires
        m >= 1,
    ensures
        m % 2 == 1 ==> -((m - 1) / 2) <= spec_center(x, m) <= (m - 1) / 2,
        m % 2 == 0 ==> -(m / 2) <= spec_center(x, m) <= m / 2 - 1,
{
    vstd::arithmetic::div_mod::lemma_mod_bound(x, m);
    vstd::arithmetic::div_mod::lemma_fundamental_div_mod(m, 2);
    if m % 2 == 1 {
        vstd::arithmetic::div_mod::lemma_fundamental_div_mod_converse(m - 1, 2, m / 2, 0);
    } else {
        vstd::arithmetic::div_mod::lemma_fundamental_div_mod_converse(m - 1, 2, m / 2 - 1, 1);
    }
}

/// A row inside the centered range `[-b, b]` lands, reduced into `[0, p)`,
/// inside `[0, b]` or wrapped into `[p - b, p)`.
pub proof fn lemma_centered_to_standard(s: Seq<int>, b: int, p: int)
    requires
        0 <= b,
        b < p,
        all_in_centered(s, -b, b),
    ensures
        all_in_standard(poly_mod(s, p), b, p),
{
    assert forall|i: int| 0 <= i < poly_mod(s, p).len() implies (0 <= #[trigger] poly_mod(s, p)[i]
        <= b) || (p - b <= poly_mod(s, p)[i] < p) by {
        if s[i] >= 0 {
            vstd::arithmetic::div_mod::lemma_fundamental_div_mod_converse(s[i], p, 0, s[i]);
        } else {
            vstd::arithmetic::div_mod::lemma_fundamental_div_mod_converse(s[i], p, -1, s[i] + p);
        }
    }
}

/// Every coefficient reduced and centered.
pub open spec fn poly_center(s: Seq<int>, m: int) -> Seq<int> {
    Seq::new(s.len(), |p: int| spec_center(s[p], m))
}

/// Every coefficient reduced into `[0, m)`.
pub open spec fn poly_mod(s: Seq<int>, m: int) -> Seq<int> {
    Seq::new(s.len(), |p: int| s[p] % m)
}

/// Leading zero coefficients removed, possibly down to the empty row.
pub open spec fn poly_trim_full(s: Seq<int>) -> Seq<int>
    decreases s.len(),
{
    if s.len() > 0 && s[0] == 0 {
        poly_trim_full(s.skip(1))
    } else {
        s
    }
}

/// Leading zero coefficients removed, but at least one coefficient kept.
pub open spec fn poly_trim_keep_one(s: Seq<int>) -> Seq<int>
    decreases s.len(),
{
    if s.len() > 1 && s[0] == 0 {
        poly_trim_keep_one(s.skip(1))
    } else {
        s
    }
}

/// Horner evaluation of the first `n` coefficients at the point `x`.
pub open spec fn poly_eval_prefix(s: Seq<int>, x: int, n: int) -> int
    decreases n,
{
    if n <= 0 {
        0
    } else {
        poly_eval_prefix(s, x, n - 1) * x + s[n - 1]
    }
}

/// Degree as stored: one less than the number of stored coefficients, and
/// zero for an empty row.
pub open spec fn spec_degree(s: Seq<int>) -> int {
    if s.len() == 0 {
        0
    } else {
        s.len() - 1
    }
}

/// The relation that long division establishes between dividend, divisor,
/// quotient and (trimmed) remainder.
pub open spec fn is_divmod(a: Seq<int>, d: Seq<int>, q: Seq<int>, rem: Seq<int>) -> bool {
    &&& q.len() == a.len() + 1 - d.len()
    &&& rem.len() <= a.len()
    &&& (rem.len() > 0 ==> rem[0] != 0)
    &&& (forall|p: int| 0 <= p < a.len() ==> #[trigger] a[p] == conv_at(q, d, p) + padded(rem, a.len() as int, p))
    &&& ((d[0] == 1 || d[0] == -1) ==> rem.len() < d.len())
}

/// A convolution cut off at `n` only reads the first `n` entries of its left
/// operand.
pub proof fn lemma_conv_partial_prefix(a1: Seq<int>, a2: Seq<int>, b: Seq<int>, p: int, n: int)
    requires
        n <= a1.len(),
        n <= a2.len(),
        forall|j: int| 0 <= j < n ==> a1[j] == a2[j],
    ensures
        conv_partial(a1, b, p, n) == conv_partial(a2, b, p, n),
    decreases n,
{
    if n > 0 {
        lemma_conv_partial_prefix(a1, a2, b, p, n - 1);
    }
}

/// Convolution terms beyond the storage index contribute nothing.
pub proof fn lemma_conv_partial_high(a: Seq<int>, b: Seq<int>, p: int, n: int)
    requires
        p + 1 <= n,
        p >= 0,
    ensures
        conv_partial(a, b, p, n) == conv_partial(a, b, p, p + 1),
    decreases n,
{
    if n > p + 1 {
        lemma_conv_partial_high(a, b, p, n - 1);
    }
}

/// The first `n` entries of two quotients of the same division relation
/// against a monic-led divisor agree.
proof fn lemma_monic_quotient_prefix(
    a: Seq<int>,
    d: Seq<int>,
    q1: Seq<int>,
    r1: Seq<int>,
    q2: Seq<int>,
    r2: Seq<int>,
    n: int,
)
    requires
        d.len() >= 1,
        d[0] == 1 || d[0] == -1,
        a.len() + 1 >= d.len(),
        is_divmod(a, d, q1, r1),
        is_divmod(a, d, q2, r2),
        0 <= n <= a.len() + 1 - d.len(),
    ensures
        forall|p: int| 0 <= p < n ==> q1[p] == q2[p],
    decreases n,
{
    if n > 0 {
        lemma_monic_quotient_prefix(a, d, q1, r1, q2, r2, n - 1);
        let p = n - 1;
        let la = a.len() as int;
        let qlen = a.len() + 1 - d.len();
        // the remainder is too short to reach storage index p
        assert(r1.len() < d.len() && r2.len() < d.len());
        assert(padded(r1, la, p) == 0);
        assert(padded(r2, la, p) == 0);
        assert(a[p] == conv_at(q1, d, p));
        assert(a[p] == conv_at(q2, d, p));
        lemma_conv_partial_high(q1, d, p, qlen as int);
        lemma_conv_partial_high(q2, d, p, qlen as int);
        assert(conv_partial(q1, d, p, p + 1) == conv_partial(q1, d, p, p) + q1[p] * d[0]);
        assert(conv_partial(q2, d, p, p + 1) == conv_partial(q2, d, p, p) + q2[p] * d[0]);
        lemma_conv_partial_prefix(q1, q2, d, p, p);
        assert(q1[p] * d[0] == q2[p] * d[0]);
        if d[0] == 1 {
            assert(q1[p] == q2[p]);
        } else {
            assert(q1[p] * -1 == -q1[p]) by (nonlinear_arith);
            assert(q2[p] * -1 == -q2[p]) by (nonlinear_arith);
        }
    }
}

/// Against a single-coefficient divisor the convolution picks one term.
pub proof fn lemma_conv_partial_singleton(q: Seq<int>, x: int, p: int, n: int)
    requires
        0 <= n <= q.len(),
    ensures
        conv_partial(q, seq![x], p, n) == if 0 <= p < n {
            q[p] * x
        } else {
            0
        },
    decreases n,
{
    if n > 0 {
        lemma_conv_partial_singleton(q, x, p, n - 1);
    }
}

/// For a monic-led divisor the division relation determines the quotient and
/// the trimmed remainder uniquely.
pub proof fn lemma_divmod_unique_monic(
    a: Seq<int>,
    d: Seq<int>,
    q1: Seq<int>,
    r1: Seq<int>,
    q2: Seq<int>,
    r2: Seq<int>,
)
    requires
        d.len() >= 1,
        d[0] == 1 || d[0] == -1,
        a.len() + 1 >= d.len(),
        is_divmod(a, d, q1, r1),
        is_divmod(a, d, q2, r2),
    ensures
        q1 == q2,
        r1 == r2,
{
    let la = a.len() as int;
    let qlen = a.len() + 1 - d.len();
    lemma_monic_quotient_prefix(a, d, q1, r1, q2, r2, qlen as int);
    assert(q1 =~= q2);
    assert forall|p: int| 0 <= p < la implies padded(r1, la, p) == padded(r2, la, p) by {
        assert(a[p] == conv_at(q1, d, p) + padded(r1, la, p));
        assert(a[p] == conv_at(q2, d, p) + padded(r2, la, p));
    }
    if r1.len() > r2.len() {
        let p = la - r1.len();
        assert(padded(r1, la, p) == r1[0]);
        assert(padded(r2, la, p) == 0);
        assert(false);
    }
    if r2.len() > r1.len() {
        let p = la - r2.len();
        assert(padded(r2, la, p) == r2[0]);
        assert(padded(r1, la, p) == 0);
        assert(false);
    }
    assert forall|j: int| 0 <= j < r1.len() implies r1[j] == r2[j] by {
        let p = la - r1.len() + j;
        assert(padded(r1, la, p) == r1[j]);
        assert(padded(r2, la, p) == r2[j]);
    }
    assert(r1 =~= r2);
}

/// What `Polynomial::div` returns for a dividend `a` and an accepted divisor
/// `d`: a short dividend comes back unchanged under a zero quotient, and
/// otherwise long division has run.
pub open spec fn div_result(a: Seq<int>, d: Seq<int>, q: Seq<int>, rem: Seq<int>) -> bool {
    if spec_degree(a) < spec_degree(d) {
        q == seq![0int] && rem == a
    } else {
        is_divmod(a, d, q, rem)
    }
}

/// A remainder written right-aligned into a row of `n` zero coefficients; a
/// remainder wider than the row keeps only its leading entries.
pub open spec fn place_rem(rem: Seq<int>, n: int) -> Seq<int> {
    Seq::new(n as nat, |p: int| if rem.len() <= n {
        padded(rem, n, p)
    } else {
        rem[p]
    })
}

/// Every coefficient inside the closed interval `[lo, hi]`.
pub open spec fn all_in_centered(s: Seq<int>, lo: int, hi: int) -> bool {
    forall|i: int| 0 <= i < s.len() ==> lo <= #[trigger] s[i] <= hi
}

/// Every coefficient either in `[0, hi]` or wrapped into `[m + lo, m)`.
pub open spec fn all_in_standard2(s: Seq<int>, lo: int, hi: int, m: int) -> bool {
    forall|i: int| 0 <= i < s.len() ==> (0 <= #[trigger] s[i] <= hi) || (m + lo <= s[i] < m)
}

/// Every coefficient either in `[0, b]` or wrapped into `[m - b, m)`.
pub open spec fn all_in_standard(s: Seq<int>, b: int, m: int) -> bool {
    forall|i: int| 0 <= i < s.len() ==> (0 <= #[trigger] s[i] <= b) || (m - b <= s[i] < m)
}

/// Errors of the polynomial operations.
#[derive(Debug, Clone, PartialEq)]
pub enum PolynomialError {
    /// Division by the zero polynomial.
    DivisionByZero,
    /// An invalid polynomial, such as a divisor with zero leading coefficient.
    InvalidPolynomial(String),
    /// A failed modulus operation.
    ModulusError(String),
}

/// A polynomial over the integers, coefficients highest degree first.
#[derive(Clone, Debug, PartialEq)]
pub struct Polynomial {
    coefficients: Vec<Big>,
}

impl View for Polynomial {
    type V = Seq<int>;

    closed spec fn view(&self) -> Seq<int> {
        coeffs_view(self.coefficients@)
    }
}

impl Polynomial {
    /// Wraps a coefficient vector, highest degree first.
    pub fn new(coefficients: Vec<Big>) -> (r: Polynomial)
        ensures
            r@ == coeffs_view(coefficients@),
    {
        Polynomial { coefficients }
    }

    /// The zero polynomial stored with `degree + 1` zero coefficients.
    pub fn zero(degree: usize) -> (r: Polynomial)
        requires
            degree < usize::MAX,
        ensures
            r@.len() == degree + 1,
            all_zero(r@),
    {
        let n = degree + 1;
        let mut coefficients: Vec<Big> = Vec::new();
        let mut i: usize = 0;
        while i < n
            invariant
                n == degree + 1,
                i <= degree + 1,
                coefficients@.len() == i,
                forall|j: int| 0 <= j < i ==> #[trigger] coefficients@[j]@ == 0,
            decreases degree + 1 - i,
        {
            coefficients.push(Big::zero());
            i += 1;
        }
        proof {
            assert(forall|j: int|
                0 <= j < coefficients@.len() ==> #[trigger] coeffs_view(coefficients@)[j] == 0);
        }
        Polynomial { coefficients }
    }

    /// The constant polynomial.
    pub fn constant(constant: Big) -> (r: Polynomial)
        ensures
            r@ =~= seq![constant@],
    {
        let mut coefficients: Vec<Big> = Vec::new();
        coefficients.push(constant);
        Polynomial { coefficients }
    }

    /// The stored coefficients, highest degree first.
    pub fn coefficients(&self) -> (r: &Vec<Big>)
        ensures
            coeffs_view(r@) == self@,
    {
        &self.coefficients
    }

    /// One less than the number of stored coefficients (zero when empty).
    pub fn degree(&self) -> (r: usize)
        ensures
            r == spec_degree(self@),
    {
        if self.coefficients.len() == 0 {
            0
        } else {
            self.coefficients.len() - 1
        }
    }

    /// True when every stored coefficient is zero.
    pub fn is_zero(&self) -> (r: bool)
        ensures
            r == all_zero(self@),
    {
        let mut i: usize = 0;
        let z = Big::zero();
        while i < self.coefficients.len()
            invariant
                i <= self.coefficients.len(),
                z@ == 0,
                forall|j: int| 0 <= j < i ==> #[trigger] self@[j] == 0,
            decreases self.coefficients.len() - i,
        {
            if !big_eq(&self.coefficients[i], &z) {
                proof {
                    assert(self@[i as int] != 0);
                }
                return false;
            }
            i += 1;
        }
        true
    }

    /// An identical copy.
    pub fn dup(&self) -> (r: Polynomial)
        ensures
            r@ == self@,
    {
        let mut coefficients: Vec<Big> = Vec::new();
        let mut i: usize = 0;
        while i < self.coefficients.len()
            invariant
                i <= self.coefficients.len(),
                coefficients@.len() == i,
                forall|j: int| 0 <= j < i ==> #[trigger] coefficients@[j]@ == self@[j],
            decreases self.coefficients.len() - i,
        {
            coefficients.push(self.coefficients[i].dup());
            i += 1;
        }
        proof {
            assert(coeffs_view(coefficients@) =~= self@);
        }
        Polynomial { coefficients }
    }

    /// Removes leading zero coefficients but keeps at least one coefficient.
    pub fn trim_leading_zeros(self) -> (r: Polynomial)
        ensures
            r@ == poly_trim_keep_one(self@),
    {
        let ghost orig: Seq<int> = self@;
        let mut s = self;
        let z = Big::zero();
        while s.coefficients.len() > 1 && big_eq(&s.coefficients[0], &z)
            invariant
                z@ == 0,
                poly_trim_keep_one(s@) == poly_trim_keep_one(orig),
            decreases s.coefficients.len(),
        {
            let ghost before: Seq<int> = s@;
            s.coefficients.remove(0);
            proof {
                assert(s@ =~= before.skip(1));
            }
        }
        s
    }

    /// The sum: coefficients added after right-alignment, the result as wide
    /// as the wider operand.
    pub fn add(&self, other: &Self) -> (r: Polynomial)
        ensures
            r@ == poly_add(self@, other@),
    {
        let la = self.coefficients.len();
        let lb = other.coefficients.len();
        let max_length = if la >= lb {
            la
        } else {
            lb
        };
        let mut result: Vec<Big> = Vec::new();
        let mut idx: usize = 0;
        while idx < max_length
            invariant
                la == self@.len(),
                lb == other@.len(),
                max_length == max_len(self@, other@),
                idx <= max_length,
                result@.len() == idx,
                forall|p: int|
                    0 <= p < idx ==> #[trigger] result@[p]@ == padded(self@, max_length as int, p)
                        + padded(other@, max_length as int, p),
            decreases max_length - idx,
        {
            let ta = if idx >= max_length - la {
                self.coefficients[idx - (max_length - la)].dup()
            } else {
                Big::zero()
            };
            let tb = if idx >= max_length - lb {
                other.coefficients[idx - (max_length - lb)].dup()
            } else {
                Big::zero()
            };
            result.push(big_add(&ta, &tb));
            idx += 1;
        }
        proof {
            assert(coeffs_view(result@) =~= poly_add(self@, other@));
        }
        Polynomial { coefficients: result }
    }

    /// Every coefficient negated.
    pub fn neg(&self) -> (r: Polynomial)
        ensures
            r@ == poly_neg(self@),
    {
        let mut result: Vec<Big> = Vec::new();
        let mut i: usize = 0;
        while i < self.coefficients.len()
            invariant
                i <= self@.len(),
                result@.len() == i,
                forall|j: int| 0 <= j < i ==> #[trigger] result@[j]@ == -self@[j],
            decreases self@.len() - i,
        {
            result.push(self.coefficients[i].negated());
            i += 1;
        }
        proof {
            assert(coeffs_view(result@) =~= poly_neg(self@));
        }
        Polynomial { coefficients: result }
    }

    /// The difference, built as the sum with the negated subtrahend.
    pub fn sub(&self, other: &Self) -> (r: Polynomial)
        ensures
            r@ == poly_sub(self@, other@),
    {
        let r = self.add(&other.neg());
        proof {
            assert(poly_add(self@, poly_neg(other@)) =~= poly_sub(self@, other@));
        }
        r
    }

    /// Every coefficient multiplied by a scalar.
    pub fn scalar_mul(&self, scalar: &Big) -> (r: Polynomial)
        ensures
            r@ == poly_scalar(self@, scalar@),
    {
        let mut result: Vec<Big> = Vec::new();
        let mut i: usize = 0;
        while i < self.coefficients.len()
            invariant
                i <= self@.len(),
                result@.len() == i,
                forall|j: int| 0 <= j < i ==> #[trigger] result@[j]@ == self@[j] * scalar@,
            decreases self@.len() - i,
        {
            result.push(big_mul(&self.coefficients[i], scalar));
            i += 1;
        }
        proof {
            assert(coeffs_view(result@) =~= poly_scalar(self@, scalar@));
        }
        Polynomial { coefficients: result }
    }

    /// Long division: the quotient and the trimmed remainder.  The quotient
    /// coefficients are truncated quotients of integers, so the usual
    /// division identity is kept exactly at every step; with a monic divisor
    /// the remainder has smaller degree than the divisor.
    pub fn div(&self, divisor: &Self) -> (r: Result<(Polynomial, Polynomial), PolynomialError>)
        requires
            self@.len() < usize::MAX,
        ensures
            match r {
                Ok(qr) => !all_zero(divisor@) && divisor@.len() > 0 && divisor@[0] != 0
                    && div_result(self@, divisor@, qr.0@, qr.1@) && ((divisor@.len() == 1
                    && spec_degree(self@) >= spec_degree(divisor@)) ==> (qr.0@.len() == self@.len()
                    && forall|p: int|
                    0 <= p < self@.len() ==> qr.0@[p] == tdiv(#[trigger] self@[p], divisor@[0]))),
                Err(e) => (e is DivisionByZero && all_zero(divisor@)) || (e is InvalidPolynomial
                    && !all_zero(divisor@) && divisor@[0] == 0),
            },
    {
        if divisor.is_zero() {
            return Err(PolynomialError::DivisionByZero);
        }
        proof {
            if divisor@.len() == 0 {
                assert(all_zero(divisor@));
            }
        }
        let z = Big::zero();
        if big_eq(&divisor.coefficients[0], &z) {
            return Err(
                PolynomialError::InvalidPolynomial(
                    "Leading coefficient of divisor cannot be zero".to_string(),
                ),
            );
        }
        if self.degree() < divisor.degree() {
            let q = Polynomial::zero(0);
            proof {
                assert(q@ =~= seq![0int]);
            }
            return Ok((q, self.dup()));
        }
        let la = self.coefficients.len();
        let ld = divisor.coefficients.len();
        proof {
            if la == 0 {
                assert(spec_degree(self@) == 0 && spec_degree(divisor@) <= 0);
            }
            assert(la + 1 >= ld);
        }
        let qlen = la + 1 - ld;
        let ghost monic = divisor@[0] == 1 || divisor@[0] == -1;
        let mut quotient: Vec<Big> = Vec::new();
        let mut remainder: Vec<Big> = self.dup().coefficients;
        let mut i: usize = 0;
        while i < qlen
            invariant
                la == self@.len(),
                ld == divisor@.len(),
                1 <= ld,
                la + 1 >= ld,
                qlen == la + 1 - ld,
                divisor@[0] != 0,
                monic == (divisor@[0] == 1 || divisor@[0] == -1),
                i <= qlen,
                quotient@.len() == i,
                remainder@.len() == la,
                forall|p: int|
                    0 <= p < la ==> #[trigger] self@[p] == conv_at(
                        coeffs_view(quotient@),
                        divisor@,
                        p,
                    ) + coeffs_view(remainder@)[p],
                monic ==> forall|p: int| 0 <= p < i ==> #[trigger] coeffs_view(remainder@)[p] == 0,
                ld == 1 ==> forall|si: int|
                    0 <= si < i ==> #[trigger] coeffs_view(quotient@)[si] == tdiv(
                        self@[si],
                        divisor@[0],
                    ),
                ld == 1 ==> forall|p: int|
                    i <= p < la ==> #[trigger] coeffs_view(remainder@)[p] == self@[p],
            decreases qlen - i,
        {
            let ghost q_old = coeffs_view(quotient@);
            let ghost rem_start = coeffs_view(remainder@);
            let c = big_div_trunc(&remainder[i], &divisor.coefficients[0]);
            quotient.push(c.dup());
            let ghost q_new = coeffs_view(quotient@);
            proof {
                assert(q_new =~= q_old.push(c@));
                assert forall|p: int| 0 <= p < la implies #[trigger] conv_at(q_new, divisor@, p)
                    == conv_at(q_old, divisor@, p) + (if 0 <= p - i < ld {
                    c@ * divisor@[p - i]
                } else {
                    0
                }) by {
                    lemma_conv_partial_prefix(q_new, q_old, divisor@, p, i as int);
                }
            }
            let ghost r_i_new = rem_start[i as int] - c@ * divisor@[0];
            proof {
                if monic {
                    if divisor@[0] == 1 {
                        assert(int_abs(rem_start[i as int]) / 1 == int_abs(rem_start[i as int]));
                        assert(c@ == rem_start[i as int]);
                    } else {
                        assert(int_abs(rem_start[i as int]) / 1 == int_abs(rem_start[i as int]));
                        assert(c@ == -rem_start[i as int]);
                    }
                    assert(r_i_new == 0);
                }
            }
            let mut j: usize = 0;
            while j < ld
                invariant
                    la == self@.len(),
                    ld == divisor@.len(),
                    1 <= ld,
                    qlen == la + 1 - ld,
                    i < qlen,
                    j <= ld,
                    divisor@[0] != 0,
                    monic == (divisor@[0] == 1 || divisor@[0] == -1),
                    remainder@.len() == la,
                    rem_start.len() == la,
                    r_i_new == rem_start[i as int] - c@ * divisor@[0],
                    monic ==> r_i_new == 0,
                    q_new == coeffs_view(quotient@),
                    quotient@.len() == i + 1,
                    forall|p: int|
                        0 <= p < la ==> #[trigger] self@[p] == conv_at(q_new, divisor@, p)
                            + coeffs_view(remainder@)[p] - (if i + j <= p < i + ld {
                            c@ * divisor@[p - i]
                        } else {
                            0
                        }),
                    j == 0 ==> coeffs_view(remainder@) == rem_start,
                    j >= 1 ==> coeffs_view(remainder@)[i as int] == r_i_new,
                    monic ==> forall|p: int|
                        0 <= p < i ==> #[trigger] coeffs_view(remainder@)[p] == 0,
                    ld == 1 ==> forall|p: int|
                        i + 1 <= p < la ==> #[trigger] coeffs_view(remainder@)[p] == rem_start[p],
                decreases ld - j,
            {
                let ghost rem_before = coeffs_view(remainder@);
                if divisor.coefficients[j].is_zero_repr() {
                    proof {
                        if j == 0 {
                            assert(false);
                        }
                        assert(divisor@[j as int] == 0);
                        assert(c@ * divisor@[j as int] == 0);
                        assert forall|p: int| 0 <= p < la implies #[trigger] self@[p] == conv_at(
                            q_new,
                            divisor@,
                            p,
                        ) + rem_before[p] - (if i + j + 1 <= p < i + ld {
                            c@ * divisor@[p - i]
                        } else {
                            0
                        }) by {
                            if p == i + j {
                                assert(self@[p] == conv_at(q_new, divisor@, p) + rem_before[p] - c@
                                    * divisor@[j as int]);
                            }
                        }
                    }
                } else {
                    let t = big_sub(&remainder[i + j], &big_mul(&divisor.coefficients[j], &c));
                    remainder[i + j] = t;
                    proof {
                        let rem_new = coeffs_view(remainder@);
                        assert(rem_new =~= rem_before.update(
                            i + j,
                            rem_before[i + j] - divisor@[j as int] * c@,
                        ));
                        assert(divisor@[j as int] * c@ == c@ * divisor@[j as int])
                            by (nonlinear_arith);
                        if j == 0 {
                            assert(rem_new[i as int] == rem_start[i as int] - c@ * divisor@[0]);
                        }
                        assert forall|p: int| 0 <= p < la implies #[trigger] self@[p] == conv_at(
                            q_new,
                            divisor@,
                            p,
                        ) + rem_new[p] - (if i + j + 1 <= p < i + ld {
                            c@ * divisor@[p - i]
                        } else {
                            0
                        }) by {
                            if p == i + j {
                                assert(self@[p] == conv_at(q_new, divisor@, p) + rem_before[p] - c@
                                    * divisor@[j as int]);
                            } else {
                                assert(rem_new[p] == rem_before[p]);
                            }
                        }
                    }
                }
                j += 1;
            }
            i += 1;
            proof {
                if monic {
                    assert(coeffs_view(remainder@)[i - 1] == r_i_new);
                    assert(forall|p: int|
                        0 <= p < i ==> #[trigger] coeffs_view(remainder@)[p] == 0);
                }
            }
        }
        let ghost rem_full = coeffs_view(remainder@);
        let ghost qv = coeffs_view(quotient@);
        let mut rem_trim = remainder;
        let ghost mut dropped: int = 0;
        while rem_trim.len() > 0 && big_eq(&rem_trim[0], &z)
            invariant
                z@ == 0,
                0 <= dropped <= la,
                rem_full.len() == la,
                coeffs_view(rem_trim@) =~= rem_full.skip(dropped),
                forall|p: int| 0 <= p < dropped ==> #[trigger] rem_full[p] == 0,
            decreases rem_trim.len(),
        {
            let ghost before = coeffs_view(rem_trim@);
            rem_trim.remove(0);
            proof {
                assert(coeffs_view(rem_trim@) =~= before.skip(1));
                assert(rem_full.skip(dropped).skip(1) =~= rem_full.skip(dropped + 1));
                assert(rem_full[dropped] == before[0]);
                dropped = dropped + 1;
            }
        }
        proof {
            let rv = coeffs_view(rem_trim@);
            assert(rv.len() == la - dropped);
            assert forall|p: int| 0 <= p < la implies padded(rv, la as int, p) == rem_full[p] by {
                if p >= dropped {
                    assert(rv[p - dropped] == rem_full.skip(dropped)[p - dropped]);
                }
            }
            if monic {
                if rv.len() > 0 {
                    assert(rv[0] == rem_full[dropped]);
                    if dropped < qlen {
                        assert(rem_full[dropped] == 0);
                    }
                    assert(dropped >= qlen);
                }
                assert(rv.len() < ld);
            }
        }
        Ok((Polynomial { coefficients: quotient }, Polynomial { coefficients: rem_trim }))
    }

    /// The product by plain convolution; a zero factor collapses to the
    /// single zero coefficient.
    pub fn mul(&self, other: &Self) -> (r: Polynomial)
        requires
            self@.len() + other@.len() <= usize::MAX,
        ensures
            r@ == poly_mul(self@, other@),
    {
        if self.is_zero() || other.is_zero() {
            let z = Polynomial::zero(0);
            proof {
                assert(z@ =~= seq![0int]);
            }
            return z;
        }
        let la = self.coefficients.len();
        let lb = other.coefficients.len();
        proof {
            if la == 0 {
                assert(all_zero(self@));
            }
            if lb == 0 {
                assert(all_zero(other@));
            }
        }
        let product_len = la + lb - 1;
        let mut prod: Vec<Big> = Vec::new();
        let mut p: usize = 0;
        while p < product_len
            invariant
                la == self@.len(),
                lb == other@.len(),
                1 <= la,
                1 <= lb,
                product_len == la + lb - 1,
                p <= product_len,
                prod@.len() == p,
                forall|t: int| 0 <= t < p ==> #[trigger] prod@[t]@ == conv_at(self@, other@, t),
            decreases product_len - p,
        {
            let mut acc = Big::zero();
            let mut i: usize = 0;
            while i < la
                invariant
                    la == self@.len(),
                    lb == other@.len(),
                    i <= la,
                    acc@ == conv_partial(self@, other@, p as int, i as int),
                decreases la - i,
            {
                if i <= p && p - i < lb {
                    if self.coefficients[i].is_zero_repr() {
                        proof {
                            assert(self@[i as int] * other@[p - i] == 0);
                        }
                    } else if other.coefficients[p - i].is_zero_repr() {
                        proof {
                            assert(self@[i as int] * other@[p - i] == 0);
                        }
                    } else {
                        acc = big_add(
                            &acc,
                            &big_mul(&self.coefficients[i], &other.coefficients[p - i]),
                        );
                    }
                }
                i += 1;
            }
            prod.push(acc);
            p += 1;
        }
        proof {
            assert(coeffs_view(prod@) =~= poly_mul_raw(self@, other@));
        }
        Polynomial { coefficients: prod }
    }

    /// The remainder of the division by the cyclotomic polynomial, written
    /// right-aligned into exactly `cyclo.len() - 1` coefficients.
    pub fn reduce_by_cyclotomic(&self, cyclo: &Vec<Big>) -> (r: Result<
        Polynomial,
        PolynomialError,
    >)
        requires
            self@.len() < usize::MAX,
        ensures
            match r {
                Ok(out) => {
                    &&& !all_zero(coeffs_view(cyclo@))
                    &&& coeffs_view(cyclo@)[0] != 0
                    &&& out@.len() == cyclo@.len() - 1
                    &&& exists|q: Seq<int>, rem: Seq<int>|
                        div_result(self@, coeffs_view(cyclo@), q, rem) && out@ == place_rem(
                            rem,
                            cyclo@.len() - 1,
                        )
                },
                Err(e) => (e is DivisionByZero && all_zero(coeffs_view(cyclo@))) || (
                e is InvalidPolynomial && !all_zero(coeffs_view(cyclo@)) && coeffs_view(cyclo@)[0]
                    == 0),
            },
    {
        let cyclo_poly = Polynomial { coefficients: dup_coeffs(cyclo) };
        let (_q, remainder) = match self.div(&cyclo_poly) {
            Ok(qr) => qr,
            Err(e) => {
                return Err(e);
            },
        };
        let n = cyclo.len() - 1;
        let lr = remainder.coefficients.len();
        let mut out: Vec<Big> = Vec::new();
        let mut i: usize = 0;
        while i < n
            invariant
                i <= n,
                out@.len() == i,
                forall|j: int| 0 <= j < i ==> #[trigger] out@[j]@ == 0,
            decreases n - i,
        {
            out.push(Big::zero());
            i += 1;
        }
        if lr > 0 {
            let start_idx = if n >= lr {
                n - lr
            } else {
                0
            };
            let end_idx = if start_idx + lr < n {
                start_idx + lr
            } else {
                n
            };
            let mut t: usize = 0;
            while t < end_idx - start_idx
                invariant
                    n >= lr ==> start_idx == n - lr,
                    n < lr ==> start_idx == 0,
                    end_idx == n,
                    lr > 0,
                    lr == remainder@.len(),
                    t <= end_idx - start_idx,
                    out@.len() == n,
                    forall|j: int|
                        0 <= j < n && !(start_idx <= j < start_idx + t) ==> #[trigger] out@[j]@
                            == 0,
                    forall|j: int|
                        start_idx <= j < start_idx + t ==> #[trigger] out@[j]@ == remainder@[j
                            - start_idx],
                decreases end_idx - start_idx - t,
            {
                let v = remainder.coefficients[t].dup();
                out[start_idx + t] = v;
                t += 1;
            }
        }
        proof {
            let rem = remainder@;
            let nn = n as int;
            assert(coeffs_view(out@) =~= place_rem(rem, nn));
        }
        Ok(Polynomial { coefficients: out })
    }

    /// Every coefficient reduced and centered modulo the modulus.
    pub fn reduce_and_center(&self, modulus: &Big) -> (r: Polynomial)
        requires
            modulus@ >= 1,
        ensures
            r@ == poly_center(self@, modulus@),
    {
        let two = Big::from_u64(2);
        let half_modulus = big_div_trunc(modulus, &two);
        proof {
            assert(int_abs(modulus@) / int_abs(2int) == modulus@ / 2);
        }
        let mut result: Vec<Big> = Vec::new();
        let mut i: usize = 0;
        while i < self.coefficients.len()
            invariant
                i <= self@.len(),
                modulus@ >= 1,
                half_modulus@ == modulus@ / 2,
                result@.len() == i,
                forall|j: int|
                    0 <= j < i ==> #[trigger] result@[j]@ == spec_center(self@[j], modulus@),
            decreases self@.len() - i,
        {
            result.push(reduce_and_center(&self.coefficients[i], modulus, &half_modulus));
            i += 1;
        }
        proof {
            assert(coeffs_view(result@) =~= poly_center(self@, modulus@));
        }
        Polynomial { coefficients: result }
    }

    /// Horner evaluation at the point `x`.
    pub fn evaluate(&self, x: &Big) -> (r: Big)
        ensures
            r@ == poly_eval_prefix(self@, x@, self@.len() as int),
    {
        if self.coefficients.len() == 0 {
            return Big::zero();
        }
        let mut result = self.coefficients[0].dup();
        proof {
            assert(poly_eval_prefix(self@, x@, 0) == 0);
            assert(poly_eval_prefix(self@, x@, 1) == self@[0]);
        }
        let mut i: usize = 1;
        while i < self.coefficients.len()
            invariant
                1 <= i <= self@.len(),
                result@ == poly_eval_prefix(self@, x@, i as int),
            decreases self@.len() - i,
        {
            result = big_add(&big_mul(&result, x), &self.coefficients[i]);
            i += 1;
        }
        result
    }
}

/// An identical copy of a coefficient vector.
pub fn dup_coeffs(v: &Vec<Big>) -> (r: Vec<Big>)
    ensures
        coeffs_view(r@) == coeffs_view(v@),
        r@.len() == v@.len(),
{
    let mut out: Vec<Big> = Vec::new();
    let mut i: usize = 0;
    while i < v.len()
        invariant
            i <= v@.len(),
            out@.len() == i,
            forall|j: int| 0 <= j < i ==> #[trigger] out@[j]@ == v@[j]@,
        decreases v@.len() - i,
    {
        out.push(v[i].dup());
        i += 1;
    }
    proof {
        assert(coeffs_view(out@) =~= coeffs_view(v@));
    }
    out
}

/// A residue reduced modulo the modulus and centered: for an odd modulus the
/// result lies in the symmetric range `[-(m-1)/2, (m-1)/2]`, for an even one
/// in the asymmetric range `[-m/2, m/2 - 1]`.
pub fn reduce_and_center(x: &Big, modulus: &Big, half_modulus: &Big) -> (r: Big)
    requires
        modulus@ >= 1,
        half_modulus@ == modulus@ / 2,
    ensures
        r@ == spec_center(x@, modulus@),
{
    let z = Big::zero();
    let mut r = big_rem_trunc(x, modulus);
    proof {
        lemma_tmod_emod(x@, modulus@);
    }
    if big_lt(&r, &z) {
        r = big_add(&r, modulus);
    }
    let two = Big::from_u64(2);
    let parity = big_rem_trunc(modulus, &two);
    proof {
        lemma_tmod_emod(modulus@, 2);
    }
    let one = Big::from_u64(1);
    if big_eq(&parity, &one) {
        if big_lt(half_modulus, &r) {
            r = big_sub(&r, modulus);
        }
    } else {
        if big_le(half_modulus, &r) {
            r = big_sub(&r, modulus);
        }
    }
    r
}

/// Every coefficient of the vector reduced and centered, in place.
pub fn reduce_and_center_coefficients_mut(coefficients: &mut Vec<Big>, modulus: &Big)
    requires
        modulus@ >= 1,
    ensures
        coeffs_view(final(coefficients)@) == poly_center(coeffs_view(old(coefficients)@), modulus@),
{
    let two = Big::from_u64(2);
    let half_modulus = big_div_trunc(modulus, &two);
    proof {
        assert(int_abs(modulus@) / int_abs(2int) == modulus@ / 2);
    }
    let mut i: usize = 0;
    while i < coefficients.len()
        invariant
            i <= coefficients@.len(),
            modulus@ >= 1,
            half_modulus@ == modulus@ / 2,
            coefficients@.len() == old(coefficients)@.len(),
            forall|j: int|
                0 <= j < i ==> #[trigger] coefficients@[j]@ == spec_center(
                    coeffs_view(old(coefficients)@)[j],
                    modulus@,
                ),
            forall|j: int|
                i <= j < coefficients@.len() ==> #[trigger] coefficients@[j]@ == coeffs_view(
                    old(coefficients)@,
                )[j],
        decreases coefficients@.len() - i,
    {
        let v = reduce_and_center(&coefficients[i], modulus, &half_modulus);
        coefficients[i] = v;
        i += 1;
    }
    proof {
        assert(coeffs_view(coefficients@) =~= poly_center(
            coeffs_view(old(coefficients)@),
            modulus@,
        ));
    }
}

/// Every coefficient of the vector reduced and centered, into a new vector.
pub fn reduce_and_center_coefficients(coefficients: &Vec<Big>, modulus: &Big) -> (r: Vec<Big>)
    requires
        modulus@ >= 1,
    ensures
        coeffs_view(r@) == poly_center(coeffs_view(coefficients@), modulus@),
{
    let mut out = dup_coeffs(coefficients);
    reduce_and_center_coefficients_mut(&mut out, modulus);
    out
}

/// Reduces a coefficient vector inside the ring: first by the cyclotomic
/// polynomial, then each coefficient reduced and centered modulo the modulus.
pub fn reduce_in_ring(coefficients: &mut Vec<Big>, cyclo: &Vec<Big>, modulus: &Big)
    requires
        modulus@ >= 1,
        !all_zero(coeffs_view(cyclo@)),
        coeffs_view(cyclo@)[0] != 0,
        old(coefficients)@.len() < usize::MAX,
    ensures
        exists|q: Seq<int>, rem: Seq<int>|
            div_result(coeffs_view(old(coefficients)@), coeffs_view(cyclo@), q, rem) && coeffs_view(
                final(coefficients)@,
            ) == poly_center(place_rem(rem, cyclo@.len() - 1), modulus@),
{
    let poly = Polynomial { coefficients: dup_coeffs(coefficients) };
    let reduced = match poly.reduce_by_cyclotomic(cyclo) {
        Ok(p) => p,
        Err(_) => {
            proof {
                assert(false);
            }
            vstd::pervasive::unreached()
        },
    };
    let centered = reduced.reduce_and_center(modulus);
    *coefficients = centered.coefficients;
}

/// Every coefficient reduced into the canonical range `[0, p)`.
pub fn reduce_coefficients(coefficients: &Vec<Big>, p: &Big) -> (r: Vec<Big>)
    requires
        p@ >= 1,
    ensures
        coeffs_view(r@) == poly_mod(coeffs_view(coefficients@), p@),
{
    let z = Big::zero();
    let mut out: Vec<Big> = Vec::new();
    let mut i: usize = 0;
    while i < coefficients.len()
        invariant
            i <= coefficients@.len(),
            p@ >= 1,
            z@ == 0,
            out@.len() == i,
            forall|j: int|
                0 <= j < i ==> #[trigger] out@[j]@ == coeffs_view(coefficients@)[j] % p@,
        decreases coefficients@.len() - i,
    {
        let mut v = big_rem_trunc(&coefficients[i], p);
        proof {
            lemma_tmod_emod(coefficients@[i as int]@, p@);
        }
        if big_lt(&v, &z) {
            v = big_add(&v, p);
        }
        out.push(v);
        i += 1;
    }
    proof {
        assert(coeffs_view(out@) =~= poly_mod(coeffs_view(coefficients@), p@));
    }
    out
}

/// Every coefficient of every row reduced into `[0, p)`.
pub fn reduce_coefficients_2d(coefficient_matrix: &Vec<Vec<Big>>, p: &Big) -> (r: Vec<Vec<Big>>)
    requires
        p@ >= 1,
    ensures
        r@.len() == coefficient_matrix@.len(),
        forall|i: int|
            0 <= i < r@.len() ==> coeffs_view(#[trigger] r@[i]@) == poly_mod(
                coeffs_view(coefficient_matrix@[i]@),
                p@,
            ),
{
    let mut out: Vec<Vec<Big>> = Vec::new();
    let mut i: usize = 0;
    while i < coefficient_matrix.len()
        invariant
            i <= coefficient_matrix@.len(),
            p@ >= 1,
            out@.len() == i,
            forall|j: int|
                0 <= j < i ==> coeffs_view(#[trigger] out@[j]@) == poly_mod(
                    coeffs_view(coefficient_matrix@[j]@),
                    p@,
                ),
        decreases coefficient_matrix@.len() - i,
    {
        out.push(reduce_coefficients(&coefficient_matrix[i], p));
        i += 1;
    }
    out
}

/// Every coefficient reduced into `[0, p)`, in place.
pub fn reduce_coefficients_mut(coefficients: &mut Vec<Big>, p: &Big)
    requires
        p@ >= 1,
    ensures
        coeffs_view(final(coefficients)@) == poly_mod(coeffs_view(old(coefficients)@), p@),
{
    let out = reduce_coefficients(coefficients, p);
    *coefficients = out;
}

/// True when every coefficient lies in the closed interval
/// `[lower_bound, upper_bound]`.
pub fn range_check_centered(vec: &Vec<Big>, lower_bound: &Big, upper_bound: &Big) -> (r: bool)
    ensures
        r == all_in_centered(coeffs_view(vec@), lower_bound@, upper_bound@),
{
    let mut i: usize = 0;
    while i < vec.len()
        invariant
            i <= vec@.len(),
            forall|j: int|
                0 <= j < i ==> lower_bound@ <= #[trigger] coeffs_view(vec@)[j] <= upper_bound@,
        decreases vec@.len() - i,
    {
        if !big_le(lower_bound, &vec[i]) || !big_le(&vec[i], upper_bound) {
            proof {
                assert(!(lower_bound@ <= coeffs_view(vec@)[i as int] <= upper_bound@));
            }
            return false;
        }
        i += 1;
    }
    true
}

/// True when every coefficient lies in `[0, up_bound]` or wraps into
/// `[modulus + low_bound, modulus)`.
pub fn range_check_standard_2bounds(
    vec: &Vec<Big>,
    low_bound: &Big,
    up_bound: &Big,
    modulus: &Big,
) -> (r: bool)
    ensures
        r == all_in_standard2(coeffs_view(vec@), low_bound@, up_bound@, modulus@),
{
    let z = Big::zero();
    let wrap = big_add(modulus, low_bound);
    let mut i: usize = 0;
    while i < vec.len()
        invariant
            z@ == 0,
            wrap@ == modulus@ + low_bound@,
            i <= vec@.len(),
            forall|j: int|
                0 <= j < i ==> (0 <= #[trigger] coeffs_view(vec@)[j] <= up_bound@) || (modulus@
                    + low_bound@ <= coeffs_view(vec@)[j] < modulus@),
        decreases vec@.len() - i,
    {
        let ok_pos = big_le(&z, &vec[i]) && big_le(&vec[i], up_bound);
        let ok_wrap = big_le(&wrap, &vec[i]) && big_lt(&vec[i], modulus);
        if !ok_pos && !ok_wrap {
            proof {
                assert(!((0 <= coeffs_view(vec@)[i as int] <= up_bound@) || (modulus@ + low_bound@
                    <= coeffs_view(vec@)[i as int] < modulus@)));
            }
            return false;
        }
        i += 1;
    }
    true
}

/// True when every coefficient lies in `[0, bound]` or wraps into
/// `[modulus - bound, modulus)`.
pub fn range_check_standard(vec: &Vec<Big>, bound: &Big, modulus: &Big) -> (r: bool)
    ensures
        r == all_in_standard(coeffs_view(vec@), bound@, modulus@),
{
    let z = Big::zero();
    let wrap = big_sub(modulus, bound);
    let mut i: usize = 0;
    while i < vec.len()
        invariant
            z@ == 0,
            wrap@ == modulus@ - bound@,
            i <= vec@.len(),
            forall|j: int|
                0 <= j < i ==> (0 <= #[trigger] coeffs_view(vec@)[j] <= bound@) || (modulus@
                    - bound@ <= coeffs_view(vec@)[j] < modulus@),
        decreases vec@.len() - i,
    {
        let ok_pos = big_le(&z, &vec[i]) && big_le(&vec[i], bound);
        let ok_wrap = big_le(&wrap, &vec[i]) && big_lt(&vec[i], modulus);
        if !ok_pos && !ok_wrap {
            proof {
                assert(!((0 <= coeffs_view(vec@)[i as int] <= bound@) || (modulus@ - bound@
                    <= coeffs_view(vec@)[i as int] < modulus@)));
            }
            return false;
        }
        i += 1;
    }
    true
}

} // verus!
