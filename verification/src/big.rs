//! Arbitrary-precision signed integers.
//!
//! A `Big` is a sign flag together with a little-endian base-2^32 magnitude,
//! and its view is the mathematical integer it denotes.  The arithmetic that
//! needs multi-word algorithms (addition, multiplication, division, ordering,
//! modular inverses, decimal parsing) is carried out by `num_bigint` behind
//! trusted wrappers whose contracts speak only about the views.

use vstd::prelude::*;
use vstd::arithmetic::div_mod::{lemma_fundamental_div_mod, lemma_fundamental_div_mod_converse};

verus! {

/// Mathematical absolute value.
pub open spec fn int_abs(a: int) -> int {
    if a >= 0 {
        a
    } else {
        -a
    }
}

/// Quotient of integer division truncated toward zero, the rounding that
/// `num_bigint` (like Rust's primitive `/`) uses.
pub open spec fn tdiv(a: int, b: int) -> int {
    if (a >= 0) == (b >= 0) {
        int_abs(a) / int_abs(b)
    } else {
        -(int_abs(a) / int_abs(b))
    }
}

/// Remainder of integer division truncated toward zero (it carries the sign
/// of the dividend).
pub open spec fn tmod(a: int, b: int) -> int {
    a - b * tdiv(a, b)
}

/// Value of a magnitude stored as base-2^32 digits, least significant first.
pub open spec fn limbs_value(s: Seq<u32>) -> int
    decreases s.len(),
{
    if s.len() == 0 {
        0
    } else {
        s[0] + 0x100000000 * limbs_value(s.skip(1))
    }
}

/// Integer denoted by a sequence of ASCII decimal digit bytes.
pub open spec fn dec_value(s: Seq<u8>) -> int
    decreases s.len(),
{
    if s.len() == 0 {
        0
    } else {
        dec_value(s.drop_last()) * 10 + (s.last() - 48)
    }
}

/// True when every byte is an ASCII decimal digit.
pub open spec fn all_dec_digits(s: Seq<u8>) -> bool {
    forall|i: int| 0 <= i < s.len() ==> 48 <= #[trigger] s[i] <= 57
}

/// An arbitrary-precision signed integer.
#[derive(Clone, Debug, PartialEq, Eq)]
pub struct Big {
    /// True when the denoted integer is negative.
    pub negative: bool,
    /// Magnitude as base-2^32 digits, least significant first.
    pub limbs: Vec<u32>,
}

impl View for Big {
    type V = int;

    open spec fn view(&self) -> int {
        if self.negative {
            -limbs_value(self.limbs@)
        } else {
            limbs_value(self.limbs@)
        }
    }
}

/// A stored magnitude never denotes a negative integer.
pub proof fn lemma_limbs_value_nonneg(s: Seq<u32>)
    ensures
        limbs_value(s) >= 0,
    decreases s.len(),
{
    if s.len() > 0 {
        lemma_limbs_value_nonneg(s.skip(1));
    }
}

/// A zero top digit never changes the denoted magnitude.
pub proof fn lemma_limbs_drop_last_zero(s: Seq<u32>)
    requires
        s.len() > 0,
        s.last() == 0,
    ensures
        limbs_value(s) == limbs_value(s.drop_last()),
    decreases s.len(),
{
    if s.len() == 1 {
        assert(s.drop_last().len() == 0);
        assert(s.skip(1).len() == 0);
        assert(limbs_value(s) == s[0] + 0x100000000 * limbs_value(s.skip(1)));
        assert(s[0] == s.last());
    } else {
        lemma_limbs_drop_last_zero(s.skip(1));
        assert(s.skip(1).drop_last() =~= s.drop_last().skip(1));
        assert(s.drop_last()[0] == s[0]);
        assert(limbs_value(s) == s[0] + 0x100000000 * limbs_value(s.skip(1)));
        assert(limbs_value(s.drop_last()) == s.drop_last()[0] + 0x100000000 * limbs_value(
            s.drop_last().skip(1),
        ));
    }
}

/// Truncated remainder against the Euclidean one: for a positive modulus the
/// truncated remainder lies in (-m, m), and adding m to a negative truncated
/// remainder yields the Euclidean remainder.
pub proof fn lemma_tmod_emod(a: int, m: int)
    requires
        m >= 1,
    ensures
        -m < tmod(a, m) < m,
        a % m == if tmod(a, m) >= 0 {
            tmod(a, m)
        } else {
            tmod(a, m) + m
        },
{
    if a >= 0 {
        lemma_fundamental_div_mod(a, m);
        assert(tdiv(a, m) == a / m);
        assert(tmod(a, m) == a - m * (a / m));
        assert(a % m == a - m * (a / m)) by {
            lemma_fundamental_div_mod(a, m);
        }
    } else {
        let n = -a;
        lemma_fundamental_div_mod(n, m);
        assert(tdiv(a, m) == -(n / m));
        assert(tmod(a, m) == a + m * (n / m)) by {
            assert(m * -(n / m) == -(m * (n / m))) by (nonlinear_arith);
        }
        assert(n % m == n - m * (n / m));
        assert(tmod(a, m) == -(n % m));
        if n % m == 0 {
            lemma_fundamental_div_mod_converse(a, m, -(n / m), 0);
            assert(a == m * -(n / m) + 0) by (nonlinear_arith)
                requires
                    n == m * (n / m),
                    a == -n,
            ;
        } else {
            let r = m - n % m;
            let q = -(n / m) - 1;
            assert(a == q * m + r) by (nonlinear_arith)
                requires
                    a == -n,
                    n == m * (n / m) + n % m,
                    q == -(n / m) - 1,
                    r == m - n % m,
            ;
            lemma_fundamental_div_mod_converse(a, m, q, r);
        }
    }
}

impl Big {
    /// The additive identity.
    pub fn zero() -> (r: Big)
        ensures
            r@ == 0,
            r.limbs@.len() == 0,
            !r.negative,
    {
        Big { negative: false, limbs: Vec::new() }
    }

    /// An identical copy.
    pub fn dup(&self) -> (r: Big)
        ensures
            r@ == self@,
            r.negative == self.negative,
            r.limbs@ == self.limbs@,
    {
        let mut limbs: Vec<u32> = Vec::new();
        let mut i: usize = 0;
        while i < self.limbs.len()
            invariant
                i <= self.limbs.len(),
                limbs@ == self.limbs@.take(i as int),
            decreases self.limbs.len() - i,
        {
            limbs.push(self.limbs[i]);
            i += 1;
        }
        proof {
            assert(limbs@ =~= self.limbs@);
        }
        Big { negative: self.negative, limbs }
    }

    /// The integer with the opposite sign (zero keeps its canonical form).
    pub fn negated(&self) -> (r: Big)
        ensures
            r@ == -self@,
    {
        let c = self.dup();
        let negative = if c.limbs.len() == 0 {
            false
        } else {
            !c.negative
        };
        Big { negative, limbs: c.limbs }
    }

    /// The absolute value.
    pub fn abs_value(&self) -> (r: Big)
        ensures
            r@ == int_abs(self@),
    {
        let c = self.dup();
        proof {
            lemma_limbs_value_nonneg(self.limbs@);
        }
        Big { negative: false, limbs: c.limbs }
    }

    /// True only for the integer zero (an empty magnitude denotes zero).
    pub fn is_zero_repr(&self) -> (r: bool)
        ensures
            r ==> self@ == 0,
    {
        self.limbs.len() == 0
    }

    /// The integer denoted by a `u64`.
    pub fn from_u64(v: u64) -> (r: Big)
        ensures
            r@ == v,
            !r.negative,
    {
        Big::from_u128(v as u128)
    }

    /// The integer denoted by a `u128`.
    pub fn from_u128(v: u128) -> (r: Big)
        ensures
            r@ == v,
            !r.negative,
    {
        let l0: u32 = (v % 0x100000000) as u32;
        let v1: u128 = v / 0x100000000;
        let l1: u32 = (v1 % 0x100000000) as u32;
        let v2: u128 = v1 / 0x100000000;
        let l2: u32 = (v2 % 0x100000000) as u32;
        let l3: u32 = (v2 / 0x100000000) as u32;
        let mut limbs: Vec<u32> = Vec::new();
        limbs.push(l0);
        limbs.push(l1);
        limbs.push(l2);
        limbs.push(l3);
        proof {
            lemma_fundamental_div_mod(v as int, 0x100000000);
            lemma_fundamental_div_mod(v1 as int, 0x100000000);
            lemma_fundamental_div_mod(v2 as int, 0x100000000);
            let s = limbs@;
            let s1 = s.skip(1);
            let s2 = s1.skip(1);
            let s3 = s2.skip(1);
            let s4 = s3.skip(1);
            assert(s4.len() == 0);
            assert(limbs_value(s4) == 0);
            assert(s3[0] == l3 && s2[0] == l2 && s1[0] == l1);
            assert(limbs_value(s3) == l3 + 0x100000000 * limbs_value(s4));
            assert(limbs_value(s2) == l2 + 0x100000000 * limbs_value(s3));
            assert(limbs_value(s1) == l1 + 0x100000000 * limbs_value(s2));
            assert(limbs_value(s) == l0 + 0x100000000 * limbs_value(s1));
        }
        while limbs.len() > 0 && limbs[limbs.len() - 1] == 0
            invariant
                limbs_value(limbs@) == v,
            decreases limbs.len(),
        {
            proof {
                lemma_limbs_drop_last_zero(limbs@);
            }
            limbs.pop();
        }
        Big { negative: false, limbs }
    }

    /// The integer denoted by an `i64`.
    pub fn from_i64(v: i64) -> (r: Big)
        ensures
            r@ == v,
    {
        let wide: i128 = v as i128;
        if wide < 0 {
            let mag: u128 = (-wide) as u128;
            let m = Big::from_u128(mag);
            Big { negative: true, limbs: m.limbs }
        } else {
            Big::from_u128(wide as u128)
        }
    }

    /// The integer denoted by an `i128` (the extreme negative value is left
    /// out because its magnitude does not fit the type).
    pub fn from_i128(v: i128) -> (r: Big)
        requires
            v != i128::MIN,
        ensures
            r@ == v,
    {
        if v < 0 {
            let mag: u128 = (-v) as u128;
            let m = Big::from_u128(mag);
            Big { negative: true, limbs: m.limbs }
        } else {
            Big::from_u128(v as u128)
        }
    }
}

/// Relies on `num_bigint::BigInt`'s `Add`: the returned integer is the sum of
/// the operands.
#[verifier::external_body]
pub(crate) fn big_add(a: &Big, b: &Big) -> (r: Big)
    ensures
        r@ == a@ + b@,
{
    let sa = if a.negative { num_bigint::Sign::Minus } else { num_bigint::Sign::Plus };
    let sb = if b.negative { num_bigint::Sign::Minus } else { num_bigint::Sign::Plus };
    let x = num_bigint::BigInt::from_slice(sa, &a.limbs) + num_bigint::BigInt::from_slice(
        sb,
        &b.limbs,
    );
    let (s, limbs) = x.to_u32_digits();
    Big { negative: s == num_bigint::Sign::Minus, limbs }
}

/// Relies on `num_bigint::BigInt`'s `Mul`: the returned integer is the
/// product of the operands.
#[verifier::external_body]
pub(crate) fn big_mul(a: &Big, b: &Big) -> (r: Big)
    ensures
        r@ == a@ * b@,
{
    let sa = if a.negative { num_bigint::Sign::Minus } else { num_bigint::Sign::Plus };
    let sb = if b.negative { num_bigint::Sign::Minus } else { num_bigint::Sign::Plus };
    let x = num_bigint::BigInt::from_slice(sa, &a.limbs) * num_bigint::BigInt::from_slice(
        sb,
        &b.limbs,
    );
    let (s, limbs) = x.to_u32_digits();
    Big { negative: s == num_bigint::Sign::Minus, limbs }
}

/// Relies on `num_bigint::BigInt`'s `Div`, which truncates the quotient
/// toward zero and panics on a zero divisor.
#[verifier::external_body]
pub(crate) fn big_div_trunc(a: &Big, b: &Big) -> (r: Big)
    requires
        b@ != 0,
    ensures
        r@ == tdiv(a@, b@),
{
    let sa = if a.negative { num_bigint::Sign::Minus } else { num_bigint::Sign::Plus };
    let sb = if b.negative { num_bigint::Sign::Minus } else { num_bigint::Sign::Plus };
    let x = num_bigint::BigInt::from_slice(sa, &a.limbs) / num_bigint::BigInt::from_slice(
        sb,
        &b.limbs,
    );
    let (s, limbs) = x.to_u32_digits();
    Big { negative: s == num_bigint::Sign::Minus, limbs }
}

/// Relies on `num_bigint::BigInt`'s `Rem`, which keeps the dividend's sign
/// and panics on a zero divisor.
#[verifier::external_body]
pub(crate) fn big_rem_trunc(a: &Big, b: &Big) -> (r: Big)
    requires
        b@ != 0,
    ensures
        r@ == tmod(a@, b@),
{
    let sa = if a.negative { num_bigint::Sign::Minus } else { num_bigint::Sign::Plus };
    let sb = if b.negative { num_bigint::Sign::Minus } else { num_bigint::Sign::Plus };
    let x = num_bigint::BigInt::from_slice(sa, &a.limbs) % num_bigint::BigInt::from_slice(
        sb,
        &b.limbs,
    );
    let (s, limbs) = x.to_u32_digits();
    Big { negative: s == num_bigint::Sign::Minus, limbs }
}

/// Relies on `num_bigint::BigInt`'s `PartialOrd`, which orders by the denoted
/// integers.
#[verifier::external_body]
pub(crate) fn big_le(a: &Big, b: &Big) -> (r: bool)
    ensures
        r == (a@ <= b@),
{
    let sa = if a.negative { num_bigint::Sign::Minus } else { num_bigint::Sign::Plus };
    let sb = if b.negative { num_bigint::Sign::Minus } else { num_bigint::Sign::Plus };
    num_bigint::BigInt::from_slice(sa, &a.limbs) <= num_bigint::BigInt::from_slice(sb, &b.limbs)
}

/// Relies on `num_bigint::BigInt`'s `PartialEq`, which compares the denoted
/// integers.
#[verifier::external_body]
pub(crate) fn big_eq(a: &Big, b: &Big) -> (r: bool)
    ensures
        r == (a@ == b@),
{
    let sa = if a.negative { num_bigint::Sign::Minus } else { num_bigint::Sign::Plus };
    let sb = if b.negative { num_bigint::Sign::Minus } else { num_bigint::Sign::Plus };
    num_bigint::BigInt::from_slice(sa, &a.limbs) == num_bigint::BigInt::from_slice(sb, &b.limbs)
}

/// Relies on `num_bigint::BigInt::modinv`: for a modulus of at least two and
/// a non-negative operand it returns the inverse in `[0, modulus)` when one
/// exists and `None` when none exists.
#[verifier::external_body]
pub(crate) fn big_modinv(a: &Big, m: &Big) -> (r: Option<Big>)
    requires
        a@ >= 0,
        m@ >= 2,
    ensures
        match r {
            Some(x) => 0 <= x@ < m@ && (x@ * a@) % m@ == 1,
            None => forall|y: int| 0 <= y < m@ ==> #[trigger] ((y * a@) % m@) != 1,
        },
{
    let x = num_bigint::BigInt::from_slice(num_bigint::Sign::Plus, &a.limbs);
    let mm = num_bigint::BigInt::from_slice(num_bigint::Sign::Plus, &m.limbs);
    match x.modinv(&mm) {
        None => None,
        Some(v) => {
            let (s, limbs) = v.to_u32_digits();
            Some(Big { negative: s == num_bigint::Sign::Minus, limbs })
        },
    }
}

/// Relies on `num_bigint::BigInt::parse_bytes` with radix ten: on a non-empty
/// string of ASCII decimal digits it returns the denoted integer.
#[verifier::external_body]
pub(crate) fn big_parse_decimal(digits: &Vec<u8>) -> (r: Big)
    requires
        digits@.len() > 0,
        all_dec_digits(digits@),
    ensures
        r@ == dec_value(digits@),
{
    let x = num_bigint::BigInt::parse_bytes(digits, 10).unwrap();
    let (s, limbs) = x.to_u32_digits();
    Big { negative: s == num_bigint::Sign::Minus, limbs }
}

impl Big {
    /// True when this integer is at most the other.
    pub fn le(&self, other: &Big) -> (r: bool)
        ensures
            r == (self@ <= other@),
    {
        big_le(self, other)
    }

    /// True when this integer is strictly below the other.
    pub fn lt(&self, other: &Big) -> (r: bool)
        ensures
            r == (self@ < other@),
    {
        big_lt(self, other)
    }

    /// True when the two integers are equal.
    pub fn eq_value(&self, other: &Big) -> (r: bool)
        ensures
            r == (self@ == other@),
    {
        big_eq(self, other)
    }

    /// Parses a non-empty string of ASCII decimal digits; anything else is
    /// rejected.
    pub fn from_decimal(digits: &Vec<u8>) -> (r: Option<Big>)
        ensures
            match r {
                Some(x) => digits@.len() > 0 && all_dec_digits(digits@) && x@ == dec_value(
                    digits@,
                ),
                None => !(digits@.len() > 0 && all_dec_digits(digits@)),
            },
    {
        if digits.len() == 0 {
            return None;
        }
        let mut i: usize = 0;
        while i < digits.len()
            invariant
                i <= digits.len(),
                forall|j: int| 0 <= j < i ==> 48 <= #[trigger] digits@[j] <= 57,
            decreases digits.len() - i,
        {
            let d = digits[i];
            if d < 48 || d > 57 {
                return None;
            }
            i += 1;
        }
        Some(big_parse_decimal(digits))
    }
}

/// Relies on `num_traits::ToPrimitive::to_u64` for `num_bigint::BigInt`: the
/// value when it fits a `u64`, `None` otherwise.
#[verifier::external_body]
pub(crate) fn big_to_u64(a: &Big) -> (r: Option<u64>)
    ensures
        match r {
            Some(v) => v == a@,
            None => a@ < 0 || a@ > u64::MAX,
        },
{
    let sa = if a.negative { num_bigint::Sign::Minus } else { num_bigint::Sign::Plus };
    num_traits::ToPrimitive::to_u64(&num_bigint::BigInt::from_slice(sa, &a.limbs))
}

/// Relies on `num_traits::ToPrimitive::to_i64` for `num_bigint::BigInt`: the
/// value when it fits an `i64`, `None` otherwise.
#[verifier::external_body]
pub(crate) fn big_to_i64(a: &Big) -> (r: Option<i64>)
    ensures
        match r {
            Some(v) => v == a@,
            None => a@ < i64::MIN || a@ > i64::MAX,
        },
{
    let sa = if a.negative { num_bigint::Sign::Minus } else { num_bigint::Sign::Plus };
    num_traits::ToPrimitive::to_i64(&num_bigint::BigInt::from_slice(sa, &a.limbs))
}

/// Floor division (the Euclidean quotient for a positive divisor), adjusted
/// from the trusted truncated division.
pub(crate) fn big_div_floor(a: &Big, b: &Big) -> (r: Big)
    requires
        b@ >= 1,
    ensures
        r@ == a@ / b@,
{
    let q = big_div_trunc(a, b);
    let rem = big_rem_trunc(a, b);
    let z = Big::zero();
    proof {
        lemma_tmod_emod(a@, b@);
    }
    if big_lt(&rem, &z) {
        let one = Big::from_u64(1);
        proof {
            assert(a@ == b@ * tdiv(a@, b@) + tmod(a@, b@));
            assert(a@ == (tdiv(a@, b@) - 1) * b@ + (tmod(a@, b@) + b@)) by (nonlinear_arith)
                requires
                    a@ == b@ * tdiv(a@, b@) + tmod(a@, b@),
            ;
            lemma_fundamental_div_mod_converse(a@, b@, tdiv(a@, b@) - 1, tmod(a@, b@) + b@);
        }
        big_sub(&q, &one)
    } else {
        proof {
            lemma_fundamental_div_mod_converse(a@, b@, tdiv(a@, b@), tmod(a@, b@));
        }
        q
    }
}

/// Truncated subtraction, through the trusted addition and a sign flip.
pub(crate) fn big_sub(a: &Big, b: &Big) -> (r: Big)
    ensures
        r@ == a@ - b@,
{
    big_add(a, &b.negated())
}

/// Strict order, the complement of the trusted `<=`.
pub(crate) fn big_lt(a: &Big, b: &Big) -> (r: bool)
    ensures
        r == (a@ < b@),
{
    !big_le(b, a)
}

} // verus!
