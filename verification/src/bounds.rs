//! Bound derivation: the numeric ranges every witness quantity must satisfy,
//! computed from the ring parameters alone, together with a deterministic tag
//! that binds a generated constants file to the exact parameter set.

use vstd::prelude::*;
use vstd::arithmetic::div_mod::{
    lemma_fundamental_div_mod, lemma_fundamental_div_mod_converse, lemma_mul_mod_noop_left,
    lemma_mul_mod_noop_right,
};
use crate::big::{
    Big, big_add, big_div_floor, big_div_trunc, big_modinv, big_mul, big_rem_trunc, big_sub,
    big_to_i64, big_to_u64, int_abs, lemma_tmod_emod, tdiv, tmod,
};
use crate::config::{is_pow2, check_pow2, BfvConfig};
use crate::poly::{
    all_in_centered, all_in_standard, all_in_standard2, coeffs_view, poly_mod,
    range_check_centered, range_check_standard, range_check_standard_2bounds, reduce_and_center,
    spec_center,
};
use crate::vectors::{rows_mod, rows_view, InputValidationVectors};

verus! {

// ------------------------------------------------------------------
// The digest behind the configuration tag
// ------------------------------------------------------------------
/// The digest that the hash function assigns to a byte string.
pub uninterp spec fn digest_of(bytes: Seq<u8>) -> Seq<u8>;

/// Relies on `blake3::hash`: a 32-byte digest that is a function of the
/// input bytes alone.
#[verifier::external_body]
fn blake3_digest(bytes: &Vec<u8>) -> (r: Vec<u8>)
    ensures
        r@ == digest_of(bytes@),
        r@.len() == 32,
{
    blake3::hash(bytes.as_slice()).as_bytes().to_vec()
}

// ------------------------------------------------------------------
// Byte encodings hashed into the tag
// ------------------------------------------------------------------
/// A non-negative integer as exactly `k` little-endian bytes.
pub open spec fn fixed_le(v: int, k: nat) -> Seq<u8>
    decreases k,
{
    if k == 0 {
        Seq::empty()
    } else {
        seq![(v % 256) as u8] + fixed_le(v / 256, (k - 1) as nat)
    }
}

/// A non-negative integer as its shortest little-endian byte string (zero
/// becomes the single zero byte).
pub open spec fn min_le(v: int) -> Seq<u8>
    decreases v,
{
    if v < 256 {
        seq![(v % 256) as u8]
    } else {
        seq![(v % 256) as u8] + min_le(v / 256)
    }
}

/// The integer a little-endian byte string denotes.
pub open spec fn bytes_le_value(s: Seq<u8>) -> int
    decreases s.len(),
{
    if s.len() == 0 {
        0
    } else {
        s[0] + 256 * bytes_le_value(s.skip(1))
    }
}

/// A byte string never denotes a negative integer.
pub proof fn lemma_bytes_le_value_nonneg(s: Seq<u8>)
    ensures
        bytes_le_value(s) >= 0,
    decreases s.len(),
{
    if s.len() > 0 {
        lemma_bytes_le_value_nonneg(s.skip(1));
    }
}

/// Each modulus as eight little-endian bytes, concatenated in order.
pub open spec fn moduli_le_bytes(moduli: Seq<u64>) -> Seq<u8>
    decreases moduli.len(),
{
    if moduli.len() == 0 {
        Seq::empty()
    } else {
        fixed_le(moduli[0] as int, 8) + moduli_le_bytes(moduli.skip(1))
    }
}

/// The byte string hashed into the tag: degree, first bound, the moduli,
/// the payload size and twice the component count.
pub open spec fn tag_input_bytes(degree: int, a_bound: int, moduli: Seq<u64>, size: int, l2: int)
    -> Seq<u8> {
    fixed_le(degree, 8) + fixed_le(a_bound, 8) + moduli_le_bytes(moduli) + min_le(size) + min_le(l2)
}

/// The product of the moduli.
pub open spec fn moduli_prod(s: Seq<u64>) -> int
    decreases s.len(),
{
    if s.len() == 0 {
        1
    } else {
        s[0] * moduli_prod(s.skip(1))
    }
}

/// A product of positive factors is positive.
pub proof fn lemma_moduli_prod_pos(s: Seq<u64>)
    requires
        forall|i: int| 0 <= i < s.len() ==> #[trigger] s[i] >= 1,
    ensures
        moduli_prod(s) >= 1,
    decreases s.len(),
{
    if s.len() > 0 {
        assert(forall|i: int| 0 <= i < s.skip(1).len() ==> #[trigger] s.skip(1)[i] >= 1);
        lemma_moduli_prod_pos(s.skip(1));
        assert(s[0] * moduli_prod(s.skip(1)) >= 1) by (nonlinear_arith)
            requires
                s[0] >= 1,
                moduli_prod(s.skip(1)) >= 1,
        ;
    }
}

/// The tag: the digest of the parameter bytes, read as a little-endian
/// integer and reduced modulo the product of the moduli.
pub open spec fn spec_tag(degree: int, a_bound: int, moduli: Seq<u64>, size: int, l2: int) -> int {
    bytes_le_value(digest_of(tag_input_bytes(degree, a_bound, moduli, size, l2))) % moduli_prod(
        moduli,
    )
}

/// Appends exactly `k` little-endian bytes of `v`.
fn push_fixed_le(out: &mut Vec<u8>, v: u64, k: usize)
    ensures
        final(out)@ == old(out)@ + fixed_le(v as int, k as nat),
    decreases k,
{
    if k == 0 {
        proof {
            assert(old(out)@ + fixed_le(v as int, 0) =~= old(out)@);
        }
        return ;
    }
    let b: u8 = (v % 256) as u8;
    out.push(b);
    let ghost mid = out@;
    push_fixed_le(out, v / 256, k - 1);
    proof {
        assert(mid =~= old(out)@ + seq![b]);
        assert(final(out)@ =~= old(out)@ + (seq![b] + fixed_le(v as int / 256, (k - 1) as nat)));
    }
}

/// Appends the shortest little-endian byte string of `v`.
fn push_min_le(out: &mut Vec<u8>, v: u64)
    ensures
        final(out)@ == old(out)@ + min_le(v as int),
    decreases v,
{
    let b: u8 = (v % 256) as u8;
    out.push(b);
    if v < 256 {
        proof {
            assert(final(out)@ =~= old(out)@ + min_le(v as int));
        }
    } else {
        let ghost mid = out@;
        push_min_le(out, v / 256);
        proof {
            assert(mid =~= old(out)@ + seq![b]);
            assert(final(out)@ =~= old(out)@ + (seq![b] + min_le(v as int / 256)));
        }
    }
}

/// The integer a little-endian byte string denotes, as a `Big`.
fn big_from_le_bytes(bytes: &Vec<u8>) -> (r: Big)
    ensures
        r@ == bytes_le_value(bytes@),
{
    let c256 = Big::from_u64(256);
    let mut acc = Big::zero();
    let mut k = bytes.len();
    while k > 0
        invariant
            k <= bytes@.len(),
            c256@ == 256,
            acc@ == bytes_le_value(bytes@.skip(k as int)),
        decreases k,
    {
        k -= 1;
        let term = Big::from_u64(bytes[k] as u64);
        acc = big_add(&big_mul(&acc, &c256), &term);
        proof {
            assert(bytes@.skip(k as int).skip(1) =~= bytes@.skip(k + 1));
            assert(bytes@.skip(k as int)[0] == bytes@[k as int]);
        }
    }
    proof {
        assert(bytes@.skip(0) =~= bytes@);
    }
    acc
}

/// The product of the moduli, as a `Big`.
fn moduli_prod_exec(moduli: &Vec<u64>, l: usize) -> (r: Big)
    requires
        l <= moduli@.len(),
    ensures
        r@ == moduli_prod(moduli@.take(l as int)),
{
    let ghost used = moduli@.take(l as int);
    let mut acc = Big::from_u64(1);
    let mut k = l;
    while k > 0
        invariant
            k <= l,
            l <= moduli@.len(),
            used == moduli@.take(l as int),
            acc@ == moduli_prod(used.skip(k as int)),
        decreases k,
    {
        k -= 1;
        let qk = Big::from_u64(moduli[k]);
        acc = big_mul(&qk, &acc);
        proof {
            assert(used.skip(k as int).skip(1) =~= used.skip(k + 1));
            assert(used.skip(k as int)[0] == moduli@[k as int]);
        }
    }
    proof {
        assert(used.skip(0) =~= used);
    }
    acc
}

// ------------------------------------------------------------------
// The scalar bounds
// ------------------------------------------------------------------
/// True when `b` is the least integer at least `6 * sqrt(v)`: the
/// conservative cap on coefficients of a discrete Gaussian of variance `v`.
pub open spec fn gauss_ok(b: int, v: int) -> bool {
    &&& b >= 0
    &&& b * b >= 36 * v
    &&& (b == 0 || (b - 1) * (b - 1) < 36 * v)
}

/// The Gaussian bound of a variance.
pub open spec fn gauss_of(v: int) -> int {
    choose|b: int| gauss_ok(b, v)
}

/// There is only one Gaussian bound for a variance.
pub proof fn lemma_gauss_unique(b1: int, b2: int, v: int)
    requires
        gauss_ok(b1, v),
        gauss_ok(b2, v),
    ensures
        b1 == b2,
{
    if b1 < b2 {
        assert(b1 * b1 <= (b2 - 1) * (b2 - 1)) by (nonlinear_arith)
            requires
                0 <= b1 <= b2 - 1,
        ;
    }
    if b2 < b1 {
        assert(b2 * b2 <= (b1 - 1) * (b1 - 1)) by (nonlinear_arith)
            requires
                0 <= b2 <= b1 - 1,
        ;
    }
}

/// The Gaussian bound `ceil(6 * sqrt(variance))`, by binary search on the
/// squares.
pub fn gauss_bound(variance: u64) -> (r: u64)
    ensures
        gauss_ok(r as int, variance as int),
        r as int == gauss_of(variance as int),
{
    let target: u128 = 36 * (variance as u128);
    let mut lo: u128 = 0;
    let mut hi: u128 = 0x800000000;
    proof {
        assert(hi * hi >= target) by (nonlinear_arith)
            requires
                hi == 0x800000000u128,
                target <= 36 * 0xffffffffffffffffu128,
        ;
    }
    while lo < hi
        invariant
            lo <= hi,
            hi <= 0x800000000,
            target == 36 * (variance as int),
            hi * hi >= target,
            lo == 0 || (lo - 1) * (lo - 1) < target,
        decreases hi - lo,
    {
        let mid = lo + (hi - lo) / 2;
        proof {
            assert(mid * mid <= 0x800000000 * 0x800000000) by (nonlinear_arith)
                requires
                    0 <= mid <= 0x800000000u128,
            ;
        }
        if mid * mid >= target {
            hi = mid;
        } else {
            lo = mid + 1;
        }
    }
    proof {
        assert(gauss_ok(lo as int, variance as int));
        lemma_gauss_unique(lo as int, gauss_of(variance as int), variance as int);
    }
    lo as u64
}

/// The upper plaintext half-range bound `(t - 1) / 2`.
pub open spec fn ptxt_high_spec(t: int) -> int {
    (t - 1) / 2
}

/// The lower plaintext half-range bound: `-(t-1)/2` for odd `t`, one less
/// for even `t`.
pub open spec fn ptxt_low_spec(t: int) -> int {
    if t % 2 == 1 {
        -((t - 1) / 2)
    } else {
        -((t - 1) / 2) - 1
    }
}

/// The upper plaintext half-range bound.
pub fn ptxt_high(t: u64) -> (r: u64)
    requires
        t >= 1,
    ensures
        r as int == ptxt_high_spec(t as int),
{
    (t - 1) / 2
}

/// The lower plaintext half-range bound, asymmetric for even moduli.
pub fn ptxt_low(t: u64) -> (r: i128)
    requires
        t >= 1,
    ensures
        r as int == ptxt_low_spec(t as int),
{
    let h: i128 = ((t - 1) / 2) as i128;
    if t % 2 == 1 {
        -h
    } else {
        -h - 1
    }
}

/// Range-size law: for an odd plaintext modulus the two bounds differ by
/// exactly `t - 1`; for an even one the closed range `[low, high]` holds
/// exactly `t` residues.
pub proof fn lemma_ptxt_range_size(t: int)
    requires
        t >= 1,
    ensures
        t % 2 == 1 ==> ptxt_high_spec(t) - ptxt_low_spec(t) == t - 1,
        t % 2 == 0 ==> ptxt_low_spec(t) == -((t - 1) / 2) - 1,
        t % 2 == 0 ==> ptxt_high_spec(t) - ptxt_low_spec(t) + 1 == t,
{
    lemma_fundamental_div_mod(t, 2);
    if t % 2 == 0 {
        lemma_fundamental_div_mod_converse(t - 1, 2, t / 2 - 1, 1);
    } else {
        lemma_fundamental_div_mod_converse(t - 1, 2, t / 2, 0);
    }
}

// ------------------------------------------------------------------
// Modular inverses
// ------------------------------------------------------------------
/// True when `x` is the inverse of `a` modulo `m`, in canonical range.
pub open spec fn is_inverse(x: int, a: int, m: int) -> bool {
    0 <= x < m && (x * a) % m == 1
}

/// True when `a` has an inverse modulo `m`.
pub open spec fn inverse_exists(a: int, m: int) -> bool {
    exists|x: int| is_inverse(x, a, m)
}

/// The inverse of `a` modulo `m`, where one exists.
pub open spec fn the_inverse(a: int, m: int) -> int {
    choose|x: int| is_inverse(x, a, m)
}

/// An inverse modulo `m` is unique in the canonical range.
pub proof fn lemma_inverse_unique(x: int, y: int, a: int, m: int)
    requires
        m >= 1,
        is_inverse(x, a, m),
        is_inverse(y, a, m),
    ensures
        x == y,
{
    lemma_fundamental_div_mod_converse(x, m, 0, x);
    lemma_fundamental_div_mod_converse(y, m, 0, y);
    assert((x * a) * y == x * (a * y)) by (nonlinear_arith);
    assert(a * y == y * a) by (nonlinear_arith);
    lemma_mul_mod_noop_left(x * a, y, m);
    assert(((x * a) % m) * y == y);
    lemma_mul_mod_noop_right(x, a * y, m);
    assert(x * ((a * y) % m) == x);
}

/// The residue `-t mod m` in canonical range.
pub open spec fn neg_mod_spec(t: int, m: int) -> int {
    (m - t % m) % m
}

// ------------------------------------------------------------------
// The derived bound record
// ------------------------------------------------------------------
/// The lower bound of the low witness for one component: the spec's
/// `floor((ptxtLow * |k0| - ((N*B + 2) * qi_bound + B)) / qi)`.
pub open spec fn r1_low_spec(t: int, qi: int, n: int, b: int) -> int {
    (ptxt_low_spec(t) * int_abs(the_inverse(neg_mod_spec(t, qi), qi)) - ((n * b + 2) * ((qi - 1)
        / 2) + b)) / qi
}

/// The upper bound of the low witness for one component.
pub open spec fn r1_up_spec(t: int, qi: int, n: int, b: int) -> int {
    (ptxt_high_spec(t) * int_abs(the_inverse(neg_mod_spec(t, qi), qi)) + ((n * b + 2) * ((qi - 1)
        / 2) + b)) / qi
}

/// An integer clamped into `u64`, with a default outside the range.
pub open spec fn clamp_u64(x: int, dflt: int) -> int {
    if 0 <= x <= u64::MAX {
        x
    } else {
        dflt
    }
}

/// An integer clamped into `i64`, with a default outside the range.
pub open spec fn clamp_i64(x: int, dflt: int) -> int {
    if i64::MIN <= x <= i64::MAX {
        x
    } else {
        dflt
    }
}

/// The payload-size constant `(10N - 4)L + 4N`.
pub open spec fn size_spec(degree: int, l: int) -> int {
    (10 * degree - 4) * l + 4 * degree
}

/// True when the size computation stays inside `usize` at every step.
pub open spec fn size_computable(degree: int, l: int) -> bool {
    &&& 10 * degree <= usize::MAX
    &&& (10 * degree - 4) * l <= usize::MAX
    &&& (10 * degree - 4) * l + 4 * degree <= usize::MAX
}

/// The moduli a level leaves in use: the later ones are dropped.
pub open spec fn used_moduli(c: BfvConfig, level: int) -> Seq<u64> {
    c.moduli@.take(c.moduli@.len() - level)
}

/// When bound derivation accepts a parameter set and level.
pub open spec fn params_accepted(c: BfvConfig, level: int) -> bool {
    let mods = used_moduli(c, level);
    &&& level < c.moduli@.len()
    &&& is_pow2(c.degree as int)
    &&& c.plaintext_modulus >= 1
    &&& (forall|i: int| 0 <= i < mods.len() ==> #[trigger] mods[i] >= 2)
    &&& (forall|i: int|
        0 <= i < mods.len() ==> inverse_exists(
            neg_mod_spec(c.plaintext_modulus as int, #[trigger] mods[i] as int),
            mods[i] as int,
        ))
    &&& size_computable(c.degree as int, mods.len() as int)
}

/// Everything a bound record derived from `(c, level)` must hold.
pub open spec fn bounds_match(b: InputValidationBounds, c: BfvConfig, level: int) -> bool {
    let mods = used_moduli(c, level);
    let n = mods.len() as int;
    let g = gauss_of(c.variance as int);
    let t = c.plaintext_modulus as int;
    let d = c.degree as int;
    &&& b.sk@ == g
    &&& b.e@ == g
    &&& b.a@ == (mods[0] as int - 1) / 2
    &&& coeffs_view(b.r2@) == Seq::new(n as nat, |i: int| (mods[i] as int - 1) / 2)
    &&& coeffs_view(b.r1_low@) == Seq::new(n as nat, |i: int| r1_low_spec(t, mods[i] as int, d, g))
    &&& coeffs_view(b.r1_up@) == Seq::new(n as nat, |i: int| r1_up_spec(t, mods[i] as int, d, g))
    &&& b.moduli@ == mods
    &&& b.sk_bound == g
    &&& b.e_bound == g
    &&& b.a_bound == (mods[0] as int - 1) / 2
    &&& b.r1_low_bounds@.len() == n
    &&& (forall|i: int|
        0 <= i < n ==> #[trigger] b.r1_low_bounds@[i] as int == clamp_i64(
            r1_low_spec(t, mods[i] as int, d, g),
            0,
        ))
    &&& b.r1_up_bounds@.len() == n
    &&& (forall|i: int|
        0 <= i < n ==> #[trigger] b.r1_up_bounds@[i] as int == clamp_u64(
            r1_up_spec(t, mods[i] as int, d, g),
            0,
        ))
    &&& b.r2_bounds@.len() == n
    &&& (forall|i: int|
        0 <= i < n ==> #[trigger] b.r2_bounds@[i] as int == (mods[i] as int - 1) / 2)
    &&& b.q_mod_t@ == spec_center(moduli_prod(mods), t)
    &&& b.size == size_spec(d, n)
    &&& b.tag@ == spec_tag(d, (mods[0] as int - 1) / 2, mods, size_spec(d, n), 2 * n)
}

/// Errors of bound derivation.
#[derive(Debug, Clone, PartialEq)]
pub enum BoundsError {
    /// The requested level has fewer RNS moduli than required.
    LevelOutOfRange,
    /// The degree is not a power of two.
    DegreeNotPowerOfTwo,
    /// The plaintext modulus is zero.
    PlaintextTooSmall,
    /// A ciphertext modulus is below two.
    ModulusTooSmall(usize),
    /// The plaintext modulus has no inverse modulo this component's modulus.
    InverseNotFound(usize),
    /// The payload-size constant does not fit the machine word.
    SizeOverflow,
}

/// Upper and lower bounds for every witness quantity of one parameter set,
/// with the precomputed values serialization needs.
#[derive(Clone, Debug)]
pub struct InputValidationBounds {
    /// Symmetric bound for secret-key coefficients.
    pub sk: Big,
    /// Symmetric bound for error coefficients.
    pub e: Big,
    /// Symmetric bound for the public polynomial.
    pub a: Big,
    /// Lower bound of the low witness, per component.
    pub r1_low: Vec<Big>,
    /// Upper bound of the low witness, per component.
    pub r1_up: Vec<Big>,
    /// Symmetric bound of the high witness and the ciphertext rows, per
    /// component.
    pub r2: Vec<Big>,
    /// The RNS moduli in use at the requested level.
    pub moduli: Vec<u64>,
    /// The secret-key bound as a machine word.
    pub sk_bound: u64,
    /// The error bound as a machine word.
    pub e_bound: u64,
    /// The public-polynomial bound as a machine word.
    pub a_bound: u64,
    /// The signed low-witness lower bounds as machine words.
    pub r1_low_bounds: Vec<i64>,
    /// The low-witness upper bounds as machine words.
    pub r1_up_bounds: Vec<u64>,
    /// The high-witness bounds as machine words.
    pub r2_bounds: Vec<u64>,
    /// The centered value of the ciphertext modulus modulo the plaintext
    /// modulus.
    pub q_mod_t: Big,
    /// The payload-size constant.
    pub size: usize,
    /// The tag binding this record to its parameter set.
    pub tag: Big,
}

impl InputValidationBounds {
    /// Derives the bounds for a parameter set at a level.  It fails exactly
    /// on a level with too few moduli, a degree that is not a power of two,
    /// a zero plaintext modulus, a modulus below two, a component whose
    /// modulus does not admit the needed inverse, or a payload size beyond
    /// the machine word.
    pub fn compute(params: &BfvConfig, level: usize) -> (r: Result<
        InputValidationBounds,
        BoundsError,
    >)
        ensures
            match r {
                Ok(b) => params_accepted(*params, level as int) && bounds_match(
                    b,
                    *params,
                    level as int,
                ),
                Err(_) => !params_accepted(*params, level as int),
            },
    {
        let ghost c = *params;
        let l_total = params.moduli.len();
        if level >= l_total {
            return Err(BoundsError::LevelOutOfRange);
        }
        if !check_pow2(params.degree) {
            return Err(BoundsError::DegreeNotPowerOfTwo);
        }
        let t = params.plaintext_modulus;
        if t < 1 {
            return Err(BoundsError::PlaintextTooSmall);
        }
        let l = l_total - level;
        let ghost mods = used_moduli(c, level as int);
        proof {
            assert(mods.len() == l);
            assert(forall|i: int| 0 <= i < l ==> mods[i] == c.moduli@[i]);
        }
        let mut i: usize = 0;
        while i < l
            invariant
                l <= params.moduli@.len(),
                mods == used_moduli(c, level as int),
                c == *params,
                mods.len() == l,
                forall|j: int| 0 <= j < l ==> #[trigger] mods[j] == params.moduli@[j],
                i <= l,
                forall|j: int| 0 <= j < i ==> #[trigger] mods[j] >= 2,
            decreases l - i,
        {
            if params.moduli[i] < 2 {
                proof {
                    assert(mods[i as int] < 2);
                }
                return Err(BoundsError::ModulusTooSmall(i));
            }
            i += 1;
        }
        // the Gaussian bound caps both the secret key and the error
        let g = gauss_bound(params.variance);
        let g_big = Big::from_u64(g);
        // the plaintext half-range, asymmetric when t is even
        let high = ptxt_high(t);
        let low = ptxt_low(t);
        let high_big = Big::from_u64(high);
        let low_big = Big::from_i128(low);
        let two_big = Big::from_u64(2);
        let n_big = Big::from_u64(params.degree as u64);
        let ghost gi = g as int;
        let ghost ti = t as int;
        let ghost di = c.degree as int;
        let mut r2_bounds: Vec<Big> = Vec::new();
        let mut r1_low_bounds: Vec<Big> = Vec::new();
        let mut r1_up_bounds: Vec<Big> = Vec::new();
        let mut moduli: Vec<u64> = Vec::new();
        let mut r1_low_i64: Vec<i64> = Vec::new();
        let mut r1_up_u64: Vec<u64> = Vec::new();
        let mut r2_u64: Vec<u64> = Vec::new();
        let mut i: usize = 0;
        while i < l
            invariant
                l <= params.moduli@.len(),
                mods == used_moduli(c, level as int),
                c == *params,
                mods.len() == l,
                forall|j: int| 0 <= j < l ==> #[trigger] mods[j] == params.moduli@[j],
                i <= l,
                g_big@ == gi,
                gi == gauss_of(c.variance as int),
                two_big@ == 2,
                n_big@ == di,
                di == c.degree as int,
                ti == c.plaintext_modulus as int,
                ti == t as int,
                ti >= 1,
                high_big@ == ptxt_high_spec(ti),
                low_big@ == ptxt_low_spec(ti),
                forall|j: int| 0 <= j < l ==> #[trigger] mods[j] >= 2,
                r2_bounds@.len() == i,
                r1_low_bounds@.len() == i,
                r1_up_bounds@.len() == i,
                moduli@.len() == i,
                r1_low_i64@.len() == i,
                r1_up_u64@.len() == i,
                r2_u64@.len() == i,
                forall|j: int| 0 <= j < i ==> #[trigger] moduli@[j] == mods[j],
                forall|j: int|
                    0 <= j < i ==> inverse_exists(
                        neg_mod_spec(ti, #[trigger] mods[j] as int),
                        mods[j] as int,
                    ),
                forall|j: int|
                    0 <= j < i ==> #[trigger] r2_bounds@[j]@ == (mods[j] as int - 1) / 2,
                forall|j: int|
                    0 <= j < i ==> #[trigger] r1_low_bounds@[j]@ == r1_low_spec(
                        ti,
                        mods[j] as int,
                        di,
                        gi,
                    ),
                forall|j: int|
                    0 <= j < i ==> #[trigger] r1_up_bounds@[j]@ == r1_up_spec(
                        ti,
                        mods[j] as int,
                        di,
                        gi,
                    ),
                forall|j: int|
                    0 <= j < i ==> #[trigger] r1_low_i64@[j] as int == clamp_i64(
                        r1_low_spec(ti, mods[j] as int, di, gi),
                        0,
                    ),
                forall|j: int|
                    0 <= j < i ==> #[trigger] r1_up_u64@[j] as int == clamp_u64(
                        r1_up_spec(ti, mods[j] as int, di, gi),
                        0,
                    ),
                forall|j: int| 0 <= j < i ==> #[trigger] r2_u64@[j] as int == (mods[j] as int - 1) / 2,
            decreases l - i,
        {
            let qi = params.moduli[i];
            proof {
                assert(mods[i as int] == params.moduli@[i as int]);
                assert(mods[i as int] >= 2);
                assert(qi >= 2);
            }
            let qi_big = Big::from_u64(qi);
            let qi_bound = (qi - 1) / 2;
            let qi_bound_big = Big::from_u64(qi_bound);
            // the scalar that maps the plaintext contribution into this
            // component: the inverse of -t modulo qi
            let neg_t = (qi - t % qi) % qi;
            proof {
                assert(neg_t as int == neg_mod_spec(ti, qi as int));
            }
            let neg_t_big = Big::from_u64(neg_t);
            let k0 = match big_modinv(&neg_t_big, &qi_big) {
                Some(x) => x,
                None => {
                    proof {
                        assert(!inverse_exists(neg_mod_spec(ti, mods[i as int] as int), mods[i as int] as int));
                    }
                    return Err(BoundsError::InverseNotFound(i));
                },
            };
            proof {
                assert(is_inverse(k0@, neg_mod_spec(ti, qi as int), qi as int));
                assert(inverse_exists(neg_mod_spec(ti, qi as int), qi as int));
                assert(is_inverse(the_inverse(neg_mod_spec(ti, qi as int), qi as int), neg_mod_spec(ti, qi as int), qi as int));
                lemma_inverse_unique(
                    k0@,
                    the_inverse(neg_mod_spec(ti, qi as int), qi as int),
                    neg_mod_spec(ti, qi as int),
                    qi as int,
                );
            }
            let k0_abs = k0.abs_value();
            // the shared magnitude (N*B + 2) * qi_bound + B
            let t3 = big_mul(&big_add(&big_mul(&n_big, &g_big), &two_big), &qi_bound_big);
            let t4 = big_add(&t3, &g_big);
            let low_num = big_sub(&big_mul(&low_big, &k0_abs), &t4);
            let r1l = big_div_floor(&low_num, &qi_big);
            let up_num = big_add(&big_mul(&high_big, &k0_abs), &t4);
            let r1u = big_div_floor(&up_num, &qi_big);
            let r1l_w = match big_to_i64(&r1l) {
                Some(v) => v,
                None => 0,
            };
            let r1u_w = match big_to_u64(&r1u) {
                Some(v) => v,
                None => 0,
            };
            moduli.push(qi);
            r2_bounds.push(qi_bound_big);
            r1_low_bounds.push(r1l);
            r1_up_bounds.push(r1u);
            r1_low_i64.push(r1l_w);
            r1_up_u64.push(r1u_w);
            r2_u64.push(qi_bound);
            i += 1;
        }
        // the public polynomial shares the first component's bound
        let a_big = r2_bounds[0].dup();
        let a_bound = (params.moduli[0] - 1) / 2;
        // centered value of q modulo t
        let t_big = Big::from_u64(t);
        let half_t = big_div_trunc(&t_big, &two_big);
        proof {
            assert(int_abs(ti) / int_abs(2int) == ti / 2);
        }
        let q_prod = moduli_prod_exec(&params.moduli, l);
        proof {
            assert(params.moduli@.take(l as int) =~= mods);
            lemma_moduli_prod_pos(mods);
        }
        let q_mod_t = reduce_and_center(&q_prod, &t_big, &half_t);
        // the payload-size constant, stepping carefully around overflow
        let d = params.degree;
        if d > usize::MAX / 10 {
            return Err(BoundsError::SizeOverflow);
        }
        proof {
            lemma_fundamental_div_mod(usize::MAX as int, 10);
            assert(is_pow2(di) ==> di >= 1) by {
                if di <= 0 {
                    assert(!is_pow2(di));
                }
            }
        }
        let a10 = 10 * d - 4;
        if a10 > usize::MAX / l {
            proof {
                lemma_fundamental_div_mod(usize::MAX as int, l as int);
                assert((10 * di - 4) * (l as int) > usize::MAX) by (nonlinear_arith)
                    requires
                        a10 as int == 10 * di - 4,
                        l >= 1,
                        a10 as int > (usize::MAX as int) / (l as int),
                        usize::MAX as int == (l as int) * ((usize::MAX as int) / (l as int)) + (
                        usize::MAX as int) % (l as int),
                        0 <= (usize::MAX as int) % (l as int) < l as int,
                ;
            }
            return Err(BoundsError::SizeOverflow);
        }
        proof {
            lemma_fundamental_div_mod(usize::MAX as int, l as int);
            assert((10 * di - 4) * (l as int) <= usize::MAX) by (nonlinear_arith)
                requires
                    a10 as int == 10 * di - 4,
                    l >= 1,
                    a10 as int <= (usize::MAX as int) / (l as int),
                    usize::MAX as int == (l as int) * ((usize::MAX as int) / (l as int)) + (
                    usize::MAX as int) % (l as int),
                    0 <= (usize::MAX as int) % (l as int) < l as int,
            ;
        }
        let s1 = a10 * l;
        proof {
            assert(4 * di <= 10 * di) by (nonlinear_arith)
                requires
                    di >= 1,
            ;
        }
        let d4 = 4 * d;
        if s1 > usize::MAX - d4 {
            return Err(BoundsError::SizeOverflow);
        }
        let size = s1 + d4;
        // twice the component count fits because the size did
        proof {
            assert(2 * (l as int) <= size_spec(di, l as int)) by (nonlinear_arith)
                requires
                    di >= 1,
                    l >= 1,
            ;
        }
        let l2 = 2 * l;
        // the tag binds degree, first bound, moduli, size and 2L
        let mut bytes: Vec<u8> = Vec::new();
        push_fixed_le(&mut bytes, d as u64, 8);
        push_fixed_le(&mut bytes, a_bound, 8);
        let ghost base = bytes@;
        proof {
            assert(mods.skip(0) =~= mods);
        }
        let mut i: usize = 0;
        while i < l
            invariant
                l <= params.moduli@.len(),
                mods == used_moduli(c, level as int),
                c == *params,
                mods.len() == l,
                forall|j: int| 0 <= j < l ==> #[trigger] mods[j] == params.moduli@[j],
                i <= l,
                base == fixed_le(di, 8) + fixed_le((mods[0] as int - 1) / 2, 8),
                di == c.degree as int,
                a_bound as int == (mods[0] as int - 1) / 2,
                d as int == di,
                bytes@ + moduli_le_bytes(mods.skip(i as int)) == base + moduli_le_bytes(mods),
            decreases l - i,
        {
            let ghost before = bytes@;
            push_fixed_le(&mut bytes, params.moduli[i], 8);
            proof {
                let f = fixed_le(mods[i as int] as int, 8);
                let m1 = moduli_le_bytes(mods.skip(i + 1));
                assert(mods.skip(i as int).skip(1) =~= mods.skip(i + 1));
                assert(mods.skip(i as int)[0] == mods[i as int]);
                assert(moduli_le_bytes(mods.skip(i as int)) == f + m1);
                assert(bytes@ == before + f);
                assert((before + f) + m1 =~= before + (f + m1));
                assert(bytes@ + m1 == before + moduli_le_bytes(mods.skip(i as int)));
            }
            i += 1;
        }
        proof {
            assert(mods.skip(l as int) =~= Seq::<u64>::empty());
            assert(bytes@ + moduli_le_bytes(mods.skip(l as int)) =~= bytes@);
        }
        push_min_le(&mut bytes, size as u64);
        push_min_le(&mut bytes, l2 as u64);
        proof {
            assert(bytes@ =~= tag_input_bytes(di, (mods[0] as int - 1) / 2, mods, size as int, 2 * (
            l as int)));
        }
        let digest = blake3_digest(&bytes);
        let h = big_from_le_bytes(&digest);
        proof {
            lemma_bytes_le_value_nonneg(digest@);
            let m = moduli_prod(mods);
            lemma_fundamental_div_mod(h@, m);
            assert(tdiv(h@, m) == int_abs(h@) / int_abs(m));
            assert(int_abs(h@) == h@ && int_abs(m) == m);
            assert(tmod(h@, m) == h@ - m * (h@ / m));
            assert(h@ % m == h@ - m * (h@ / m));
        }
        let tag = big_rem_trunc(&h, &q_prod);
        let b = InputValidationBounds {
            sk: g_big.dup(),
            e: g_big,
            a: a_big,
            r1_low: r1_low_bounds,
            r1_up: r1_up_bounds,
            r2: r2_bounds,
            moduli,
            sk_bound: g,
            e_bound: g,
            a_bound,
            r1_low_bounds: r1_low_i64,
            r1_up_bounds: r1_up_u64,
            r2_bounds: r2_u64,
            q_mod_t,
            size,
            tag,
        };
        proof {
            assert(b.moduli@ =~= mods);
            assert(coeffs_view(b.r2@) =~= Seq::new(
                mods.len(),
                |i: int| (mods[i] as int - 1) / 2,
            ));
            assert(coeffs_view(b.r1_low@) =~= Seq::new(
                mods.len(),
                |i: int| r1_low_spec(ti, mods[i] as int, di, gauss_of(c.variance as int)),
            ));
            assert(coeffs_view(b.r1_up@) =~= Seq::new(
                mods.len(),
                |i: int| r1_up_spec(ti, mods[i] as int, di, gauss_of(c.variance as int)),
            ));
        }
        Ok(b)
    }
}

/// A constraint the checker found violated, with the failing quantity and,
/// where one applies, the component index.
#[derive(Debug, Clone, PartialEq)]
pub enum ConstraintError {
    /// The secret key leaves its centered range.
    SecretKey,
    /// The secret key leaves its range in standard form.
    SecretKeyStandard,
    /// The error polynomial leaves its centered range.
    ErrorPoly,
    /// The error polynomial leaves its range in standard form.
    ErrorPolyStandard,
    /// The public polynomial leaves its centered range.
    PublicPoly,
    /// The public polynomial leaves its range in standard form.
    PublicPolyStandard,
    /// A first ciphertext row leaves its centered range.
    Ct0(usize),
    /// A second ciphertext row leaves its centered range.
    Ct1(usize),
    /// A high witness leaves its centered range.
    R2(usize),
    /// A high witness leaves its range in standard form.
    R2Standard(usize),
    /// A low witness leaves its centered range.
    R1(usize),
    /// A low witness leaves its range in standard form.
    R1Standard(usize),
}

/// Every range constraint the checker holds a vector set to, against one
/// bound record and a proof modulus.
pub open spec fn constraints_ok(b: InputValidationBounds, v: InputValidationVectors, p: int) -> bool {
    let n = b.r2@.len() as int;
    &&& all_in_centered(coeffs_view(v.sk@), -b.sk@, b.sk@)
    &&& all_in_centered(coeffs_view(v.e@), -b.e@, b.e@)
    &&& all_in_standard(poly_mod(coeffs_view(v.sk@), p), b.sk@, p)
    &&& all_in_standard(poly_mod(coeffs_view(v.e@), p), b.e@, p)
    &&& all_in_centered(coeffs_view(v.a@), -b.a@, b.a@)
    &&& all_in_standard(poly_mod(coeffs_view(v.a@), p), b.a@, p)
    &&& (forall|i: int|
        0 <= i < n ==> all_in_centered(
            #[trigger] rows_view(v.ct0is@)[i],
            -coeffs_view(b.r2@)[i],
            coeffs_view(b.r2@)[i],
        ))
    &&& (forall|i: int|
        0 <= i < n ==> all_in_centered(
            #[trigger] rows_view(v.ct1is@)[i],
            -coeffs_view(b.r2@)[i],
            coeffs_view(b.r2@)[i],
        ))
    &&& (forall|i: int|
        0 <= i < n ==> all_in_centered(
            #[trigger] rows_view(v.r2is@)[i],
            -coeffs_view(b.r2@)[i],
            coeffs_view(b.r2@)[i],
        ))
    &&& (forall|i: int|
        0 <= i < n ==> all_in_standard(
            poly_mod(#[trigger] rows_view(v.r2is@)[i], p),
            coeffs_view(b.r2@)[i],
            p,
        ))
    &&& (forall|i: int|
        0 <= i < n ==> all_in_centered(
            #[trigger] rows_view(v.r1is@)[i],
            coeffs_view(b.r1_low@)[i],
            coeffs_view(b.r1_up@)[i],
        ))
    &&& (forall|i: int|
        0 <= i < n ==> all_in_standard2(
            poly_mod(#[trigger] rows_view(v.r1is@)[i], p),
            coeffs_view(b.r1_low@)[i],
            coeffs_view(b.r1_up@)[i],
            p,
        ))
}

impl InputValidationBounds {
    /// Checks every vector against its derived bound, in centered form and
    /// in the standard projection modulo `p`.  No set of vectors is accepted
    /// unless every check passes; the first violated constraint is reported.
    pub fn check_constraints(&self, vecs: &InputValidationVectors, p: &Big) -> (r: Result<
        (),
        ConstraintError,
    >)
        requires
            p@ >= 1,
            self.r1_low@.len() == self.r2@.len(),
            self.r1_up@.len() == self.r2@.len(),
            vecs.ct0is@.len() >= self.r2@.len(),
            vecs.ct1is@.len() >= self.r2@.len(),
            vecs.r1is@.len() >= self.r2@.len(),
            vecs.r2is@.len() >= self.r2@.len(),
        ensures
            match r {
                Ok(()) => constraints_ok(*self, *vecs, p@),
                Err(_) => !constraints_ok(*self, *vecs, p@),
            },
    {
        let vecs_std = vecs.standard_form(p);
        let neg_sk = self.sk.negated();
        if !range_check_centered(&vecs.sk, &neg_sk, &self.sk) {
            return Err(ConstraintError::SecretKey);
        }
        let neg_e = self.e.negated();
        if !range_check_centered(&vecs.e, &neg_e, &self.e) {
            return Err(ConstraintError::ErrorPoly);
        }
        if !range_check_standard(&vecs_std.sk, &self.sk, p) {
            return Err(ConstraintError::SecretKeyStandard);
        }
        if !range_check_standard(&vecs_std.e, &self.e, p) {
            return Err(ConstraintError::ErrorPolyStandard);
        }
        let neg_a = self.a.negated();
        if !range_check_centered(&vecs.a, &neg_a, &self.a) {
            return Err(ConstraintError::PublicPoly);
        }
        if !range_check_standard(&vecs_std.a, &self.a, p) {
            return Err(ConstraintError::PublicPolyStandard);
        }
        let n = self.r2.len();
        let mut i: usize = 0;
        while i < n
            invariant
                n == self.r2@.len(),
                self.r1_low@.len() == n,
                self.r1_up@.len() == n,
                vecs.ct0is@.len() >= n,
                vecs.ct1is@.len() >= n,
                vecs.r1is@.len() >= n,
                vecs.r2is@.len() >= n,
                p@ >= 1,
                i <= n,
                rows_view(vecs_std.r1is@) == rows_mod(rows_view(vecs.r1is@), p@),
                rows_view(vecs_std.r2is@) == rows_mod(rows_view(vecs.r2is@), p@),
                forall|j: int|
                    0 <= j < i ==> all_in_centered(
                        #[trigger] rows_view(vecs.ct0is@)[j],
                        -coeffs_view(self.r2@)[j],
                        coeffs_view(self.r2@)[j],
                    ),
                forall|j: int|
                    0 <= j < i ==> all_in_centered(
                        #[trigger] rows_view(vecs.ct1is@)[j],
                        -coeffs_view(self.r2@)[j],
                        coeffs_view(self.r2@)[j],
                    ),
                forall|j: int|
                    0 <= j < i ==> all_in_centered(
                        #[trigger] rows_view(vecs.r2is@)[j],
                        -coeffs_view(self.r2@)[j],
                        coeffs_view(self.r2@)[j],
                    ),
                forall|j: int|
                    0 <= j < i ==> all_in_standard(
                        poly_mod(#[trigger] rows_view(vecs.r2is@)[j], p@),
                        coeffs_view(self.r2@)[j],
                        p@,
                    ),
                forall|j: int|
                    0 <= j < i ==> all_in_centered(
                        #[trigger] rows_view(vecs.r1is@)[j],
                        coeffs_view(self.r1_low@)[j],
                        coeffs_view(self.r1_up@)[j],
                    ),
                forall|j: int|
                    0 <= j < i ==> all_in_standard2(
                        poly_mod(#[trigger] rows_view(vecs.r1is@)[j], p@),
                        coeffs_view(self.r1_low@)[j],
                        coeffs_view(self.r1_up@)[j],
                        p@,
                    ),
            decreases n - i,
        {
            let r2i = &self.r2[i];
            let neg_r2i = r2i.negated();
            proof {
                assert(rows_view(vecs.ct0is@)[i as int] == coeffs_view(vecs.ct0is@[i as int]@));
                assert(rows_view(vecs.ct1is@)[i as int] == coeffs_view(vecs.ct1is@[i as int]@));
                assert(rows_view(vecs.r2is@)[i as int] == coeffs_view(vecs.r2is@[i as int]@));
                assert(rows_view(vecs.r1is@)[i as int] == coeffs_view(vecs.r1is@[i as int]@));
                assert(vecs_std.r2is@.len() == rows_mod(rows_view(vecs.r2is@), p@).len());
                assert(vecs_std.r1is@.len() == rows_mod(rows_view(vecs.r1is@), p@).len());
                assert(rows_view(vecs_std.r2is@)[i as int] == rows_mod(
                    rows_view(vecs.r2is@),
                    p@,
                )[i as int]);
                assert(rows_view(vecs_std.r1is@)[i as int] == rows_mod(
                    rows_view(vecs.r1is@),
                    p@,
                )[i as int]);
                assert(coeffs_view(vecs_std.r2is@[i as int]@) == poly_mod(
                    rows_view(vecs.r2is@)[i as int],
                    p@,
                ));
                assert(coeffs_view(vecs_std.r1is@[i as int]@) == poly_mod(
                    rows_view(vecs.r1is@)[i as int],
                    p@,
                ));
            }
            if !range_check_centered(&vecs.ct0is[i], &neg_r2i, r2i) {
                return Err(ConstraintError::Ct0(i));
            }
            if !range_check_centered(&vecs.ct1is[i], &neg_r2i, r2i) {
                return Err(ConstraintError::Ct1(i));
            }
            if !range_check_centered(&vecs.r2is[i], &neg_r2i, r2i) {
                return Err(ConstraintError::R2(i));
            }
            if !range_check_standard(&vecs_std.r2is[i], r2i, p) {
                return Err(ConstraintError::R2Standard(i));
            }
            if !range_check_centered(&vecs.r1is[i], &self.r1_low[i], &self.r1_up[i]) {
                return Err(ConstraintError::R1(i));
            }
            if !range_check_standard_2bounds(&vecs_std.r1is[i], &self.r1_low[i], &self.r1_up[i], p)
            {
                return Err(ConstraintError::R1Standard(i));
            }
            i += 1;
        }
        Ok(())
    }
}

/// The part of the consistency law the contracts pin down: the centered
/// ciphertext rows a witness decomposition returns lie inside the
/// per-component bound `(qi - 1)/2` a bound derivation computes from the
/// same parameters, whenever the moduli are odd.
pub proof fn lemma_ciphertext_rows_in_bounds(
    c: BfvConfig,
    b: InputValidationBounds,
    v: InputValidationVectors,
    ct0_rows: Seq<Vec<u64>>,
    ct1_rows: Seq<Vec<u64>>,
)
    requires
        bounds_match(b, c, 0),
        forall|i: int| 0 <= i < c.moduli@.len() ==> #[trigger] c.moduli@[i] % 2 == 1,
        forall|i: int| 0 <= i < c.moduli@.len() ==> #[trigger] c.moduli@[i] >= 2,
        v.ct0is@.len() == c.moduli@.len(),
        v.ct1is@.len() == c.moduli@.len(),
        ct0_rows.len() == c.moduli@.len(),
        ct1_rows.len() == c.moduli@.len(),
        forall|i: int|
            0 <= i < c.moduli@.len() ==> #[trigger] rows_view(v.ct0is@)[i]
                == crate::vectors::centered_rev_row(ct0_rows[i]@, c.moduli@[i] as int),
        forall|i: int|
            0 <= i < c.moduli@.len() ==> #[trigger] rows_view(v.ct1is@)[i]
                == crate::vectors::centered_neg_rev_row(ct1_rows[i]@, c.moduli@[i] as int),
    ensures
        forall|i: int|
            0 <= i < b.r2@.len() ==> all_in_centered(
                #[trigger] rows_view(v.ct0is@)[i],
                -coeffs_view(b.r2@)[i],
                coeffs_view(b.r2@)[i],
            ),
        forall|i: int|
            0 <= i < b.r2@.len() ==> all_in_centered(
                #[trigger] rows_view(v.ct1is@)[i],
                -coeffs_view(b.r2@)[i],
                coeffs_view(b.r2@)[i],
            ),
{
    let mods = used_moduli(c, 0);
    assert(mods =~= c.moduli@);
    assert forall|i: int| 0 <= i < b.r2@.len() implies all_in_centered(
        #[trigger] rows_view(v.ct0is@)[i],
        -coeffs_view(b.r2@)[i],
        coeffs_view(b.r2@)[i],
    ) by {
        assert(coeffs_view(b.r2@).len() == b.r2@.len());
        assert(b.r2@.len() == mods.len());
        let m = c.moduli@[i] as int;
        assert(m % 2 == 1 && m >= 2);
        assert(coeffs_view(b.r2@)[i] == (mods[i] as int - 1) / 2);
        assert(coeffs_view(b.r2@)[i] == (m - 1) / 2);
        let row0 = rows_view(v.ct0is@)[i];
        assert forall|j: int| 0 <= j < row0.len() implies -((m - 1) / 2) <= #[trigger] row0[j] <= (
        m - 1) / 2 by {
            crate::poly::lemma_center_range(ct0_rows[i]@[ct0_rows[i]@.len() - 1 - j] as int, m);
        }
    }
    assert forall|i: int| 0 <= i < b.r2@.len() implies all_in_centered(
        #[trigger] rows_view(v.ct1is@)[i],
        -coeffs_view(b.r2@)[i],
        coeffs_view(b.r2@)[i],
    ) by {
        assert(coeffs_view(b.r2@).len() == b.r2@.len());
        assert(b.r2@.len() == mods.len());
        let m = c.moduli@[i] as int;
        assert(m % 2 == 1 && m >= 2);
        assert(coeffs_view(b.r2@)[i] == (mods[i] as int - 1) / 2);
        assert(coeffs_view(b.r2@)[i] == (m - 1) / 2);
        let row1 = rows_view(v.ct1is@)[i];
        assert forall|j: int| 0 <= j < row1.len() implies -((m - 1) / 2) <= #[trigger] row1[j] <= (
        m - 1) / 2 by {
            crate::poly::lemma_center_range(
                (m - ct1_rows[i]@[ct1_rows[i]@.len() - 1 - j] as int % m) % m,
                m,
            );
        }
    }
}

/// Determinism law: two bound records that both match one parameter set and
/// level agree on every bound, on the payload size, and on the tag.
pub proof fn lemma_bounds_deterministic(
    c: BfvConfig,
    level: int,
    b1: InputValidationBounds,
    b2: InputValidationBounds,
)
    requires
        bounds_match(b1, c, level),
        bounds_match(b2, c, level),
    ensures
        b1.sk@ == b2.sk@,
        b1.e@ == b2.e@,
        b1.a@ == b2.a@,
        coeffs_view(b1.r1_low@) == coeffs_view(b2.r1_low@),
        coeffs_view(b1.r1_up@) == coeffs_view(b2.r1_up@),
        coeffs_view(b1.r2@) == coeffs_view(b2.r2@),
        b1.moduli@ == b2.moduli@,
        b1.q_mod_t@ == b2.q_mod_t@,
        b1.size == b2.size,
        b1.tag@ == b2.tag@,
{
}

} // verus!
