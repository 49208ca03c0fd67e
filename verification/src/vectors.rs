//! Witness decomposition: from the raw encryption polynomials, per RNS
//! component, the two bounded quotient polynomials that certify the
//! ciphertext equation, together with the centered inputs they were derived
//! from.

use vstd::prelude::*;
use crate::big::{big_eq, tdiv, tmod, Big};
use crate::config::BfvConfig;
use crate::poly::{
    all_zero, coeffs_view, div_result, dup_coeffs, is_divmod, lemma_conv_partial_singleton,
    lemma_divmod_unique_monic, padded, place_rem, poly_add, poly_center, poly_mod, poly_mul,
    poly_scalar, poly_sub, poly_trim_full, reduce_coefficients, reduce_coefficients_2d,
    reduce_in_ring, spec_center, spec_degree, Polynomial,
};

verus! {

/// The views of a sequence of coefficient rows.
pub open spec fn rows_view(v: Seq<Vec<Big>>) -> Seq<Seq<int>> {
    Seq::new(v.len(), |i: int| coeffs_view(v[i]@))
}

/// A residue row centered modulo `m` and reversed into highest-degree-first
/// order.
pub open spec fn centered_rev_row(row: Seq<u64>, m: int) -> Seq<int> {
    Seq::new(row.len(), |j: int| spec_center(row[row.len() - 1 - j] as int, m))
}

/// A residue row negated modulo `m`, centered and reversed.
pub open spec fn centered_neg_rev_row(row: Seq<u64>, m: int) -> Seq<int> {
    Seq::new(row.len(), |j: int| spec_center((m - row[row.len() - 1 - j] as int % m) % m, m))
}

/// The cyclotomic reduction polynomial `x^n + 1` as a coefficient row.
pub open spec fn cyclo_spec(n: int) -> Seq<int> {
    Seq::new((n + 1) as nat, |j: int| if j == 0 || j == n {
        1int
    } else {
        0int
    })
}

/// The reconstructed ciphertext polynomial before reduction:
/// `publicKey0 * secretKey + error`.
pub open spec fn hat_spec(a_c: Seq<int>, sk_c: Seq<int>, e_c: Seq<int>) -> Seq<int> {
    poly_add(poly_mul(a_c, sk_c), e_c)
}

/// The shape the vectors of one instance must have: one row per component,
/// rows of the degree (ciphertexts), of `2(degree-1)+1` (low witness) and of
/// `degree-1` (high witness), and three global rows of the degree.
pub open spec fn lengths_ok(
    ct0is: Seq<Seq<int>>,
    ct1is: Seq<Seq<int>>,
    r1is: Seq<Seq<int>>,
    r2is: Seq<Seq<int>>,
    a: Seq<int>,
    sk: Seq<int>,
    e: Seq<int>,
    num_moduli: int,
    degree: int,
) -> bool {
    &&& ct0is.len() == num_moduli
    &&& (forall|i: int| 0 <= i < num_moduli ==> #[trigger] ct0is[i].len() == degree)
    &&& ct1is.len() == num_moduli
    &&& (forall|i: int| 0 <= i < num_moduli ==> #[trigger] ct1is[i].len() == degree)
    &&& r1is.len() == num_moduli
    &&& (forall|i: int| 0 <= i < num_moduli ==> #[trigger] r1is[i].len() == 2 * (degree - 1) + 1)
    &&& r2is.len() == num_moduli
    &&& (forall|i: int| 0 <= i < num_moduli ==> #[trigger] r2is[i].len() == degree - 1)
    &&& a.len() == degree
    &&& sk.len() == degree
    &&& e.len() == degree
}

/// When witness decomposition accepts the shape of its inputs.
pub open spec fn shape_ok(
    sk_row: Seq<u64>,
    e_row: Seq<u64>,
    a_row: Seq<u64>,
    ct0_rows: Seq<Vec<u64>>,
    ct1_rows: Seq<Vec<u64>>,
    c: BfvConfig,
) -> bool {
    &&& c.degree >= 2
    &&& c.degree <= usize::MAX / 4
    &&& c.moduli@.len() >= 1
    &&& (forall|i: int| 0 <= i < c.moduli@.len() ==> #[trigger] c.moduli@[i] >= 2)
    &&& sk_row.len() == c.degree
    &&& e_row.len() == c.degree
    &&& a_row.len() == c.degree
    &&& ct0_rows.len() == c.moduli@.len()
    &&& (forall|i: int| 0 <= i < ct0_rows.len() ==> #[trigger] ct0_rows[i]@.len() == c.degree)
    &&& ct1_rows.len() == c.moduli@.len()
    &&& (forall|i: int| 0 <= i < ct1_rows.len() ==> #[trigger] ct1_rows[i]@.len() == c.degree)
}

/// The low witness determined by a ciphertext row, the reconstruction and
/// the high witness: the numerator `ct0 - hat - r2 * cyclo` divided through
/// by the modulus, coefficient by coefficient.
pub open spec fn low_witness_of(ct0: Seq<int>, hat: Seq<int>, r2: Seq<int>, qi: int, d: int)
    -> Seq<int> {
    let r1_num = poly_sub(poly_sub(ct0, hat), poly_mul(r2, cyclo_spec(d)));
    Seq::new(r1_num.len(), |p: int| tdiv(r1_num[p], qi))
}

/// A quotient-and-remainder pair of the division relation; against a
/// monic-led divisor it is the unique such pair.
pub open spec fn monic_divmod(a: Seq<int>, d: Seq<int>) -> (Seq<int>, Seq<int>) {
    choose|qr: (Seq<int>, Seq<int>)| is_divmod(a, d, qr.0, qr.1)
}

/// Every step of the decomposition succeeds for one component exactly when
/// these conditions hold of the rows: the centered ciphertext row is the
/// ring reduction of the reconstruction, the centered difference is an exact
/// multiple of the cyclotomic polynomial, the rest is an exact multiple of
/// the modulus, the reassembled identity reproduces the ciphertext row after
/// trimming, and the second ciphertext row carries the negated public
/// polynomial.
pub open spec fn component_ok(
    sk_row: Seq<u64>,
    e_row: Seq<u64>,
    a_row: Seq<u64>,
    ct0_row: Seq<u64>,
    ct1_row: Seq<u64>,
    q0: int,
    qi: int,
    d: int,
) -> bool {
    let av = centered_rev_row(a_row, q0);
    let skv = centered_rev_row(sk_row, q0);
    let ev = centered_rev_row(e_row, q0);
    let hat = hat_spec(av, skv, ev);
    let cy = cyclo_spec(d);
    let ct0 = centered_rev_row(ct0_row, qi);
    let delta = poly_sub(ct0, hat);
    let delta_c = poly_center(delta, qi);
    let r2 = monic_divmod(delta_c, cy).0;
    let r2tc = poly_mul(r2, cy);
    let r1_num = poly_sub(delta, r2tc);
    let r1 = Seq::new(r1_num.len(), |p: int| tdiv(r1_num[p], qi));
    &&& ct0 == poly_center(place_rem(monic_divmod(hat, cy).1, d), qi)
    &&& monic_divmod(delta_c, cy).1.len() == 0
    &&& poly_center(r2tc, qi) == delta_c
    &&& (forall|p: int| 0 <= p < r1_num.len() ==> tmod(#[trigger] r1_num[p], qi) == 0)
    &&& poly_trim_full(poly_add(poly_add(hat, poly_scalar(r1, qi)), r2tc)) == ct0
    &&& centered_neg_rev_row(ct1_row, qi) == av
}

/// Errors of witness decomposition: a shape the parameters reject, or an
/// invariant of the decomposition that did not hold of the inputs.
#[derive(Debug, Clone, PartialEq)]
pub enum VectorsError {
    /// The rows do not match the parameter set.
    ShapeMismatch,
    /// The reconstructed product collapsed: the public polynomial or the
    /// secret key is zero.
    DegenerateProduct,
    /// The centered ciphertext row is not the ring reduction of the
    /// reconstruction for this component.
    RingCheckFailed(usize),
    /// The centered difference is not divisible by the cyclotomic
    /// polynomial for this component.
    CycloRemainder(usize),
    /// The high witness times the cyclotomic polynomial does not reproduce
    /// the centered difference for this component.
    R2CycloMismatch(usize),
    /// The low-witness numerator is not divisible by the modulus for this
    /// component.
    ScalarRemainder(usize),
    /// The reassembled identity does not reproduce the ciphertext row for
    /// this component.
    IdentityMismatch(usize),
    /// The second ciphertext row differs from the public polynomial for
    /// this component.
    Ct1Mismatch(usize),
}

/// A full set of witness and input vectors for one encryption instance.
#[derive(Clone, Debug)]
pub struct InputValidationVectors {
    /// The centered first ciphertext rows, one per component.
    pub ct0is: Vec<Vec<Big>>,
    /// The centered negated second ciphertext rows, one per component.
    pub ct1is: Vec<Vec<Big>>,
    /// The low witness polynomials, one per component.
    pub r1is: Vec<Vec<Big>>,
    /// The high witness polynomials, one per component.
    pub r2is: Vec<Vec<Big>>,
    /// The centered public polynomial.
    pub a: Vec<Big>,
    /// The centered secret key.
    pub sk: Vec<Big>,
    /// The centered error polynomial.
    pub e: Vec<Big>,
}

/// A centered residue, computed in machine words.
fn center_u64(x: u64, q: u64) -> (r: i128)
    requires
        q >= 1,
    ensures
        r as int == spec_center(x as int, q as int),
        -(q as int) <= r as int <= q as int,
{
    let rr = x % q;
    let h = q / 2;
    if q % 2 == 1 {
        if rr > h {
            (rr as i128) - (q as i128)
        } else {
            rr as i128
        }
    } else {
        if rr >= h {
            (rr as i128) - (q as i128)
        } else {
            rr as i128
        }
    }
}

/// A residue row centered modulo `q`, reversed into highest-degree-first
/// order.
fn centered_rev(row: &Vec<u64>, q: u64) -> (r: Vec<Big>)
    requires
        q >= 1,
    ensures
        coeffs_view(r@) == centered_rev_row(row@, q as int),
        r@.len() == row@.len(),
{
    let n = row.len();
    let mut out: Vec<Big> = Vec::new();
    let mut j: usize = 0;
    while j < n
        invariant
            n == row@.len(),
            q >= 1,
            j <= n,
            out@.len() == j,
            forall|k: int|
                0 <= k < j ==> #[trigger] out@[k]@ == spec_center(row@[n - 1 - k] as int, q as int),
        decreases n - j,
    {
        let c = center_u64(row[n - 1 - j], q);
        out.push(Big::from_i128(c));
        j += 1;
    }
    proof {
        assert(coeffs_view(out@) =~= centered_rev_row(row@, q as int));
    }
    out
}

/// A residue row negated modulo `q`, centered and reversed.
fn centered_neg_rev(row: &Vec<u64>, q: u64) -> (r: Vec<Big>)
    requires
        q >= 1,
    ensures
        coeffs_view(r@) == centered_neg_rev_row(row@, q as int),
        r@.len() == row@.len(),
{
    let n = row.len();
    let mut out: Vec<Big> = Vec::new();
    let mut j: usize = 0;
    while j < n
        invariant
            n == row@.len(),
            q >= 1,
            j <= n,
            out@.len() == j,
            forall|k: int|
                0 <= k < j ==> #[trigger] out@[k]@ == spec_center(
                    (q as int - row@[n - 1 - k] as int % (q as int)) % (q as int),
                    q as int,
                ),
        decreases n - j,
    {
        let x = row[n - 1 - j];
        let neg = (q - x % q) % q;
        let c = center_u64(neg, q);
        out.push(Big::from_i128(c));
        j += 1;
    }
    proof {
        assert(coeffs_view(out@) =~= centered_neg_rev_row(row@, q as int));
    }
    out
}

/// True when the two coefficient vectors denote the same integers.
fn vecs_equal(a: &Vec<Big>, b: &Vec<Big>) -> (r: bool)
    ensures
        r == (coeffs_view(a@) == coeffs_view(b@)),
{
    if a.len() != b.len() {
        proof {
            assert(coeffs_view(a@).len() != coeffs_view(b@).len());
        }
        return false;
    }
    let mut i: usize = 0;
    while i < a.len()
        invariant
            a@.len() == b@.len(),
            i <= a@.len(),
            forall|j: int| 0 <= j < i ==> #[trigger] coeffs_view(a@)[j] == coeffs_view(b@)[j],
        decreases a@.len() - i,
    {
        if !big_eq(&a[i], &b[i]) {
            proof {
                assert(coeffs_view(a@)[i as int] != coeffs_view(b@)[i as int]);
            }
            return false;
        }
        i += 1;
    }
    proof {
        assert(coeffs_view(a@) =~= coeffs_view(b@));
    }
    true
}

/// Removes every leading zero coefficient, possibly down to the empty row.
fn trim_full_vec(v: Vec<Big>) -> (r: Vec<Big>)
    ensures
        coeffs_view(r@) == poly_trim_full(coeffs_view(v@)),
{
    let ghost orig = coeffs_view(v@);
    let mut s = v;
    let z = Big::zero();
    while s.len() > 0 && big_eq(&s[0], &z)
        invariant
            z@ == 0,
            poly_trim_full(coeffs_view(s@)) == poly_trim_full(orig),
        decreases s@.len(),
    {
        let ghost before = coeffs_view(s@);
        s.remove(0);
        proof {
            assert(coeffs_view(s@) =~= before.skip(1));
        }
    }
    s
}

impl InputValidationVectors {
    /// An empty structure of the right shape, filled with zeros.
    pub fn new(num_moduli: usize, degree: usize) -> (r: InputValidationVectors)
        requires
            1 <= degree,
            degree <= usize::MAX / 4,
        ensures
            lengths_ok(
                rows_view(r.ct0is@),
                rows_view(r.ct1is@),
                rows_view(r.r1is@),
                rows_view(r.r2is@),
                coeffs_view(r.a@),
                coeffs_view(r.sk@),
                coeffs_view(r.e@),
                num_moduli as int,
                degree as int,
            ),
            forall|i: int|
                0 <= i < num_moduli ==> all_zero(#[trigger] rows_view(r.ct0is@)[i]) && all_zero(
                    rows_view(r.ct1is@)[i],
                ) && all_zero(rows_view(r.r1is@)[i]) && all_zero(rows_view(r.r2is@)[i]),
            all_zero(coeffs_view(r.a@)),
            all_zero(coeffs_view(r.sk@)),
            all_zero(coeffs_view(r.e@)),
    {
        let ct0is = zero_rows(num_moduli, degree);
        let ct1is = zero_rows(num_moduli, degree);
        let r1is = zero_rows(num_moduli, 2 * (degree - 1) + 1);
        let r2is = zero_rows(num_moduli, degree - 1);
        let a = zero_row(degree);
        let sk = zero_row(degree);
        let e = zero_row(degree);
        InputValidationVectors { ct0is, ct1is, r1is, r2is, a, sk, e }
    }

    /// A copy with every coefficient reduced into `[0, p)`.
    pub fn standard_form(&self, p: &Big) -> (r: InputValidationVectors)
        requires
            p@ >= 1,
        ensures
            rows_view(r.ct0is@) == rows_mod(rows_view(self.ct0is@), p@),
            rows_view(r.ct1is@) == rows_mod(rows_view(self.ct1is@), p@),
            rows_view(r.r1is@) == rows_mod(rows_view(self.r1is@), p@),
            rows_view(r.r2is@) == rows_mod(rows_view(self.r2is@), p@),
            coeffs_view(r.a@) == poly_mod(coeffs_view(self.a@), p@),
            coeffs_view(r.sk@) == poly_mod(coeffs_view(self.sk@), p@),
            coeffs_view(r.e@) == poly_mod(coeffs_view(self.e@), p@),
    {
        let r = InputValidationVectors {
            ct0is: reduce_coefficients_2d(&self.ct0is, p),
            ct1is: reduce_coefficients_2d(&self.ct1is, p),
            r1is: reduce_coefficients_2d(&self.r1is, p),
            r2is: reduce_coefficients_2d(&self.r2is, p),
            a: reduce_coefficients(&self.a, p),
            sk: reduce_coefficients(&self.sk, p),
            e: reduce_coefficients(&self.e, p),
        };
        proof {
            assert(rows_view(r.ct0is@) =~= rows_mod(rows_view(self.ct0is@), p@));
            assert(rows_view(r.ct1is@) =~= rows_mod(rows_view(self.ct1is@), p@));
            assert(rows_view(r.r1is@) =~= rows_mod(rows_view(self.r1is@), p@));
            assert(rows_view(r.r2is@) =~= rows_mod(rows_view(self.r2is@), p@));
        }
        r
    }

    /// True when every vector has the size the parameters prescribe.
    pub fn check_correct_lengths(&self, num_moduli: usize, degree: usize) -> (r: bool)
        requires
            1 <= degree,
            degree <= usize::MAX / 4,
        ensures
            r == lengths_ok(
                rows_view(self.ct0is@),
                rows_view(self.ct1is@),
                rows_view(self.r1is@),
                rows_view(self.r2is@),
                coeffs_view(self.a@),
                coeffs_view(self.sk@),
                coeffs_view(self.e@),
                num_moduli as int,
                degree as int,
            ),
    {
        let ok_2d = check_rows(&self.ct0is, num_moduli, degree) && check_rows(
            &self.ct1is,
            num_moduli,
            degree,
        ) && check_rows(&self.r1is, num_moduli, 2 * (degree - 1) + 1) && check_rows(
            &self.r2is,
            num_moduli,
            degree - 1,
        );
        let ok_1d = self.a.len() == degree && self.sk.len() == degree && self.e.len() == degree;
        ok_2d && ok_1d
    }
}

impl InputValidationVectors {
    /// Computes the witness decomposition of one encryption instance.
    ///
    /// The rows carry the residues of the raw polynomials in power-basis
    /// order, one row per RNS component for the two ciphertext polynomials
    /// and the first component's row for the secret key, the error and the
    /// public polynomial.  Per component the rows are centered, the
    /// reconstruction `a * sk + e` is formed and checked against the ring
    /// reduction, and the centered difference is solved for the high witness
    /// (the cyclotomic quotient) and the low witness (the modulus quotient).
    ///
    /// It returns a result exactly when the rows fit the parameters, the
    /// reconstructed product does not collapse, and every component
    /// decomposes; the identity
    /// `ct0i == trim(a * sk + e + r1i * qi + r2i * cyclo)` then holds
    /// exactly, coefficient-wise over the integers, for every component,
    /// with both witnesses determined by the contract.
    pub fn compute(
        sk_row: &Vec<u64>,
        e_row: &Vec<u64>,
        a_row: &Vec<u64>,
        ct0_rows: &Vec<Vec<u64>>,
        ct1_rows: &Vec<Vec<u64>>,
        params: &BfvConfig,
    ) -> (r: Result<InputValidationVectors, VectorsError>)
        ensures
            match r {
                Ok(v) => {
                    let d = params.degree as int;
                    let l = params.moduli@.len() as int;
                    let q0 = params.moduli@[0] as int;
                    &&& shape_ok(sk_row@, e_row@, a_row@, ct0_rows@, ct1_rows@, *params)
                    &&& lengths_ok(
                        rows_view(v.ct0is@),
                        rows_view(v.ct1is@),
                        rows_view(v.r1is@),
                        rows_view(v.r2is@),
                        coeffs_view(v.a@),
                        coeffs_view(v.sk@),
                        coeffs_view(v.e@),
                        l,
                        d,
                    )
                    &&& coeffs_view(v.sk@) == centered_rev_row(sk_row@, q0)
                    &&& coeffs_view(v.e@) == centered_rev_row(e_row@, q0)
                    &&& coeffs_view(v.a@) == centered_rev_row(a_row@, q0)
                    &&& (forall|i: int|
                        0 <= i < l ==> #[trigger] rows_view(v.ct0is@)[i] == centered_rev_row(
                            ct0_rows@[i]@,
                            params.moduli@[i] as int,
                        ))
                    &&& (forall|i: int|
                        0 <= i < l ==> #[trigger] rows_view(v.ct1is@)[i] == centered_neg_rev_row(
                            ct1_rows@[i]@,
                            params.moduli@[i] as int,
                        ))
                    &&& (forall|i: int|
                        0 <= i < l ==> #[trigger] rows_view(v.ct1is@)[i] == coeffs_view(v.a@))
                    &&& (forall|i: int|
                        0 <= i < l ==> #[trigger] rows_view(v.ct0is@)[i] == poly_trim_full(
                            poly_add(
                                poly_add(
                                    hat_spec(
                                        coeffs_view(v.a@),
                                        coeffs_view(v.sk@),
                                        coeffs_view(v.e@),
                                    ),
                                    poly_scalar(rows_view(v.r1is@)[i], params.moduli@[i] as int),
                                ),
                                poly_mul(rows_view(v.r2is@)[i], cyclo_spec(d)),
                            ),
                        ))
                    &&& (forall|i: int|
                        0 <= i < l ==> is_divmod(
                            poly_center(
                                poly_sub(
                                    #[trigger] rows_view(v.ct0is@)[i],
                                    hat_spec(
                                        coeffs_view(v.a@),
                                        coeffs_view(v.sk@),
                                        coeffs_view(v.e@),
                                    ),
                                ),
                                params.moduli@[i] as int,
                            ),
                            cyclo_spec(d),
                            rows_view(v.r2is@)[i],
                            Seq::<int>::empty(),
                        ))
                    &&& (forall|i: int|
                        0 <= i < l ==> #[trigger] rows_view(v.r1is@)[i] == low_witness_of(
                            rows_view(v.ct0is@)[i],
                            hat_spec(coeffs_view(v.a@), coeffs_view(v.sk@), coeffs_view(v.e@)),
                            rows_view(v.r2is@)[i],
                            params.moduli@[i] as int,
                            d,
                        ))
                },
                Err(e) => {
                    &&& (e is ShapeMismatch <==> !shape_ok(
                        sk_row@,
                        e_row@,
                        a_row@,
                        ct0_rows@,
                        ct1_rows@,
                        *params,
                    ))
                    &&& (e is DegenerateProduct <==> shape_ok(
                        sk_row@,
                        e_row@,
                        a_row@,
                        ct0_rows@,
                        ct1_rows@,
                        *params,
                    ) && (all_zero(centered_rev_row(a_row@, params.moduli@[0] as int)) || all_zero(
                        centered_rev_row(sk_row@, params.moduli@[0] as int),
                    )))
                },
            },
            (r is Ok) <==> (shape_ok(sk_row@, e_row@, a_row@, ct0_rows@, ct1_rows@, *params) && !(
            all_zero(centered_rev_row(a_row@, params.moduli@[0] as int)) || all_zero(
                centered_rev_row(sk_row@, params.moduli@[0] as int),
            )) && (forall|i: int|
                0 <= i < params.moduli@.len() ==> #[trigger] component_ok(
                    sk_row@,
                    e_row@,
                    a_row@,
                    ct0_rows@[i]@,
                    ct1_rows@[i]@,
                    params.moduli@[0] as int,
                    params.moduli@[i] as int,
                    params.degree as int,
                ))),
    {
        let d = params.degree;
        let l = params.moduli.len();
        if d < 2 || d > usize::MAX / 4 || l < 1 {
            return Err(VectorsError::ShapeMismatch);
        }
        if sk_row.len() != d || e_row.len() != d || a_row.len() != d {
            return Err(VectorsError::ShapeMismatch);
        }
        if ct0_rows.len() != l || ct1_rows.len() != l {
            return Err(VectorsError::ShapeMismatch);
        }
        let mut i: usize = 0;
        while i < l
            invariant
                l == params.moduli@.len(),
                i <= l,
                forall|j: int| 0 <= j < i ==> #[trigger] params.moduli@[j] >= 2,
            decreases l - i,
        {
            if params.moduli[i] < 2 {
                proof {
                    assert(!(params.moduli@[i as int] >= 2));
                }
                return Err(VectorsError::ShapeMismatch);
            }
            i += 1;
        }
        let mut i: usize = 0;
        while i < l
            invariant
                l == ct0_rows@.len(),
                l == ct1_rows@.len(),
                d == params.degree,
                i <= l,
                forall|j: int| 0 <= j < i ==> #[trigger] ct0_rows@[j]@.len() == d,
                forall|j: int| 0 <= j < i ==> #[trigger] ct1_rows@[j]@.len() == d,
            decreases l - i,
        {
            if ct0_rows[i].len() != d || ct1_rows[i].len() != d {
                proof {
                    assert(ct0_rows@[i as int]@.len() != d || ct1_rows@[i as int]@.len() != d);
                }
                return Err(VectorsError::ShapeMismatch);
            }
            i += 1;
        }
        let ghost shape = shape_ok(sk_row@, e_row@, a_row@, ct0_rows@, ct1_rows@, *params);
        proof {
            assert(shape);
        }
        // center the shared rows with respect to the first modulus
        let q0 = params.moduli[0];
        let sk_c = centered_rev(sk_row, q0);
        let e_c = centered_rev(e_row, q0);
        let a_c = centered_rev(a_row, q0);
        // the reduction polynomial x^d + 1
        let mut cyclo: Vec<Big> = Vec::new();
        cyclo.push(Big::from_u64(1));
        let mut k: usize = 0;
        while k < d - 1
            invariant
                k <= d - 1,
                cyclo@.len() == k + 1,
                coeffs_view(cyclo@)[0] == 1,
                forall|j: int| 1 <= j < k + 1 ==> #[trigger] coeffs_view(cyclo@)[j] == 0,
            decreases d - 1 - k,
        {
            let ghost before = coeffs_view(cyclo@);
            cyclo.push(Big::zero());
            proof {
                assert(coeffs_view(cyclo@) =~= before.push(0int));
            }
            k += 1;
        }
        let ghost before_last = coeffs_view(cyclo@);
        cyclo.push(Big::from_u64(1));
        proof {
            assert(coeffs_view(cyclo@) =~= before_last.push(1int));
            assert(coeffs_view(cyclo@) =~= cyclo_spec(d as int));
        }
        // the reconstruction a * sk + e, shared across components
        let a_poly = Polynomial::new(dup_coeffs(&a_c));
        let sk_poly = Polynomial::new(dup_coeffs(&sk_c));
        let prod = a_poly.mul(&sk_poly);
        if prod.coefficients().len() != 2 * d - 1 {
            proof {
                if !(all_zero(coeffs_view(a_c@)) || all_zero(coeffs_view(sk_c@))) {
                    assert(prod@.len() == 2 * d - 1);
                }
            }
            return Err(VectorsError::DegenerateProduct);
        }
        let ghost nondegenerate = !(all_zero(coeffs_view(a_c@)) || all_zero(coeffs_view(sk_c@)));
        proof {
            if !nondegenerate {
                assert(prod@ == seq![0int]);
                assert(prod@.len() == 1);
            }
        }
        let e_poly = Polynomial::new(dup_coeffs(&e_c));
        let hat = prod.add(&e_poly);
        let ghost hat_sv = hat_spec(coeffs_view(a_c@), coeffs_view(sk_c@), coeffs_view(e_c@));
        proof {
            assert(hat@ == hat_sv);
            assert(hat@.len() == 2 * d - 1);
        }
        let cyclo_poly = Polynomial::new(dup_coeffs(&cyclo));
        let mut ct0is: Vec<Vec<Big>> = Vec::new();
        let mut ct1is: Vec<Vec<Big>> = Vec::new();
        let mut r1is: Vec<Vec<Big>> = Vec::new();
        let mut r2is: Vec<Vec<Big>> = Vec::new();
        let mut i: usize = 0;
        while i < l
            invariant
                shape,
                shape == shape_ok(sk_row@, e_row@, a_row@, ct0_rows@, ct1_rows@, *params),
                nondegenerate,
                nondegenerate == !(all_zero(coeffs_view(a_c@)) || all_zero(coeffs_view(sk_c@))),
                l == params.moduli@.len(),
                2 <= d,
                d <= usize::MAX / 4,
                d == params.degree,
                i <= l,
                coeffs_view(sk_c@) == centered_rev_row(sk_row@, params.moduli@[0] as int),
                coeffs_view(e_c@) == centered_rev_row(e_row@, params.moduli@[0] as int),
                coeffs_view(a_c@) == centered_rev_row(a_row@, params.moduli@[0] as int),
                sk_c@.len() == d,
                e_c@.len() == d,
                a_c@.len() == d,
                coeffs_view(cyclo@) == cyclo_spec(d as int),
                cyclo@.len() == d + 1,
                cyclo_poly@ == cyclo_spec(d as int),
                hat@ == hat_sv,
                hat_sv == hat_spec(coeffs_view(a_c@), coeffs_view(sk_c@), coeffs_view(e_c@)),
                hat@.len() == 2 * d - 1,
                ct0is@.len() == i,
                ct1is@.len() == i,
                r1is@.len() == i,
                r2is@.len() == i,
                forall|j: int|
                    0 <= j < i ==> #[trigger] coeffs_view(ct0is@[j]@) == centered_rev_row(
                        ct0_rows@[j]@,
                        params.moduli@[j] as int,
                    ),
                forall|j: int|
                    0 <= j < i ==> #[trigger] coeffs_view(ct1is@[j]@) == centered_neg_rev_row(
                        ct1_rows@[j]@,
                        params.moduli@[j] as int,
                    ),
                forall|j: int|
                    0 <= j < i ==> #[trigger] coeffs_view(ct1is@[j]@) == coeffs_view(a_c@),
                forall|j: int| 0 <= j < i ==> #[trigger] ct0is@[j]@.len() == d,
                forall|j: int| 0 <= j < i ==> #[trigger] ct1is@[j]@.len() == d,
                forall|j: int| 0 <= j < i ==> #[trigger] r1is@[j]@.len() == 2 * (d - 1) + 1,
                forall|j: int| 0 <= j < i ==> #[trigger] r2is@[j]@.len() == d - 1,
                forall|j: int|
                    0 <= j < i ==> #[trigger] coeffs_view(ct0is@[j]@) == poly_trim_full(
                        poly_add(
                            poly_add(
                                hat_sv,
                                poly_scalar(coeffs_view(r1is@[j]@), params.moduli@[j] as int),
                            ),
                            poly_mul(coeffs_view(r2is@[j]@), cyclo_spec(d as int)),
                        ),
                    ),
                forall|j: int|
                    0 <= j < i ==> #[trigger] component_ok(
                        sk_row@,
                        e_row@,
                        a_row@,
                        ct0_rows@[j]@,
                        ct1_rows@[j]@,
                        params.moduli@[0] as int,
                        params.moduli@[j] as int,
                        d as int,
                    ),
                forall|j: int|
                    0 <= j < i ==> is_divmod(
                        poly_center(
                            poly_sub(coeffs_view(ct0is@[j]@), hat_sv),
                            params.moduli@[j] as int,
                        ),
                        cyclo_spec(d as int),
                        #[trigger] coeffs_view(r2is@[j]@),
                        Seq::<int>::empty(),
                    ),
                forall|j: int|
                    0 <= j < i ==> #[trigger] coeffs_view(r1is@[j]@) == low_witness_of(
                        coeffs_view(ct0is@[j]@),
                        hat_sv,
                        coeffs_view(r2is@[j]@),
                        params.moduli@[j] as int,
                        d as int,
                    ),
            decreases l - i,
        {
            let qi = params.moduli[i];
            proof {
                assert(qi >= 2);
            }
            let ghost q0i = params.moduli@[0] as int;
            let ghost qii = qi as int;
            let ghost av = coeffs_view(a_c@);
            let ghost skv = coeffs_view(sk_c@);
            let ghost ev = coeffs_view(e_c@);
            let ghost cy = cyclo_spec(d as int);
            let ghost hatv = hat@;
            let qi_big = Big::from_u64(qi);
            let ct0i = centered_rev(&ct0_rows[i], qi);
            let ct1i = centered_neg_rev(&ct1_rows[i], qi);
            let ghost ct0v = coeffs_view(ct0i@);
            // the centered ciphertext row must be the ring reduction of the
            // reconstruction
            let mut hat_mod = dup_coeffs(hat.coefficients());
            let ghost hm_before = coeffs_view(hat_mod@);
            proof {
                assert(coeffs_view(cyclo@)[0] == 1);
                assert(hm_before == hatv);
            }
            reduce_in_ring(&mut hat_mod, &cyclo, &qi_big);
            proof {
                let (qs, rs): (Seq<int>, Seq<int>) = choose|qx: Seq<int>, rx: Seq<int>|
                    div_result(hm_before, coeffs_view(cyclo@), qx, rx) && coeffs_view(hat_mod@)
                        == poly_center(place_rem(rx, cyclo@.len() - 1), qi_big@);
                assert(spec_degree(hatv) == 2 * d - 2);
                assert(spec_degree(cy) == d);
                assert(is_divmod(hatv, cy, qs, rs));
                assert(exists|qr: (Seq<int>, Seq<int>)| is_divmod(hatv, cy, qr.0, qr.1)) by {
                    assert(is_divmod(hatv, cy, ((qs, rs)).0, ((qs, rs)).1));
                }
                let mono = monic_divmod(hatv, cy);
                assert(is_divmod(hatv, cy, mono.0, mono.1));
                lemma_divmod_unique_monic(hatv, cy, qs, rs, mono.0, mono.1);
                assert(coeffs_view(hat_mod@) == poly_center(place_rem(mono.1, d as int), qii));
            }
            if !vecs_equal(&ct0i, &hat_mod) {
                proof {
                    assert(!component_ok(
                        sk_row@,
                        e_row@,
                        a_row@,
                        ct0_rows@[i as int]@,
                        ct1_rows@[i as int]@,
                        q0i,
                        qii,
                        d as int,
                    ));
                }
                return Err(VectorsError::RingCheckFailed(i));
            }
            // the raw difference and its centered form
            let ct0i_poly = Polynomial::new(dup_coeffs(&ct0i));
            let delta = ct0i_poly.sub(&hat);
            let delta_c = delta.reduce_and_center(&qi_big);
            proof {
                assert(delta@.len() == 2 * d - 1);
                assert(delta_c@.len() == 2 * d - 1);
                assert(delta@ == poly_sub(ct0v, hatv));
                assert(delta_c@ == poly_center(poly_sub(ct0v, hatv), qii));
            }
            // the high witness: the quotient by the cyclotomic polynomial
            let (r2_poly, r2_rem) = match delta_c.div(&cyclo_poly) {
                Ok(qr) => qr,
                Err(_) => {
                    proof {
                        assert(cyclo_poly@[0] == 1);
                        assert(false);
                    }
                    vstd::pervasive::unreached()
                },
            };
            proof {
                assert(spec_degree(delta_c@) == 2 * d - 2);
                assert(spec_degree(cyclo_poly@) == d);
                assert(is_divmod(delta_c@, cyclo_poly@, r2_poly@, r2_rem@));
                assert(r2_poly@.len() == d - 1);
                assert(exists|qr: (Seq<int>, Seq<int>)| is_divmod(delta_c@, cy, qr.0, qr.1)) by {
                    assert(is_divmod(delta_c@, cy, ((r2_poly@, r2_rem@)).0, ((r2_poly@, r2_rem@)).1));
                }
                let mono2 = monic_divmod(delta_c@, cy);
                assert(is_divmod(delta_c@, cy, mono2.0, mono2.1));
                lemma_divmod_unique_monic(delta_c@, cy, r2_poly@, r2_rem@, mono2.0, mono2.1);
            }
            if !r2_rem.is_zero() {
                proof {
                    assert(r2_rem@.len() > 0);
                    assert(!component_ok(
                        sk_row@,
                        e_row@,
                        a_row@,
                        ct0_rows@[i as int]@,
                        ct1_rows@[i as int]@,
                        q0i,
                        qii,
                        d as int,
                    ));
                }
                return Err(VectorsError::CycloRemainder(i));
            }
            proof {
                assert(r2_rem@.len() == 0);
            }
            // the high witness times the reduction polynomial must give the
            // centered difference back
            let r2tc = r2_poly.mul(&cyclo_poly);
            let r2tc_c = r2tc.reduce_and_center(&qi_big);
            proof {
                assert(r2tc@ == poly_mul(monic_divmod(delta_c@, cy).0, cy));
                assert(r2tc_c@ == poly_center(r2tc@, qii));
            }
            if !vecs_equal(r2tc_c.coefficients(), delta_c.coefficients()) {
                proof {
                    assert(!component_ok(
                        sk_row@,
                        e_row@,
                        a_row@,
                        ct0_rows@[i as int]@,
                        ct1_rows@[i as int]@,
                        q0i,
                        qii,
                        d as int,
                    ));
                }
                return Err(VectorsError::R2CycloMismatch(i));
            }
            // the low witness: the quotient of the rest by the modulus
            let r1_num = delta.sub(&r2tc);
            let qi_poly = Polynomial::constant(Big::from_u64(qi));
            proof {
                assert(r1_num@.len() == 2 * d - 1);
                assert(qi_poly@[0] == qi as int);
                assert(r1_num@ == poly_sub(delta@, r2tc@));
            }
            let (r1_poly, r1_rem) = match r1_num.div(&qi_poly) {
                Ok(qr) => qr,
                Err(_) => {
                    proof {
                        assert(qi_poly@[0] != 0);
                        assert(false);
                    }
                    vstd::pervasive::unreached()
                },
            };
            proof {
                assert(is_divmod(r1_num@, qi_poly@, r1_poly@, r1_rem@));
                assert(r1_poly@.len() == 2 * d - 1);
                assert(qi_poly@ =~= seq![qii]);
                assert forall|p: int| 0 <= p < r1_num@.len() implies #[trigger] r1_num@[p]
                    == r1_poly@[p] * qii + padded(r1_rem@, r1_num@.len() as int, p) by {
                    lemma_conv_partial_singleton(r1_poly@, qii, p, r1_poly@.len() as int);
                }
            }
            if !r1_rem.is_zero() {
                proof {
                    let la = r1_num@.len() as int;
                    let j = choose|j: int| 0 <= j < r1_rem@.len() && r1_rem@[j] != 0;
                    let p = la - r1_rem@.len() + j;
                    assert(padded(r1_rem@, la, p) == r1_rem@[j]);
                    assert(tmod(r1_num@[p], qii) != 0) by {
                        assert(r1_num@[p] == r1_poly@[p] * qii + r1_rem@[j]);
                        assert(r1_poly@[p] == tdiv(r1_num@[p], qii));
                        assert(tmod(r1_num@[p], qii) == r1_num@[p] - qii * tdiv(r1_num@[p], qii));
                        assert(r1_poly@[p] * qii == qii * r1_poly@[p]) by (nonlinear_arith);
                    }
                    assert(!component_ok(
                        sk_row@,
                        e_row@,
                        a_row@,
                        ct0_rows@[i as int]@,
                        ct1_rows@[i as int]@,
                        q0i,
                        qii,
                        d as int,
                    ));
                }
                return Err(VectorsError::ScalarRemainder(i));
            }
            proof {
                assert(r1_rem@.len() == 0);
                assert forall|p: int| 0 <= p < r1_num@.len() implies tmod(
                    #[trigger] r1_num@[p],
                    qii,
                ) == 0 by {
                    assert(padded(r1_rem@, r1_num@.len() as int, p) == 0);
                    assert(r1_num@[p] == r1_poly@[p] * qii);
                    assert(r1_poly@[p] == tdiv(r1_num@[p], qii));
                    assert(r1_poly@[p] * qii == qii * r1_poly@[p]) by (nonlinear_arith);
                }
                assert(r1_poly@ =~= Seq::new(r1_num@.len(), |p: int| tdiv(r1_num@[p], qii)));
            }
            // the identity must reassemble the ciphertext row exactly
            let r1_times_qi = r1_poly.scalar_mul(&qi_big);
            let calc = hat.add(&r1_times_qi).add(&r2tc);
            let calc_t = trim_full_vec(dup_coeffs(calc.coefficients()));
            proof {
                assert(coeffs_view(calc_t@) == poly_trim_full(
                    poly_add(poly_add(hatv, poly_scalar(r1_poly@, qii)), r2tc@),
                ));
            }
            if !vecs_equal(&calc_t, &ct0i) {
                proof {
                    assert(!component_ok(
                        sk_row@,
                        e_row@,
                        a_row@,
                        ct0_rows@[i as int]@,
                        ct1_rows@[i as int]@,
                        q0i,
                        qii,
                        d as int,
                    ));
                }
                return Err(VectorsError::IdentityMismatch(i));
            }
            // the second ciphertext row carries no witness: it must be the
            // public polynomial itself
            if !vecs_equal(&ct1i, &a_c) {
                proof {
                    assert(!component_ok(
                        sk_row@,
                        e_row@,
                        a_row@,
                        ct0_rows@[i as int]@,
                        ct1_rows@[i as int]@,
                        q0i,
                        qii,
                        d as int,
                    ));
                }
                return Err(VectorsError::Ct1Mismatch(i));
            }
            let r1_out = dup_coeffs(r1_poly.coefficients());
            let r2_out = dup_coeffs(r2_poly.coefficients());
            proof {
                assert(coeffs_view(calc_t@) == poly_trim_full(
                    poly_add(
                        poly_add(hat_sv, poly_scalar(coeffs_view(r1_out@), qi as int)),
                        poly_mul(coeffs_view(r2_out@), cyclo_spec(d as int)),
                    ),
                ));
                assert(component_ok(
                    sk_row@,
                    e_row@,
                    a_row@,
                    ct0_rows@[i as int]@,
                    ct1_rows@[i as int]@,
                    q0i,
                    qii,
                    d as int,
                ));
                assert(r2_rem@ =~= Seq::<int>::empty());
                assert(is_divmod(
                    poly_center(poly_sub(coeffs_view(ct0i@), hat_sv), qii),
                    cy,
                    coeffs_view(r2_out@),
                    Seq::<int>::empty(),
                ));
                assert(coeffs_view(r1_out@) =~= low_witness_of(
                    coeffs_view(ct0i@),
                    hat_sv,
                    coeffs_view(r2_out@),
                    qii,
                    d as int,
                ));
            }
            ct0is.push(ct0i);
            ct1is.push(ct1i);
            r1is.push(r1_out);
            r2is.push(r2_out);
            i += 1;
        }
        let v = InputValidationVectors { ct0is, ct1is, r1is, r2is, a: a_c, sk: sk_c, e: e_c };
        proof {
            assert(forall|j: int|
                0 <= j < l ==> #[trigger] rows_view(v.ct0is@)[j] == coeffs_view(v.ct0is@[j]@));
            assert(forall|j: int|
                0 <= j < l ==> #[trigger] rows_view(v.ct1is@)[j] == coeffs_view(v.ct1is@[j]@));
            assert(forall|j: int|
                0 <= j < l ==> #[trigger] rows_view(v.r1is@)[j] == coeffs_view(v.r1is@[j]@));
            assert(forall|j: int|
                0 <= j < l ==> #[trigger] rows_view(v.r2is@)[j] == coeffs_view(v.r2is@[j]@));
        }
        Ok(v)
    }
}

/// Every row of every block reduced into `[0, p)`.
pub open spec fn rows_mod(rows: Seq<Seq<int>>, p: int) -> Seq<Seq<int>> {
    Seq::new(rows.len(), |i: int| poly_mod(rows[i], p))
}

/// Against the cyclotomic row `x^d + 1` a convolution picks at most two
/// entries of its left operand.
pub proof fn lemma_conv_partial_cyclo(q: Seq<int>, d: int, p: int, n: int)
    requires
        d >= 1,
        0 <= n <= q.len(),
    ensures
        crate::poly::conv_partial(q, cyclo_spec(d), p, n) == (if 0 <= p < n {
            q[p]
        } else {
            0
        }) + (if 0 <= p - d && p - d < n {
            q[p - d]
        } else {
            0
        }),
    decreases n,
{
    if n > 0 {
        lemma_conv_partial_cyclo(q, d, p, n - 1);
    }
}

/// The part of the consistency law the contracts pin down for the high
/// witness: a decomposition's high-witness row consists of leading entries
/// of the centered difference, so for an odd modulus it lies within the
/// derived bound `(qi - 1)/2`, in centered form and, for any proof modulus
/// beyond that bound, in standard form as well.
pub proof fn lemma_high_witness_in_bounds(
    ct0row: Seq<int>,
    hat: Seq<int>,
    r2row: Seq<int>,
    qi: int,
    d: int,
    p: int,
)
    requires
        qi >= 2,
        qi % 2 == 1,
        d >= 1,
        poly_sub(ct0row, hat).len() <= 2 * d,
        is_divmod(
            poly_center(poly_sub(ct0row, hat), qi),
            cyclo_spec(d),
            r2row,
            Seq::<int>::empty(),
        ),
        p > (qi - 1) / 2,
    ensures
        crate::poly::all_in_centered(r2row, -((qi - 1) / 2), (qi - 1) / 2),
        crate::poly::all_in_standard(poly_mod(r2row, p), (qi - 1) / 2, p),
{
    let delta = poly_sub(ct0row, hat);
    let delta_c = poly_center(delta, qi);
    let cy = cyclo_spec(d);
    let b = (qi - 1) / 2;
    assert(r2row.len() == delta_c.len() + 1 - cy.len());
    assert forall|j: int| 0 <= j < r2row.len() implies -b <= #[trigger] r2row[j] <= b by {
        lemma_conv_partial_cyclo(r2row, d, j, r2row.len() as int);
        assert(delta_c[j] == crate::poly::conv_at(r2row, cy, j) + crate::poly::padded(
            Seq::<int>::empty(),
            delta_c.len() as int,
            j,
        ));
        assert(crate::poly::padded(Seq::<int>::empty(), delta_c.len() as int, j) == 0);
        assert(delta_c[j] == r2row[j]);
        crate::poly::lemma_center_range(delta[j], qi);
    }
    crate::poly::lemma_centered_to_standard(r2row, b, p);
}

/// Range law: the standard form puts every coefficient into `[0, p)`, and a
/// row already inside `[0, p)` comes back unchanged.
pub proof fn lemma_standard_form_range(s: Seq<int>, p: int)
    requires
        p >= 1,
    ensures
        forall|i: int| 0 <= i < s.len() ==> 0 <= #[trigger] poly_mod(s, p)[i] < p,
        (forall|i: int| 0 <= i < s.len() ==> 0 <= #[trigger] s[i] < p) ==> poly_mod(s, p) == s,
{
    assert forall|i: int| 0 <= i < s.len() implies 0 <= #[trigger] poly_mod(s, p)[i] < p by {
        vstd::arithmetic::div_mod::lemma_mod_bound(s[i], p);
    }
    if forall|i: int| 0 <= i < s.len() ==> 0 <= #[trigger] s[i] < p {
        assert forall|i: int| 0 <= i < s.len() implies #[trigger] poly_mod(s, p)[i] == s[i] by {
            vstd::arithmetic::div_mod::lemma_fundamental_div_mod_converse(s[i], p, 0, s[i]);
        }
        assert(poly_mod(s, p) =~= s);
    }
}

/// A row of zero coefficients.
fn zero_row(len: usize) -> (r: Vec<Big>)
    ensures
        r@.len() == len,
        coeffs_view(r@).len() == len,
        all_zero(coeffs_view(r@)),
{
    let mut out: Vec<Big> = Vec::new();
    let mut i: usize = 0;
    while i < len
        invariant
            i <= len,
            out@.len() == i,
            forall|j: int| 0 <= j < i ==> #[trigger] out@[j]@ == 0,
        decreases len - i,
    {
        out.push(Big::zero());
        i += 1;
    }
    out
}

/// A block of `count` rows of zero coefficients.
fn zero_rows(count: usize, len: usize) -> (r: Vec<Vec<Big>>)
    ensures
        r@.len() == count,
        forall|i: int| 0 <= i < count ==> #[trigger] rows_view(r@)[i].len() == len,
        forall|i: int| 0 <= i < count ==> all_zero(#[trigger] rows_view(r@)[i]),
{
    let mut out: Vec<Vec<Big>> = Vec::new();
    let mut i: usize = 0;
    while i < count
        invariant
            i <= count,
            out@.len() == i,
            forall|j: int| 0 <= j < i ==> #[trigger] coeffs_view(out@[j]@).len() == len,
            forall|j: int| 0 <= j < i ==> all_zero(#[trigger] coeffs_view(out@[j]@)),
        decreases count - i,
    {
        out.push(zero_row(len));
        i += 1;
    }
    proof {
        assert(forall|i: int|
            0 <= i < count ==> #[trigger] rows_view(out@)[i] == coeffs_view(out@[i]@));
    }
    out
}

/// True when a block has `count` rows of `len` coefficients each.
fn check_rows(rows: &Vec<Vec<Big>>, count: usize, len: usize) -> (r: bool)
    ensures
        r == (rows_view(rows@).len() == count && (forall|i: int|
            0 <= i < rows_view(rows@).len() ==> #[trigger] rows_view(rows@)[i].len() == len)),
{
    if rows.len() != count {
        return false;
    }
    let mut i: usize = 0;
    while i < rows.len()
        invariant
            i <= rows@.len(),
            forall|j: int| 0 <= j < i ==> #[trigger] rows_view(rows@)[j].len() == len,
        decreases rows@.len() - i,
    {
        if rows[i].len() != len {
            proof {
                assert(rows_view(rows@)[i as int].len() != len);
            }
            return false;
        }
        i += 1;
    }
    true
}

} // verus!
