//! Linear prediction with quantized coefficients.

use crate::flac::lpc::{abs_sum, as_ints, in_sample_range, sum_of_magnitudes};
use vstd::arithmetic::power2::{lemma2_to64, lemma_pow2_pos, lemma_pow2_unfold, pow2};
use vstd::prelude::*;

verus! {

/// The highest order of a linear predictor.
pub const MAX_LPC_ORDER: u8 = 32;

/// The widest quantized coefficient, in bits.
pub const MAX_LPC_PRECISION: u8 = 15;

/// The largest shift that a quantized predictor carries.
pub const MAX_LPC_SHIFT: u8 = 30;

/// Whether every coefficient fits a signed number of `precision` bits.
pub open spec fn coefs_fit(coefs: Seq<i64>, precision: nat) -> bool {
    forall|j: int|
        0 <= j < coefs.len() ==> -pow2((precision - 1) as nat) <= #[trigger] coefs[j] < pow2(
            (precision - 1) as nat,
        )
}

/// Whether every coefficient fits the widest precision.
pub open spec fn in_coef_range(coefs: Seq<i64>) -> bool {
    forall|j: int| 0 <= j < coefs.len() ==> -0x4000 <= #[trigger] coefs[j] < 0x4000
}

/// The weighted sum of the `terms` samples before sample `i`, the nearest
/// sample under the first coefficient.
pub open spec fn lpc_dot(s: Seq<i64>, q: Seq<i64>, i: int, terms: nat) -> int
    decreases terms,
{
    if terms == 0 {
        0
    } else {
        lpc_dot(s, q, i, (terms - 1) as nat) + q[terms - 1] * s[i - terms]
    }
}

/// What the predictor with coefficients `q` and shift `shift` expects of
/// sample `i`: the weighted sum, shifted right arithmetically.
pub open spec fn lpc_prediction(s: Seq<i64>, q: Seq<i64>, shift: nat, i: int) -> int {
    lpc_dot(s, q, i, q.len()) / (pow2(shift) as int)
}

/// By how much sample `i` misses the prediction.
pub open spec fn lpc_residual(s: Seq<i64>, q: Seq<i64>, shift: nat, i: int) -> int {
    s[i] - lpc_prediction(s, q, shift, i)
}

/// The residuals of the predictor: one for every sample that has as many
/// samples before it as there are coefficients.
pub open spec fn lpc_residuals(s: Seq<i64>, q: Seq<i64>, shift: nat) -> Seq<int> {
    Seq::new(
        if s.len() >= q.len() {
            (s.len() - q.len()) as nat
        } else {
            0
        },
        |k: int| lpc_residual(s, q, shift, k + q.len()),
    )
}

/// The coefficient precision that suits a bit depth and a block size.
pub open spec fn best_precision(bps: nat, block_size: nat) -> nat {
    if bps < 16 {
        if 2 + bps / 2 >= 1 {
            2 + bps / 2
        } else {
            1
        }
    } else if bps == 16 {
        if block_size == 192 {
            7
        } else if block_size == 384 {
            8
        } else if block_size == 576 {
            9
        } else if block_size == 1152 {
            10
        } else if block_size == 2304 {
            11
        } else if block_size == 4608 {
            12
        } else {
            13
        }
    } else {
        if block_size == 384 {
            12
        } else if block_size == 1152 {
            13
        } else {
            14
        }
    }
}

/// Dividing by `c` and then by two, rounding down each time, divides by
/// `2 * c`.
proof fn lemma_div_then_half(x: int, c: int)
    requires
        c > 0,
    ensures
        (x / c) / 2 == x / (2 * c),
{
    let y = x / c;
    let z = y / 2;
    let low = c * (y % 2) + x % c;
    vstd::arithmetic::div_mod::lemma_fundamental_div_mod(x, c);
    vstd::arithmetic::div_mod::lemma_mod_bound(x, c);
    assert(x == z * (2 * c) + low && 0 <= low < 2 * c) by (nonlinear_arith)
        requires
            x == c * y + x % c,
            0 <= x % c < c,
            y == 2 * z + y % 2,
            0 <= y % 2 < 2,
            low == c * (y % 2) + x % c,
    ;
    vstd::arithmetic::div_mod::lemma_fundamental_div_mod_converse(x, 2 * c, z, low);
}

/// An arithmetic shift right divides by a power of two, rounding down.
pub proof fn lemma_i64_shr_is_div(a: i64, shift: u8)
    requires
        shift < 64,
    ensures
        a >> shift == a as int / (pow2(shift as nat) as int),
    decreases shift,
{
    lemma2_to64();
    if shift == 0 {
        assert(a >> 0u8 == a) by (bit_vector);
    } else {
        let before = (shift - 1) as u8;
        lemma_i64_shr_is_div(a, before);
        assert(a >> shift == (a >> before) >> 1) by (bit_vector)
            requires
                0 < shift < 64,
                before == shift - 1,
        ;
        crate::flac::bitstream::lemma_i64_low_bit(a >> before);
        lemma_pow2_unfold(shift as nat);
        lemma_pow2_pos(before as nat);
        lemma_div_then_half(a as int, pow2(before as nat) as int);
    }
}

/// A partial weighted sum is no larger than its terms allow.
pub proof fn lemma_lpc_dot_bound(s: Seq<i64>, q: Seq<i64>, i: int, terms: nat)
    requires
        in_sample_range(s),
        in_coef_range(q),
        terms <= q.len(),
        terms <= i < s.len(),
    ensures
        -terms * 0x4000_0000_0000 <= lpc_dot(s, q, i, terms) <= terms * 0x4000_0000_0000,
    decreases terms,
{
    if terms > 0 {
        lemma_lpc_dot_bound(s, q, i, (terms - 1) as nat);
        let c = q[terms - 1] as int;
        let x = s[i - terms] as int;
        assert(-0x4000_0000_0000 <= c * x <= 0x4000_0000_0000) by (nonlinear_arith)
            requires
                -0x4000 <= c < 0x4000,
                -0x1_0000_0000 <= x < 0x1_0000_0000,
        ;
    }
}

/// Dividing by a positive number keeps a bound that is symmetric about zero.
pub proof fn lemma_div_keeps_bound(a: int, d: int, bound: int)
    requires
        d > 0,
        -bound <= a <= bound,
    ensures
        -bound <= a / d <= bound,
{
    vstd::arithmetic::div_mod::lemma_fundamental_div_mod(a, d);
    vstd::arithmetic::div_mod::lemma_mod_bound(a, d);
    assert(-bound <= a / d <= bound) by (nonlinear_arith)
        requires
            d > 0,
            -bound <= a <= bound,
            a == d * (a / d) + a % d,
            0 <= a % d < d,
    ;
}

/// Whether a quantized predictor (coefficients, precision, shift) can be
/// stored in a subframe of a block of `n` samples: an order from 1 to 32
/// that leaves residuals, a precision from 1 to 15 that every coefficient
/// fits, and a shift of at most 30.
pub open spec fn lpc_usable(candidate: (Vec<i64>, u8, u8), n: nat) -> bool {
    predictor_usable(candidate.0@, candidate.1 as nat, candidate.2 as nat, n)
}

/// Whether coefficients, precision and shift make a quantized predictor
/// that can be stored in a subframe of a block of `n` samples.
pub open spec fn predictor_usable(coefs: Seq<i64>, precision: nat, shift: nat, n: nat) -> bool {
    &&& 1 <= coefs.len() <= MAX_LPC_ORDER
    &&& coefs.len() < n
    &&& 1 <= precision <= MAX_LPC_PRECISION
    &&& shift <= MAX_LPC_SHIFT
    &&& coefs_fit(coefs, precision)
}

/// The absolute sum of the residuals that a quantized predictor leaves.
pub open spec fn lpc_abs_sum(samples: Seq<i64>, candidate: (Vec<i64>, u8, u8)) -> nat {
    abs_sum(lpc_residuals(samples, candidate.0@, candidate.2 as nat))
}

/// Whether candidate `k` comes before candidate `j`: by the lesser absolute
/// residual sum, then by the lower order, then by the earlier place.
pub open spec fn lpc_precedes(
    samples: Seq<i64>,
    candidates: Seq<(Vec<i64>, u8, u8)>,
    k: int,
    j: int,
) -> bool {
    let sum_k = lpc_abs_sum(samples, candidates[k]);
    let sum_j = lpc_abs_sum(samples, candidates[j]);
    let order_k = candidates[k].0@.len();
    let order_j = candidates[j].0@.len();
    sum_k < sum_j || (sum_k == sum_j && (order_k < order_j || (order_k == order_j && k <= j)))
}

/// Whether candidate `k` is usable and comes before every usable candidate.
pub open spec fn is_best_lpc(samples: Seq<i64>, candidates: Seq<(Vec<i64>, u8, u8)>, k: int) -> bool {
    &&& 0 <= k < candidates.len()
    &&& lpc_usable(candidates[k], samples.len())
    &&& forall|j: int|
        0 <= j < candidates.len() && lpc_usable(#[trigger] candidates[j], samples.len())
            ==> lpc_precedes(samples, candidates, k, j)
}

/// Warm-up samples, coefficients and residuals determine the block: two
/// blocks that agree in their first samples, as many as there are
/// coefficients, and in their residuals are equal.
pub proof fn lemma_lpc_residuals_determine_block(a: Seq<i64>, b: Seq<i64>, q: Seq<i64>, shift: nat)
    requires
        a.len() == b.len(),
        q.len() <= a.len(),
        a.take(q.len() as int) == b.take(q.len() as int),
        lpc_residuals(a, q, shift) == lpc_residuals(b, q, shift),
    ensures
        a == b,
{
    lemma_lpc_agree_up_to(a, b, q, shift, a.len());
    assert(a =~= b);
}

/// The weighted sum before sample `i` is the same in two blocks that agree
/// before sample `i`.
proof fn lemma_lpc_dot_agrees(a: Seq<i64>, b: Seq<i64>, q: Seq<i64>, i: int, terms: nat)
    requires
        a.len() == b.len(),
        terms <= i <= a.len(),
        forall|k: int| 0 <= k < i ==> a[k] == b[k],
    ensures
        lpc_dot(a, q, i, terms) == lpc_dot(b, q, i, terms),
    decreases terms,
{
    if terms > 0 {
        lemma_lpc_dot_agrees(a, b, q, i, (terms - 1) as nat);
    }
}

/// Two blocks with the same warm-up and the same residuals agree in their
/// first `n` samples.
proof fn lemma_lpc_agree_up_to(a: Seq<i64>, b: Seq<i64>, q: Seq<i64>, shift: nat, n: nat)
    requires
        a.len() == b.len(),
        q.len() <= a.len(),
        a.take(q.len() as int) == b.take(q.len() as int),
        lpc_residuals(a, q, shift) == lpc_residuals(b, q, shift),
        n <= a.len(),
    ensures
        forall|i: int| 0 <= i < n ==> a[i] == b[i],
    decreases n,
{
    if n > 0 {
        lemma_lpc_agree_up_to(a, b, q, shift, (n - 1) as nat);
        let i = n - 1;
        if i < q.len() {
            assert(a[i] == a.take(q.len() as int)[i]);
            assert(b[i] == b.take(q.len() as int)[i]);
        } else {
            lemma_lpc_dot_agrees(a, b, q, i, q.len());
            assert(lpc_residuals(a, q, shift)[i - q.len()] == lpc_residual(a, q, shift, i));
            assert(lpc_residuals(b, q, shift)[i - q.len()] == lpc_residual(b, q, shift, i));
        }
    }
}

/// No two candidates are both the best.
pub proof fn lemma_best_lpc_unique(
    samples: Seq<i64>,
    candidates: Seq<(Vec<i64>, u8, u8)>,
    a: int,
    b: int,
)
    requires
        is_best_lpc(samples, candidates, a),
        is_best_lpc(samples, candidates, b),
    ensures
        a == b,
{
    assert(lpc_precedes(samples, candidates, a, b));
    assert(lpc_precedes(samples, candidates, b, a));
}

/// Coefficients that fit a precision of at most 15 bits fit the widest one.
pub proof fn lemma_coefs_fit_widest(coefs: Seq<i64>, precision: nat)
    requires
        1 <= precision <= MAX_LPC_PRECISION,
        coefs_fit(coefs, precision),
    ensures
        in_coef_range(coefs),
{
    lemma2_to64();
    if precision < 15 {
        vstd::arithmetic::power2::lemma_pow2_strictly_increases((precision - 1) as nat, 14);
    }
    assert forall|j: int| 0 <= j < coefs.len() implies -0x4000 <= #[trigger] coefs[j] < 0x4000 by {
        assert(-pow2((precision - 1) as nat) <= coefs[j] < pow2((precision - 1) as nat));
    }
}

/// The linear predictors of FLAC.
pub struct VarPredictor;

impl VarPredictor {
    /// The residuals that the predictor with the first `predictor_order`
    /// coefficients of `qlp_coefs` and the shift `qlp_shift` leaves of
    /// `samples`. The warm-up samples are not part of the result.
    pub fn get_residuals(
        samples: &Vec<i64>,
        qlp_coefs: &Vec<i64>,
        predictor_order: u8,
        qlp_shift: u8,
    ) -> (residuals: Vec<i64>)
        requires
            in_sample_range(samples@),
            in_coef_range(qlp_coefs@),
            predictor_order <= MAX_LPC_ORDER,
            predictor_order <= qlp_coefs@.len(),
            qlp_shift < 64,
        ensures
            as_ints(residuals@) == lpc_residuals(
                samples@,
                qlp_coefs@.take(predictor_order as int),
                qlp_shift as nat,
            ),
    {
        let ghost q = qlp_coefs@.take(predictor_order as int);
        let order = predictor_order as usize;
        let n = samples.len();
        let mut residuals: Vec<i64> = Vec::new();
        if n < order {
            proof {
                assert(as_ints(residuals@) =~= lpc_residuals(samples@, q, qlp_shift as nat));
            }
            return residuals;
        }
        let mut i: usize = order;
        while i < n
            invariant
                order <= i <= n,
                n == samples@.len(),
                order == predictor_order,
                order <= MAX_LPC_ORDER,
                order <= qlp_coefs@.len(),
                q == qlp_coefs@.take(predictor_order as int),
                qlp_shift < 64,
                in_sample_range(samples@),
                in_coef_range(qlp_coefs@),
                residuals@.len() == i - order,
                forall|k: int|
                    0 <= k < i - order ==> #[trigger] residuals@[k] == lpc_residual(
                        samples@,
                        q,
                        qlp_shift as nat,
                        k + order,
                    ),
            decreases n - i,
        {
            let mut acc: i64 = 0;
            let mut j: usize = 0;
            while j < order
                invariant
                    j <= order <= i < n,
                    n == samples@.len(),
                    order <= MAX_LPC_ORDER,
                    order <= qlp_coefs@.len(),
                    q == qlp_coefs@.take(order as int),
                    in_sample_range(samples@),
                    in_coef_range(qlp_coefs@),
                    acc == lpc_dot(samples@, q, i as int, j as nat),
                decreases order - j,
            {
                proof {
                    assert(in_coef_range(q));
                    lemma_lpc_dot_bound(samples@, q, i as int, j as nat);
                    lemma_lpc_dot_bound(samples@, q, i as int, (j + 1) as nat);
                    let c = qlp_coefs@[j as int] as int;
                    let x = samples@[i - 1 - j] as int;
                    assert(-0x4000_0000_0000 <= c * x <= 0x4000_0000_0000) by (nonlinear_arith)
                        requires
                            -0x4000 <= c < 0x4000,
                            -0x1_0000_0000 <= x < 0x1_0000_0000,
                    ;
                }
                acc = acc + qlp_coefs[j] * samples[i - 1 - j];
                j = j + 1;
            }
            proof {
                assert(in_coef_range(q));
                lemma_lpc_dot_bound(samples@, q, i as int, order as nat);
                lemma_i64_shr_is_div(acc, qlp_shift);
                lemma_pow2_pos(qlp_shift as nat);
                lemma_div_keeps_bound(
                    acc as int,
                    pow2(qlp_shift as nat) as int,
                    0x8_0000_0000_0000int,
                );
            }
            let prediction: i64 = acc >> qlp_shift;
            residuals.push(samples[i] - prediction);
            i = i + 1;
        }
        proof {
            assert(as_ints(residuals@) =~= lpc_residuals(samples@, q, qlp_shift as nat));
        }
        residuals
    }

    /// Whether `candidate` can be stored in a subframe of a block of `n`
    /// samples.
    pub fn is_usable(candidate: &(Vec<i64>, u8, u8), n: usize) -> (usable: bool)
        ensures
            usable == lpc_usable(*candidate, n as nat),
    {
        Self::predictor_is_usable(&candidate.0, candidate.1, candidate.2, n)
    }

    /// Whether coefficients, precision and shift make a quantized predictor
    /// that can be stored in a subframe of a block of `n` samples.
    pub fn predictor_is_usable(coefs: &Vec<i64>, precision: u8, shift: u8, n: usize) -> (usable:
        bool)
        ensures
            usable == predictor_usable(coefs@, precision as nat, shift as nat, n as nat),
    {
        let order = coefs.len();
        if order < 1 || order > MAX_LPC_ORDER as usize || order >= n || precision < 1 || precision
            > MAX_LPC_PRECISION || shift > MAX_LPC_SHIFT {
            return false;
        }
        proof {
            lemma2_to64();
            if precision < 15 {
                vstd::arithmetic::power2::lemma_pow2_strictly_increases(
                    (precision - 1) as nat,
                    14,
                );
            }
            vstd::bits::lemma_u64_shl_is_mul(1, (precision - 1) as u64);
        }
        let bound: i64 = (1u64 << (precision - 1)) as i64;
        let mut j: usize = 0;
        while j < order
            invariant
                j <= order,
                order == coefs@.len(),
                1 <= order <= MAX_LPC_ORDER,
                order < n,
                1 <= precision <= MAX_LPC_PRECISION,
                shift <= MAX_LPC_SHIFT,
                bound == pow2((precision - 1) as nat),
                forall|i: int| 0 <= i < j ==> -bound <= #[trigger] coefs@[i] < bound,
            decreases order - j,
        {
            let coef: i64 = coefs[j];
            if coef < -bound || coef >= bound {
                return false;
            }
            j = j + 1;
        }
        true
    }

    /// The absolute sum of the residuals that a usable candidate leaves.
    fn residual_sum(samples: &Vec<i64>, candidate: &(Vec<i64>, u8, u8)) -> (sum: u128)
        requires
            in_sample_range(samples@),
            lpc_usable(*candidate, samples@.len()),
        ensures
            sum == lpc_abs_sum(samples@, *candidate),
    {
        proof {
            lemma_coefs_fit_widest(candidate.0@, candidate.1 as nat);
            assert(candidate.0@.take(candidate.0@.len() as int) =~= candidate.0@);
        }
        let residuals = Self::get_residuals(
            samples,
            &candidate.0,
            candidate.0.len() as u8,
            candidate.2,
        );
        sum_of_magnitudes(&residuals)
    }

    /// The place of the best usable candidate: the one of least absolute
    /// residual sum; of several such the one of lowest order, and of those
    /// the earliest. `None` where no candidate is usable.
    pub fn best_lpc_index(samples: &Vec<i64>, candidates: &Vec<(Vec<i64>, u8, u8)>) -> (best:
        Option<usize>)
        requires
            in_sample_range(samples@),
        ensures
            best matches Some(k) ==> is_best_lpc(samples@, candidates@, k as int),
            best is None ==> forall|j: int|
                0 <= j < candidates@.len() ==> !lpc_usable(#[trigger] candidates@[j], samples@.len()),
    {
        let mut best: Option<usize> = None;
        let mut best_sum: u128 = 0;
        let mut best_order: usize = 0;
        let mut i: usize = 0;
        while i < candidates.len()
            invariant
                i <= candidates@.len(),
                in_sample_range(samples@),
                best is None ==> forall|j: int|
                    0 <= j < i ==> !lpc_usable(#[trigger] candidates@[j], samples@.len()),
                best matches Some(k) ==> {
                    &&& k < i
                    &&& lpc_usable(candidates@[k as int], samples@.len())
                    &&& best_sum == lpc_abs_sum(samples@, candidates@[k as int])
                    &&& best_order == candidates@[k as int].0@.len()
                    &&& forall|j: int|
                        0 <= j < i && lpc_usable(#[trigger] candidates@[j], samples@.len())
                            ==> lpc_precedes(samples@, candidates@, k as int, j)
                },
            decreases candidates@.len() - i,
        {
            let candidate = &candidates[i];
            if Self::is_usable(candidate, samples.len()) {
                let sum = Self::residual_sum(samples, candidate);
                let order = candidate.0.len();
                let better = match best {
                    None => true,
                    Some(_) => sum < best_sum || (sum == best_sum && order < best_order),
                };
                if better {
                    best = Some(i);
                    best_sum = sum;
                    best_order = order;
                }
            }
            i = i + 1;
        }
        best
    }

    /// The best usable candidate (coefficients, precision, shift), or `None`
    /// where no candidate is usable.
    pub fn get_best_lpc(samples: &Vec<i64>, candidates: &Vec<(Vec<i64>, u8, u8)>) -> (best: Option<
        (Vec<i64>, u8, u8),
    >)
        requires
            in_sample_range(samples@),
        ensures
            best matches Some(chosen) ==> exists|k: int|
                is_best_lpc(samples@, candidates@, k) && chosen.0@ == (#[trigger] candidates@[k]).0@
                    && chosen.1 == candidates@[k].1 && chosen.2 == candidates@[k].2,
            best is None ==> forall|j: int|
                0 <= j < candidates@.len() ==> !lpc_usable(#[trigger] candidates@[j], samples@.len()),
    {
        match Self::best_lpc_index(samples, candidates) {
            Some(k) => {
                let candidate = &candidates[k];
                let coefs = crate::flac::lpc::copy_range(
                    &candidate.0,
                    0,
                    candidate.0.len(),
                );
                proof {
                    assert(coefs@ =~= candidates@[k as int].0@);
                }
                Some((coefs, candidate.1, candidate.2))
            },
            None => None,
        }
    }

    /// The coefficient precision that suits a bit depth and a block size.
    pub fn get_best_precision(bps: u8, block_size: u64) -> (precision: u8)
        ensures
            precision == best_precision(bps as nat, block_size as nat),
            1 <= precision <= MAX_LPC_PRECISION,
    {
        if bps < 16 {
            let wide: u8 = 2 + bps / 2;
            if wide >= 1 {
                wide
            } else {
                1
            }
        } else if bps == 16 {
            if block_size == 192 {
                7
            } else if block_size == 384 {
                8
            } else if block_size == 576 {
                9
            } else if block_size == 1152 {
                10
            } else if block_size == 2304 {
                11
            } else if block_size == 4608 {
                12
            } else {
                13
            }
        } else {
            if block_size == 384 {
                12
            } else if block_size == 1152 {
                13
            } else {
                14
            }
        }
    }
}

} // verus!
