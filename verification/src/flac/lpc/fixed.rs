//! The five fixed predictors, orders 0 to 4.

use crate::flac::lpc::{abs_sum, as_i64s, as_ints, in_sample_range, sum_of_magnitudes};
use vstd::prelude::*;

verus! {

/// The highest order of a fixed predictor.
pub const MAX_FIXED_ORDER: u8 = 4;

/// Whether the residuals of every order can be computed of `s` in 64 bits:
/// no sample is above 2^58 in magnitude, so that the sixteenfold of a sample
/// is still held.
pub open spec fn in_fixed_range(s: Seq<i64>) -> bool {
    forall|i: int|
        0 <= i < s.len() ==> -0x400_0000_0000_0000 <= #[trigger] s[i] <= 0x400_0000_0000_0000
}

/// What the fixed predictor of order `p` expects of sample `i`, given the
/// `p` samples before it.
pub open spec fn fixed_prediction(s: Seq<i64>, p: nat, i: int) -> int {
    if p == 0 {
        0
    } else if p == 1 {
        s[i - 1] as int
    } else if p == 2 {
        2 * s[i - 1] - s[i - 2]
    } else if p == 3 {
        3 * s[i - 1] - 3 * s[i - 2] + s[i - 3]
    } else {
        4 * s[i - 1] - 6 * s[i - 2] + 4 * s[i - 3] - s[i - 4]
    }
}

/// By how much sample `i` misses the prediction of order `p`.
pub open spec fn fixed_residual(s: Seq<i64>, p: nat, i: int) -> int {
    s[i] - fixed_prediction(s, p, i)
}

/// The residuals of order `p`: one for every sample from index `p` on.
pub open spec fn fixed_residuals(s: Seq<i64>, p: nat) -> Seq<int> {
    Seq::new((s.len() - p) as nat, |k: int| fixed_residual(s, p, k + p))
}

/// Whether order `p` can be applied to `s`.
pub open spec fn fixed_order_applies(s: Seq<i64>, p: nat) -> bool {
    p <= MAX_FIXED_ORDER && p <= s.len()
}

/// Whether `p` is the order of least absolute residual sum, the lowest such.
pub open spec fn is_best_fixed_order(s: Seq<i64>, p: nat) -> bool {
    &&& fixed_order_applies(s, p)
    &&& forall|q: nat| #[trigger]
        fixed_order_applies(s, q) ==> abs_sum(fixed_residuals(s, p)) <= abs_sum(
            fixed_residuals(s, q),
        )
    &&& forall|q: nat|
        q < p && #[trigger] fixed_order_applies(s, q) ==> abs_sum(fixed_residuals(s, p)) < abs_sum(
            fixed_residuals(s, q),
        )
}

/// Each order is the first difference of the order below it: the residuals
/// of order `p + 1` are the residuals of order 1 of the residuals of order
/// `p`.
pub proof fn lemma_fixed_residuals_are_differences(s: Seq<i64>, p: nat)
    requires
        p < MAX_FIXED_ORDER,
        p < s.len(),
        in_fixed_range(s),
    ensures
        fixed_residuals(s, p + 1) == fixed_residuals(as_i64s(fixed_residuals(s, p)), 1),
        as_ints(as_i64s(fixed_residuals(s, p))) == fixed_residuals(s, p),
{
    let below = fixed_residuals(s, p);
    let held = as_i64s(below);
    assert forall|k: int| 0 <= k < below.len() implies held[k] == #[trigger] below[k] by {
        let i = k + p;
        assert(below[k] == fixed_residual(s, p, i));
        assert(-0x400_0000_0000_0000 <= s[i] <= 0x400_0000_0000_0000);
        if p >= 1 {
            assert(-0x400_0000_0000_0000 <= s[i - 1] <= 0x400_0000_0000_0000);
        }
        if p >= 2 {
            assert(-0x400_0000_0000_0000 <= s[i - 2] <= 0x400_0000_0000_0000);
        }
        if p >= 3 {
            assert(-0x400_0000_0000_0000 <= s[i - 3] <= 0x400_0000_0000_0000);
        }
    }
    assert(as_ints(held) =~= below);
    let above = fixed_residuals(s, p + 1);
    let differences = fixed_residuals(held, 1);
    assert(above.len() == differences.len());
    assert forall|k: int| 0 <= k < above.len() implies above[k] == differences[k] by {
        assert(above[k] == fixed_residual(s, p + 1, k + p + 1));
        assert(differences[k] == held[k + 1] - held[k]);
        assert(held[k + 1] == below[k + 1]);
        assert(held[k] == below[k]);
        assert(below[k + 1] == fixed_residual(s, p, k + 1 + p));
        assert(below[k] == fixed_residual(s, p, k + p));
    }
    assert(above =~= differences);
}

/// No two orders are both the best.
pub proof fn lemma_best_fixed_order_unique(s: Seq<i64>, a: nat, b: nat)
    requires
        is_best_fixed_order(s, a),
        is_best_fixed_order(s, b),
    ensures
        a == b,
{
}

/// Warm-up samples and residuals determine the block: two blocks that agree
/// in their first `p` samples and in their residuals of order `p` are equal.
pub proof fn lemma_fixed_residuals_determine_block(a: Seq<i64>, b: Seq<i64>, p: nat)
    requires
        fixed_order_applies(a, p),
        a.len() == b.len(),
        a.take(p as int) == b.take(p as int),
        fixed_residuals(a, p) == fixed_residuals(b, p),
    ensures
        a == b,
{
    lemma_agree_up_to(a, b, p, a.len());
    assert(a =~= b);
}

/// Two blocks with the same warm-up and the same residuals agree in their
/// first `n` samples.
proof fn lemma_agree_up_to(a: Seq<i64>, b: Seq<i64>, p: nat, n: nat)
    requires
        fixed_order_applies(a, p),
        a.len() == b.len(),
        a.take(p as int) == b.take(p as int),
        fixed_residuals(a, p) == fixed_residuals(b, p),
        n <= a.len(),
    ensures
        forall|i: int| 0 <= i < n ==> a[i] == b[i],
    decreases n,
{
    if n > 0 {
        lemma_agree_up_to(a, b, p, (n - 1) as nat);
        let i = n - 1;
        if i < p {
            assert(a[i] == a.take(p as int)[i]);
            assert(b[i] == b.take(p as int)[i]);
        } else {
            assert(fixed_residuals(a, p)[i - p] == fixed_residual(a, p, i));
            assert(fixed_residuals(b, p)[i - p] == fixed_residual(b, p, i));
        }
    }
}

/// The fixed predictors of FLAC.
pub struct FixedPredictor;

impl FixedPredictor {
    /// The order whose residuals have the least absolute sum; of several
    /// such, the lowest.
    pub fn best_predictor_order(data: &Vec<i64>) -> (best: Option<u8>)
        requires
            in_fixed_range(data@),
        ensures
            best is Some,
            is_best_fixed_order(data@, best->0 as nat),
    {
        let mut best: u8 = 0;
        let first = Self::calculate_sum(Self::get_residuals(data, 0));
        let mut best_sum: u128 = match first {
            Some(sum) => sum,
            None => 0,
        };
        let mut order: u8 = 1;
        while order <= MAX_FIXED_ORDER
            invariant
                1 <= order <= MAX_FIXED_ORDER + 1,
                in_fixed_range(data@),
                best < order,
                fixed_order_applies(data@, best as nat),
                best_sum == abs_sum(fixed_residuals(data@, best as nat)),
                forall|q: nat|
                    q < order && #[trigger] fixed_order_applies(data@, q) ==> best_sum <= abs_sum(
                        fixed_residuals(data@, q),
                    ),
                forall|q: nat|
                    q < best && #[trigger] fixed_order_applies(data@, q) ==> best_sum < abs_sum(
                        fixed_residuals(data@, q),
                    ),
            decreases MAX_FIXED_ORDER + 1 - order,
        {
            match Self::calculate_sum(Self::get_residuals(data, order)) {
                Some(sum) => {
                    if sum < best_sum {
                        best = order;
                        best_sum = sum;
                    }
                },
                None => {},
            }
            order = order + 1;
        }
        Some(best)
    }

    /// The residuals that the fixed predictor of order `predictor_order`
    /// leaves of `data`, or `None` where the order is above 4 or the block
    /// shorter than the order. The residuals of the next order are the
    /// first differences of these; and the residuals of samples of at most
    /// 33 bits can themselves be given to the predictors.
    pub fn get_residuals(data: &Vec<i64>, predictor_order: u8) -> (residuals: Option<Vec<i64>>)
        requires
            in_fixed_range(data@),
        ensures
            residuals is Some <==> fixed_order_applies(data@, predictor_order as nat),
            residuals matches Some(r) ==> {
                &&& r@.len() == data@.len() - predictor_order
                &&& as_ints(r@) == fixed_residuals(data@, predictor_order as nat)
                &&& r@ == as_i64s(fixed_residuals(data@, predictor_order as nat))
                &&& predictor_order < MAX_FIXED_ORDER && predictor_order < data@.len()
                    ==> fixed_residuals(data@, (predictor_order + 1) as nat) == fixed_residuals(
                    r@,
                    1,
                )
                &&& in_sample_range(data@) ==> in_fixed_range(r@)
            },
    {
        let data_len = data.len();
        if predictor_order > MAX_FIXED_ORDER || data_len < predictor_order as usize {
            return None;
        }
        let order = predictor_order as usize;
        let mut residual: Vec<i64> = Vec::new();
        let mut i: usize = order;
        while i < data_len
            invariant
                order <= i <= data_len,
                data_len == data@.len(),
                order == predictor_order,
                predictor_order <= MAX_FIXED_ORDER,
                in_fixed_range(data@),
                residual@.len() == i - order,
                forall|k: int|
                    0 <= k < i - order ==> #[trigger] residual@[k] == fixed_residual(
                        data@,
                        order as nat,
                        k + order,
                    ),
            decreases data_len - i,
        {
            let r: i64 = if predictor_order == 0 {
                data[i]
            } else if predictor_order == 1 {
                data[i] - data[i - 1]
            } else if predictor_order == 2 {
                data[i] - 2 * data[i - 1] + data[i - 2]
            } else if predictor_order == 3 {
                data[i] - 3 * data[i - 1] + 3 * data[i - 2] - data[i - 3]
            } else {
                data[i] - 4 * data[i - 1] + 6 * data[i - 2] - 4 * data[i - 3] + data[i - 4]
            };
            residual.push(r);
            i = i + 1;
        }
        proof {
            assert(as_ints(residual@) =~= fixed_residuals(data@, predictor_order as nat));
            assert(residual@ =~= as_i64s(fixed_residuals(data@, predictor_order as nat)));
            if in_sample_range(data@) {
                assert forall|k: int| 0 <= k < residual@.len() implies -0x400_0000_0000_0000
                    <= #[trigger] residual@[k] <= 0x400_0000_0000_0000 by {
                    let i = k + order;
                    assert(residual@[k] == fixed_residual(data@, order as nat, i));
                    assert(-0x1_0000_0000 <= data@[i] < 0x1_0000_0000);
                    if order >= 1 {
                        assert(-0x1_0000_0000 <= data@[i - 1] < 0x1_0000_0000);
                    }
                    if order >= 2 {
                        assert(-0x1_0000_0000 <= data@[i - 2] < 0x1_0000_0000);
                    }
                    if order >= 3 {
                        assert(-0x1_0000_0000 <= data@[i - 3] < 0x1_0000_0000);
                    }
                    if order >= 4 {
                        assert(-0x1_0000_0000 <= data@[i - 4] < 0x1_0000_0000);
                    }
                }
            }
            if predictor_order < MAX_FIXED_ORDER && predictor_order < data@.len() {
                lemma_fixed_residuals_are_differences(data@, predictor_order as nat);
            }
        }
        Some(residual)
    }

    /// The absolute sum of a residual vector, where there is one.
    fn calculate_sum(vector: Option<Vec<i64>>) -> (sum: Option<u128>)
        ensures
            match (vector, sum) {
                (Some(v), Some(total)) => total == abs_sum(as_ints(v@)),
                (None, None) => true,
                _ => false,
            },
    {
        match vector {
            Some(vec) => Some(sum_of_magnitudes(&vec)),
            None => None,
        }
    }
}

} // verus!
