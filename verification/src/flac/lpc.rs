//! Predictors: what both kinds share, then the fixed and the linear ones.

use vstd::prelude::*;

pub mod fixed;
pub mod var;

verus! {

/// The widest sample that a predictor takes, in bits: 32 for the source and
/// one more for a side channel.
pub const MAX_SAMPLE_BITS: u8 = 33;

/// Whether every sample fits a signed number of [`MAX_SAMPLE_BITS`] bits.
pub open spec fn in_sample_range(samples: Seq<i64>) -> bool {
    forall|i: int| 0 <= i < samples.len() ==> -0x1_0000_0000 <= #[trigger] samples[i] < 0x1_0000_0000
}

/// A sequence of machine integers as mathematical ones.
pub open spec fn as_ints(values: Seq<i64>) -> Seq<int> {
    Seq::new(values.len(), |i: int| values[i] as int)
}

/// A sequence of mathematical integers as machine ones.
pub open spec fn as_i64s(values: Seq<int>) -> Seq<i64> {
    Seq::new(values.len(), |i: int| values[i] as i64)
}

/// The sum of the absolute values of a sequence.
pub open spec fn abs_sum(values: Seq<int>) -> nat
    decreases values.len(),
{
    if values.len() == 0 {
        0
    } else {
        abs_sum(values.drop_last()) + vstd::math::abs(values.last())
    }
}

/// The sum of the absolute values of `values`.
pub fn sum_of_magnitudes(values: &Vec<i64>) -> (sum: u128)
    ensures
        sum == abs_sum(as_ints(values@)),
{
    let mut sum: u128 = 0;
    let mut i: usize = 0;
    while i < values.len()
        invariant
            i <= values.len(),
            sum == abs_sum(as_ints(values@.take(i as int))),
            sum <= i * 0x8000_0000_0000_0000,
        decreases values.len() - i,
    {
        proof {
            assert(as_ints(values@.take(i + 1)).drop_last() =~= as_ints(values@.take(i as int)));
        }
        let value: i64 = values[i];
        let magnitude: u128 = if value >= 0 {
            value as u128
        } else {
            (-(value as i128)) as u128
        };
        sum = sum + magnitude;
        i = i + 1;
    }
    proof {
        assert(values@.take(i as int) =~= values@);
    }
    sum
}

/// The elements of `values` from `start` up to `end`.
pub fn copy_range(values: &Vec<i64>, start: usize, end: usize) -> (part: Vec<i64>)
    requires
        start <= end <= values@.len(),
    ensures
        part@ == values@.subrange(start as int, end as int),
{
    let mut part: Vec<i64> = Vec::new();
    let mut i: usize = start;
    while i < end
        invariant
            start <= i <= end <= values@.len(),
            part@ == values@.subrange(start as int, i as int),
        decreases end - i,
    {
        part.push(values[i]);
        proof {
            assert(part@ =~= values@.subrange(start as int, i + 1));
        }
        i = i + 1;
    }
    part
}

} // verus!
