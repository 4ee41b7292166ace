//! Partitions: how the residuals of a subframe are cut, which parameter
//! each part is coded under, and when a part is stored as it is instead.

use crate::flac::bitstream::{
    bits_of, lemma_bits_of_len, lemma_unpack_pack, pack, pad_len, BitstreamWriter,
};
use crate::flac::encoder::rice::{
    lemma_rice_codes_len, lemma_rice_cost_bound, rice_codes, rice_cost, write_rice_codes, zigzag,
    zigzag_sum, RiceEncodedStream, RiceEncoderOptions, MAX_BLOCK_SIZE, MAX_PARTITION_ORDER,
    MAX_RAW_WIDTH,
};
use crate::flac::lpc::copy_range;
use vstd::arithmetic::logarithm::log;
use vstd::arithmetic::power2::{lemma2_to64, pow2};
use vstd::prelude::*;

verus! {

/// The coding method that a bit depth calls for: parameters of four bits up
/// to 16 bits a sample, of five bits above.
pub open spec fn coding_method(depth: nat) -> nat {
    if depth <= 16 {
        0
    } else {
        1
    }
}

/// The number of bits that hold a partition's parameter.
pub open spec fn param_bits(depth: nat) -> nat {
    if depth <= 16 {
        4
    } else {
        5
    }
}

/// The largest Rice parameter of the coding method.
pub open spec fn max_param(depth: nat) -> nat {
    if depth <= 16 {
        14
    } else {
        30
    }
}

/// The parameter value that marks an escaped partition: all ones.
pub open spec fn escape_code(depth: nat) -> nat {
    if depth <= 16 {
        15
    } else {
        31
    }
}

/// The parameter that the mean magnitude suggests: the integer logarithm of
/// the mean zigzag image, or 0 where the mean is below one.
pub open spec fn mean_log2(residuals: Seq<i64>) -> nat {
    if residuals.len() == 0 {
        0
    } else {
        log(2, (zigzag_sum(residuals) / residuals.len()) as int) as nat
    }
}

/// The lowest parameter tried: one below the suggestion, held to the range
/// of the coding method.
pub open spec fn lowest_candidate(residuals: Seq<i64>, depth: nat) -> nat {
    let m = mean_log2(residuals);
    if m == 0 {
        0
    } else if m - 1 > max_param(depth) {
        max_param(depth)
    } else {
        (m - 1) as nat
    }
}

/// The highest parameter tried: one above the suggestion, held to the range
/// of the coding method.
pub open spec fn highest_candidate(residuals: Seq<i64>, depth: nat) -> nat {
    let m = mean_log2(residuals);
    if m + 1 > max_param(depth) {
        max_param(depth)
    } else {
        m + 1
    }
}

/// Of two parameters the one that costs less; of equals the first.
pub open spec fn cheaper_param(residuals: Seq<i64>, a: nat, b: nat) -> nat {
    if rice_cost(residuals, b) < rice_cost(residuals, a) {
        b
    } else {
        a
    }
}

/// The parameter of least exact cost among the candidates, the lowest such.
pub open spec fn best_param(residuals: Seq<i64>, depth: nat) -> nat {
    let lo = lowest_candidate(residuals, depth);
    let hi = highest_candidate(residuals, depth);
    let second = if lo + 1 <= hi {
        cheaper_param(residuals, lo, lo + 1)
    } else {
        lo
    };
    if lo + 2 <= hi {
        cheaper_param(residuals, second, lo + 2)
    } else {
        second
    }
}

/// The best parameter is a candidate, no candidate costs less, and no lower
/// candidate costs as little.
pub proof fn lemma_best_param_is_best(residuals: Seq<i64>, depth: nat, c: nat)
    requires
        lowest_candidate(residuals, depth) <= c <= highest_candidate(residuals, depth),
    ensures
        lowest_candidate(residuals, depth) <= best_param(residuals, depth) <= highest_candidate(
            residuals,
            depth,
        ),
        best_param(residuals, depth) <= max_param(depth),
        rice_cost(residuals, best_param(residuals, depth)) <= rice_cost(residuals, c),
        c < best_param(residuals, depth) ==> rice_cost(residuals, best_param(residuals, depth))
            < rice_cost(residuals, c),
{
}

/// The number of binary digits of a natural number.
pub open spec fn bit_length(v: nat) -> nat
    decreases v,
{
    if v == 0 {
        0
    } else {
        1 + bit_length(v / 2)
    }
}

/// The least number of bits that hold `r` in two's complement.
pub open spec fn signed_width(r: int) -> nat {
    bit_length(zigzag(r) / 2) + 1
}

/// The least number of bits that hold every residual of a run.
pub open spec fn raw_width(residuals: Seq<i64>) -> nat
    decreases residuals.len(),
{
    if residuals.len() == 0 {
        0
    } else {
        let before = raw_width(residuals.drop_last());
        let last = signed_width(residuals.last() as int);
        if last > before {
            last
        } else {
            before
        }
    }
}

/// A run of residuals, each in `width` bits of two's complement.
pub open spec fn raw_codes(residuals: Seq<i64>, width: nat) -> Seq<bool>
    decreases residuals.len(),
{
    if residuals.len() == 0 {
        Seq::empty()
    } else {
        raw_codes(residuals.drop_last(), width) + bits_of(residuals.last() as int, width)
    }
}

/// Whether a partition is escaped: its Rice codes would take more than five
/// bits and a sample of one bit over the depth each, and its residuals are
/// narrow enough to be stored as they are.
pub open spec fn is_escaped(residuals: Seq<i64>, depth: nat) -> bool {
    &&& rice_cost(residuals, best_param(residuals, depth)) > 5 + residuals.len() * (depth + 1)
    &&& raw_width(residuals) <= MAX_RAW_WIDTH
}

/// The parameter field of a partition.
pub open spec fn partition_param(residuals: Seq<i64>, depth: nat) -> nat {
    if is_escaped(residuals, depth) {
        escape_code(depth)
    } else {
        best_param(residuals, depth)
    }
}

/// The bits of a partition after its parameter field.
pub open spec fn partition_bits(residuals: Seq<i64>, depth: nat) -> Seq<bool> {
    if is_escaped(residuals, depth) {
        bits_of(raw_width(residuals) as int, 5) + raw_codes(residuals, raw_width(residuals))
    } else {
        rice_codes(residuals, best_param(residuals, depth))
    }
}

/// The number of bits of a partition after its parameter field.
pub open spec fn partition_cost(residuals: Seq<i64>, depth: nat) -> nat {
    if is_escaped(residuals, depth) {
        5 + residuals.len() * raw_width(residuals)
    } else {
        rice_cost(residuals, best_param(residuals, depth))
    }
}

/// A run of residuals stored as they are takes `width` bits each.
pub proof fn lemma_raw_codes_len(residuals: Seq<i64>, width: nat)
    ensures
        raw_codes(residuals, width).len() == residuals.len() * width,
    decreases residuals.len(),
{
    if residuals.len() > 0 {
        lemma_raw_codes_len(residuals.drop_last(), width);
        lemma_bits_of_len(residuals.last() as int, width);
        assert(residuals.len() * width == (residuals.len() - 1) * width + width)
            by (nonlinear_arith);
    } else {
        assert(residuals.len() * width == 0) by (nonlinear_arith)
            requires
                residuals.len() == 0,
        ;
    }
}

/// The bits of a partition are as many as its cost says: for each residual
/// of a Rice-coded partition the unary quotient, the stop bit and the
/// remainder; for an escaped partition the width field and the residuals.
pub proof fn lemma_partition_bits_len(residuals: Seq<i64>, depth: nat)
    ensures
        partition_bits(residuals, depth).len() == partition_cost(residuals, depth),
{
    if is_escaped(residuals, depth) {
        lemma_bits_of_len(raw_width(residuals) as int, 5);
        lemma_raw_codes_len(residuals, raw_width(residuals));
    } else {
        lemma_rice_codes_len(residuals, best_param(residuals, depth));
    }
}

/// The number of samples that each partition of order `po` spans.
pub open spec fn partition_size(n: nat, po: nat) -> nat {
    n / pow2(po)
}

/// Where partition `k` starts among the residuals. The first partition is
/// short of the `p` warm-up samples.
pub open spec fn partition_start(n: nat, p: nat, po: nat, k: nat) -> int {
    if k == 0 {
        0
    } else {
        k * partition_size(n, po) - p
    }
}

/// Where partition `k` ends among the residuals.
pub open spec fn partition_end(n: nat, p: nat, po: nat, k: nat) -> int {
    (k + 1) * partition_size(n, po) - p
}

/// The residuals of partition `k`.
pub open spec fn partition(residuals: Seq<i64>, n: nat, p: nat, po: nat, k: nat) -> Seq<i64> {
    residuals.subrange(partition_start(n, p, po, k), partition_end(n, p, po, k))
}

/// Whether a block of `n` samples under a predictor of order `p` can be cut
/// into `2^po` partitions: the block divides evenly and the first partition
/// is not empty.
pub open spec fn order_applies(n: nat, p: nat, po: nat) -> bool {
    &&& po <= MAX_PARTITION_ORDER
    &&& n % pow2(po) == 0
    &&& partition_size(n, po) > p
}

/// The bits that the first `count` partitions take after their parameter
/// fields.
pub open spec fn partitions_cost(
    residuals: Seq<i64>,
    n: nat,
    p: nat,
    po: nat,
    depth: nat,
    count: nat,
) -> nat
    decreases count,
{
    if count == 0 {
        0
    } else {
        partitions_cost(residuals, n, p, po, depth, (count - 1) as nat) + partition_cost(
            partition(residuals, n, p, po, (count - 1) as nat),
            depth,
        )
    }
}

/// The bits that the residuals take when cut into `2^po` partitions: the
/// order field, a parameter field for each partition, and the partitions.
pub open spec fn order_cost(residuals: Seq<i64>, n: nat, p: nat, po: nat, depth: nat) -> nat {
    4 + param_bits(depth) * pow2(po) + partitions_cost(residuals, n, p, po, depth, pow2(po))
}

/// Whether `po` is the partition order of least cost, the lowest such.
pub open spec fn is_best_order(residuals: Seq<i64>, n: nat, p: nat, depth: nat, po: nat) -> bool {
    &&& order_applies(n, p, po)
    &&& forall|o: nat| #[trigger]
        order_applies(n, p, o) ==> order_cost(residuals, n, p, po, depth) <= order_cost(
            residuals,
            n,
            p,
            o,
            depth,
        )
    &&& forall|o: nat|
        o < po && #[trigger] order_applies(n, p, o) ==> order_cost(residuals, n, p, po, depth)
            < order_cost(residuals, n, p, o, depth)
}

/// No two orders are both the best.
pub proof fn lemma_best_order_unique(
    residuals: Seq<i64>,
    n: nat,
    p: nat,
    depth: nat,
    a: nat,
    b: nat,
)
    requires
        is_best_order(residuals, n, p, depth, a),
        is_best_order(residuals, n, p, depth, b),
    ensures
        a == b,
{
}

/// The partition order of least cost, the lowest such.
pub open spec fn best_order(residuals: Seq<i64>, n: nat, p: nat, depth: nat) -> nat {
    choose|po: nat| is_best_order(residuals, n, p, depth, po)
}

/// The first `count` partitions of order `po`, each as its parameter field
/// and its bits.
pub open spec fn partitions_bits(
    residuals: Seq<i64>,
    n: nat,
    p: nat,
    po: nat,
    depth: nat,
    count: nat,
) -> Seq<bool>
    decreases count,
{
    if count == 0 {
        Seq::empty()
    } else {
        let part = partition(residuals, n, p, po, (count - 1) as nat);
        partitions_bits(residuals, n, p, po, depth, (count - 1) as nat) + bits_of(
            partition_param(part, depth) as int,
            param_bits(depth),
        ) + partition_bits(part, depth)
    }
}

/// The residual section of a subframe: two bits of coding method, four of
/// partition order, then the partitions of the best order.
pub open spec fn residual_section(residuals: Seq<i64>, n: nat, p: nat, depth: nat) -> Seq<bool> {
    let po = best_order(residuals, n, p, depth);
    bits_of(coding_method(depth) as int, 2) + bits_of(po as int, 4) + partitions_bits(
        residuals,
        n,
        p,
        po,
        depth,
        pow2(po),
    )
}

/// Whether `po` is the order that the residuals of a block are cut at: the
/// best order, or 0 where no order applies to the block.
pub open spec fn is_chosen_order(residuals: Seq<i64>, n: nat, p: nat, depth: nat, po: nat) -> bool {
    if order_applies(n, p, 0) {
        is_best_order(residuals, n, p, depth, po)
    } else {
        po == 0
    }
}

/// The number of partitions that a block is cut into at order `po`: `2^po`,
/// or none where no order applies to the block.
pub open spec fn chosen_count(n: nat, p: nat, po: nat) -> nat {
    if order_applies(n, p, 0) {
        pow2(po)
    } else {
        0
    }
}

/// The partitions of an order take the bits of their parameter fields and of
/// their costs.
pub proof fn lemma_partitions_bits_len(
    residuals: Seq<i64>,
    n: nat,
    p: nat,
    po: nat,
    depth: nat,
    count: nat,
)
    ensures
        partitions_bits(residuals, n, p, po, depth, count).len() == param_bits(depth) * count
            + partitions_cost(residuals, n, p, po, depth, count),
    decreases count,
{
    if count > 0 {
        let part = partition(residuals, n, p, po, (count - 1) as nat);
        lemma_partitions_bits_len(residuals, n, p, po, depth, (count - 1) as nat);
        lemma_partition_bits_len(part, depth);
        lemma_bits_of_len(partition_param(part, depth) as int, param_bits(depth));
        assert(param_bits(depth) * count == param_bits(depth) * (count - 1) + param_bits(depth))
            by (nonlinear_arith);
    }
}

/// The residual section of a subframe takes two bits of coding method and
/// the cost of the best partition order.
pub proof fn lemma_residual_section_len(residuals: Seq<i64>, n: nat, p: nat, depth: nat)
    ensures
        residual_section(residuals, n, p, depth).len() == 2 + order_cost(
            residuals,
            n,
            p,
            best_order(residuals, n, p, depth),
            depth,
        ),
{
    let po = best_order(residuals, n, p, depth);
    lemma_bits_of_len(coding_method(depth) as int, 2);
    lemma_bits_of_len(po as int, 4);
    lemma_partitions_bits_len(residuals, n, p, po, depth, pow2(po));
}

/// Whether `encoded` is the partition that holds `residuals`: its parameter
/// field, and its bits packed.
pub open spec fn is_partition_stream(
    encoded: RiceEncodedStream,
    residuals: Seq<i64>,
    depth: nat,
) -> bool {
    &&& encoded.param == partition_param(residuals, depth)
    &&& encoded.stream@ == pack(partition_bits(residuals, depth))
    &&& encoded.extra_bits_len == pad_len(partition_bits(residuals, depth).len())
}

/// The partitions of an order that applies lie within the residuals, one
/// after another, none of them empty, and the last ends where the residuals
/// end: together they hold one residual for each sample after the warm-up.
pub proof fn lemma_partition_bounds(n: nat, p: nat, po: nat, k: nat)
    requires
        order_applies(n, p, po),
        p <= n,
        k < pow2(po),
    ensures
        0 <= partition_start(n, p, po, k) < partition_end(n, p, po, k) <= n - p,
        partition_end(n, p, po, k) - partition_start(n, p, po, k) <= n,
        partition_start(n, p, po, k + 1) == partition_end(n, p, po, k),
        pow2(po) * partition_size(n, po) == n,
        k + 1 == pow2(po) ==> partition_end(n, p, po, k) == n - p,
{
    let size = partition_size(n, po);
    let count = pow2(po);
    vstd::arithmetic::power2::lemma_pow2_pos(po);
    vstd::arithmetic::div_mod::lemma_fundamental_div_mod(n as int, count as int);
    assert(count * size == n);
    assert((k + 1) * size <= count * size) by (nonlinear_arith)
        requires
            k + 1 <= count,
            size >= 0,
    ;
    if k >= 1 {
        assert(k * size >= size) by (nonlinear_arith)
            requires
                k >= 1,
                size >= 0,
        ;
    }
    assert((k + 1) * size == k * size + size) by (nonlinear_arith);
}

/// Where any order applies to a block, order 0 does.
pub proof fn lemma_order_zero_applies(n: nat, p: nat, po: nat)
    requires
        order_applies(n, p, po),
    ensures
        order_applies(n, p, 0),
{
    lemma2_to64();
    vstd::arithmetic::power2::lemma_pow2_pos(po);
    vstd::arithmetic::div_mod::lemma_div_nonincreasing(n as int, pow2(po) as int);
}

/// A multiple of a power of two is a multiple of every lower one.
pub proof fn lemma_pow2_divides_lower(n: nat, c: nat, order: nat, po: nat)
    requires
        n == c * pow2(order),
        po <= order,
    ensures
        n % pow2(po) == 0,
{
    vstd::arithmetic::power2::lemma_pow2_adds((order - po) as nat, po);
    vstd::arithmetic::power2::lemma_pow2_pos(po);
    let rest = pow2((order - po) as nat);
    assert(n == (c * rest) * pow2(po)) by (nonlinear_arith)
        requires
            n == c * pow2(order),
            pow2(order) == rest * pow2(po),
    ;
    vstd::arithmetic::div_mod::lemma_mod_multiples_basic((c * rest) as int, pow2(po) as int);
}

/// An odd multiple of a power of two is a multiple of no higher one.
pub proof fn lemma_pow2_divides_no_higher(n: nat, odd: nat, order: nat, po: nat)
    requires
        n == odd * pow2(order),
        odd % 2 == 1,
        po > order,
    ensures
        n % pow2(po) != 0,
{
    if n % pow2(po) == 0 {
        vstd::arithmetic::power2::lemma_pow2_pos(po);
        vstd::arithmetic::power2::lemma_pow2_pos(order);
        vstd::arithmetic::power2::lemma_pow2_adds((po - order - 1) as nat, 1);
        vstd::arithmetic::power2::lemma_pow2_adds((po - order) as nat, order);
        lemma2_to64();
        vstd::arithmetic::div_mod::lemma_fundamental_div_mod(n as int, pow2(po) as int);
        let q = n as int / pow2(po) as int;
        let t = q * pow2((po - order - 1) as nat);
        let unit = pow2(order) as int;
        assert(n == (2 * t) * unit) by (nonlinear_arith)
            requires
                n == pow2(po) * q,
                pow2(po) == pow2((po - order) as nat) * unit,
                pow2((po - order) as nat) == pow2((po - order - 1) as nat) * 2,
                t == q * pow2((po - order - 1) as nat),
        ;
        assert(odd == 2 * t) by (nonlinear_arith)
            requires
                odd * unit == (2 * t) * unit,
                unit > 0,
        ;
    }
}

/// The sum of the zigzag images of `residuals`.
fn zigzag_total(residuals: &Vec<i64>) -> (total: u128)
    ensures
        total == zigzag_sum(residuals@),
{
    let mut total: u128 = 0;
    let mut i: usize = 0;
    while i < residuals.len()
        invariant
            i <= residuals.len(),
            total == zigzag_sum(residuals@.take(i as int)),
            total <= i * 0x1_0000_0000_0000_0000,
        decreases residuals.len() - i,
    {
        proof {
            assert(residuals@.take(i + 1).drop_last() =~= residuals@.take(i as int));
        }
        total = total + RiceEncoderOptions::zigzag(residuals[i]) as u128;
        i = i + 1;
    }
    proof {
        assert(residuals@.take(i as int) =~= residuals@);
    }
    total
}

/// The integer logarithm of `x` to the base two, 0 for 0.
fn floor_log2(x: u128) -> (l: u8)
    ensures
        l == log(2, x as int),
{
    let mut l: u8 = 0;
    let mut rest: u128 = x;
    proof {
        vstd::arithmetic::logarithm::lemma_log_nonnegative(2, x as int);
        lemma2_to64();
        vstd::arithmetic::power2::lemma_pow2_adds(64, 64);
        vstd::arithmetic::power2::lemma_pow2(128);
        vstd::arithmetic::logarithm::lemma_log_pow(2, 128);
        vstd::arithmetic::logarithm::lemma_log_is_ordered(2, x as int, pow2(128) as int);
    }
    while rest > 1
        invariant
            l + log(2, rest as int) == log(2, x as int),
            log(2, x as int) <= 128,
        decreases rest,
    {
        proof {
            vstd::arithmetic::logarithm::lemma_log_s(2, rest as int);
            vstd::arithmetic::logarithm::lemma_log_nonnegative(2, rest as int / 2);
        }
        rest = rest / 2;
        l = l + 1;
    }
    proof {
        vstd::arithmetic::logarithm::lemma_log0(2, rest as int);
    }
    l
}

/// The number of binary digits of `v`.
fn bit_length_of(v: u64) -> (digits: u8)
    ensures
        digits == bit_length(v as nat),
        digits <= 64,
{
    let mut digits: u8 = 0;
    let mut rest: u64 = v;
    proof {
        lemma2_to64();
        vstd::arithmetic::power2::lemma2_to64_rest();
    }
    while rest > 0
        invariant
            digits <= 64,
            digits + bit_length(rest as nat) == bit_length(v as nat),
            (rest as int) < pow2((64 - digits) as nat),
        decreases rest,
    {
        proof {
            lemma2_to64();
            vstd::arithmetic::power2::lemma_pow2_unfold((64 - digits) as nat);
        }
        rest = rest / 2;
        digits = digits + 1;
    }
    digits
}

/// The least number of bits that hold every one of `residuals`.
fn raw_width_of(residuals: &Vec<i64>) -> (width: u8)
    ensures
        width == raw_width(residuals@),
        width <= 65,
{
    let mut width: u8 = 0;
    let mut i: usize = 0;
    while i < residuals.len()
        invariant
            i <= residuals.len(),
            width == raw_width(residuals@.take(i as int)),
            width <= 65,
        decreases residuals.len() - i,
    {
        proof {
            assert(residuals@.take(i + 1).drop_last() =~= residuals@.take(i as int));
        }
        let needed: u8 = bit_length_of(RiceEncoderOptions::zigzag(residuals[i]) / 2) + 1;
        if needed > width {
            width = needed;
        }
        i = i + 1;
    }
    proof {
        assert(residuals@.take(i as int) =~= residuals@);
    }
    width
}

/// The best Rice parameter of `residuals` and the bits that their codes
/// take under it.
fn best_rice_param(residuals: &Vec<i64>, bit_depth: u8) -> (choice: (u8, u128))
    requires
        residuals@.len() <= MAX_BLOCK_SIZE,
    ensures
        choice.0 == best_param(residuals@, bit_depth as nat),
        choice.0 <= max_param(bit_depth as nat),
        choice.1 == rice_cost(residuals@, choice.0 as nat),
{
    let n = residuals.len();
    let suggested: u8 = if n == 0 {
        0
    } else {
        floor_log2(zigzag_total(residuals) / (n as u128))
    };
    let top: u8 = if bit_depth <= 16 {
        14
    } else {
        30
    };
    let lo: u8 = if suggested == 0 {
        0
    } else if suggested - 1 > top {
        top
    } else {
        suggested - 1
    };
    let hi: u8 = if suggested >= top {
        top
    } else {
        suggested + 1
    };
    let mut best: u8 = lo;
    let mut best_bits: u128 = RiceEncoderOptions::bits_in_partition_exact(lo, n as u64, residuals);
    if lo + 1 <= hi {
        let bits = RiceEncoderOptions::bits_in_partition_exact(lo + 1, n as u64, residuals);
        if bits < best_bits {
            best = lo + 1;
            best_bits = bits;
        }
    }
    if lo + 2 <= hi {
        let bits = RiceEncoderOptions::bits_in_partition_exact(lo + 2, n as u64, residuals);
        if bits < best_bits {
            best = lo + 2;
            best_bits = bits;
        }
    }
    (best, best_bits)
}

/// The parameter field of the partition that holds `residuals`, and the bits
/// that the partition takes after it.
fn choose_partition_param(residuals: &Vec<i64>, bit_depth: u8) -> (choice: (u8, u128))
    requires
        residuals@.len() <= MAX_BLOCK_SIZE,
    ensures
        choice.0 == partition_param(residuals@, bit_depth as nat),
        choice.1 == partition_cost(residuals@, bit_depth as nat),
        choice.1 <= residuals@.len() * 0x2_0000_0000_0000_0000 + 5,
{
    let (param, bits) = best_rice_param(residuals, bit_depth);
    let width = raw_width_of(residuals);
    let n = residuals.len() as u128;
    proof {
        assert(n * (bit_depth as u128 + 1) <= 65535 * 256) by (nonlinear_arith)
            requires
                n <= 65535,
                bit_depth as u128 + 1 <= 256,
        ;
        assert(n * (width as u128) <= n * 65) by (nonlinear_arith)
            requires
                width <= 65,
        ;
        lemma_rice_cost_bound(residuals@, param as nat);
        let len = residuals@.len();
        let m = param as nat;
        assert(len * (0x1_0000_0000_0000_0000 + m) <= len * 0x2_0000_0000_0000_0000)
            by (nonlinear_arith)
            requires
                m <= 30,
        ;
        assert(len * 65 <= len * 0x2_0000_0000_0000_0000) by (nonlinear_arith);
    }
    let threshold: u128 = 5 + n * (bit_depth as u128 + 1);
    if bits > threshold && width <= MAX_RAW_WIDTH {
        let code: u8 = if bit_depth <= 16 {
            15
        } else {
            31
        };
        (code, 5 + n * (width as u128))
    } else {
        (param, bits)
    }
}

/// Appends `residuals` to `writer`, each in `width` bits of two's
/// complement.
pub fn write_raw_codes(writer: &mut BitstreamWriter, width: u8, residuals: &Vec<i64>)
    requires
        old(writer).wf(),
        width <= 64,
    ensures
        final(writer).wf(),
        final(writer)@ == old(writer)@ + raw_codes(residuals@, width as nat),
{
    let mut i: usize = 0;
    while i < residuals.len()
        invariant
            i <= residuals.len(),
            width <= 64,
            writer.wf(),
            writer@ == old(writer)@ + raw_codes(residuals@.take(i as int), width as nat),
        decreases residuals.len() - i,
    {
        proof {
            assert(residuals@.take(i + 1).drop_last() =~= residuals@.take(i as int));
        }
        writer.write_signed(residuals[i], width);
        i = i + 1;
    }
    proof {
        assert(residuals@.take(i as int) =~= residuals@);
    }
}

/// Appends to `writer` the bits of the partition that holds `residuals`,
/// after its parameter field.
pub fn write_partition_bits(writer: &mut BitstreamWriter, residuals: &Vec<i64>, bit_depth: u8)
    requires
        old(writer).wf(),
        residuals@.len() <= MAX_BLOCK_SIZE,
    ensures
        final(writer).wf(),
        final(writer)@ == old(writer)@ + partition_bits(residuals@, bit_depth as nat),
{
    let (param, _bits) = choose_partition_param(residuals, bit_depth);
    let escape: u8 = if bit_depth <= 16 {
        15
    } else {
        31
    };
    if param == escape {
        let width = raw_width_of(residuals);
        writer.write_bits(width as u64, 5);
        write_raw_codes(writer, width, residuals);
        proof {
            assert(writer@ =~= old(writer)@ + partition_bits(residuals@, bit_depth as nat));
        }
    } else {
        write_rice_codes(writer, param, residuals);
    }
}

/// The partition that holds `residuals`, encoded on its own.
pub fn encode_partition(residuals: &Vec<i64>, bit_depth: u8) -> (encoded: RiceEncodedStream)
    requires
        residuals@.len() <= MAX_BLOCK_SIZE,
    ensures
        is_partition_stream(encoded, residuals@, bit_depth as nat),
{
    let mut writer = BitstreamWriter::new();
    write_partition_bits(&mut writer, residuals, bit_depth);
    let (param, _bits) = choose_partition_param(residuals, bit_depth);
    proof {
        assert(writer@ =~= partition_bits(residuals@, bit_depth as nat));
    }
    RiceEncodedStream {
        stream: writer.bytes(),
        param,
        extra_bits_len: writer.unused_bits(),
    }
}

impl RiceEncoderOptions {
    /// Whether `residuals` can be what the coder was made for: the block is
    /// no larger than a frame can hold, and there is one residual for each
    /// sample after the warm-up.
    pub open spec fn takes(&self, residuals: Seq<i64>) -> bool {
        &&& self.num_samples() <= MAX_BLOCK_SIZE
        &&& residuals.len() == if self.num_samples() >= self.predictor_order() {
            self.num_samples() - self.predictor_order()
        } else {
            0
        }
    }

    /// The lowest partition order.
    pub fn min_rice_partition_order() -> (order: u8)
        ensures
            order == 0,
    {
        0
    }

    /// The highest partition order that divides a block evenly: the number
    /// of zero bits below the lowest one bit of the block size, at most 15.
    /// An odd block has only order 0.
    pub fn max_rice_partition_order(block_size: u64) -> (order: u8)
        ensures
            order <= MAX_PARTITION_ORDER,
            forall|po: nat| po <= order ==> block_size as nat % #[trigger] pow2(po) == 0,
            forall|po: nat|
                order < po && block_size > 0 ==> block_size as nat % #[trigger] pow2(po) != 0 || po
                    > MAX_PARTITION_ORDER,
    {
        let ghost n = block_size as nat;
        let mut block_size = block_size;
        let mut order: u8 = 0;
        proof {
            lemma2_to64();
        }
        while order < MAX_PARTITION_ORDER && block_size > 0 && block_size % 2 == 0
            invariant
                order <= MAX_PARTITION_ORDER,
                n == block_size * pow2(order as nat),
                n > 0 ==> block_size > 0,
            decreases MAX_PARTITION_ORDER - order,
        {
            proof {
                vstd::arithmetic::power2::lemma_pow2_unfold((order + 1) as nat);
                assert((block_size / 2) * (2 * pow2(order as nat)) == block_size * pow2(
                    order as nat,
                )) by (nonlinear_arith)
                    requires
                        block_size % 2 == 0,
                ;
            }
            block_size = block_size / 2;
            order = order + 1;
        }
        proof {
            assert forall|po: nat| po <= order implies n % #[trigger] pow2(po) == 0 by {
                lemma_pow2_divides_lower(n, block_size as nat, order as nat, po);
            }
            assert forall|po: nat| order < po && n > 0 implies n % #[trigger] pow2(po) != 0 || po
                > MAX_PARTITION_ORDER by {
                if order < MAX_PARTITION_ORDER {
                    lemma_pow2_divides_no_higher(n, block_size as nat, order as nat, po);
                }
            }
        }
        order
    }

    /// The parameter field of every partition of order `partition_order`,
    /// and the bits that the residuals take at that order; `None` where the
    /// order does not apply to the block.
    #[verifier::rlimit(40)]
    pub fn best_parameters(&self, partition_order: u8, residuals: &Vec<i64>) -> (found: Option<
        (Vec<u8>, u128),
    >)
        requires
            self.takes(residuals@),
        ensures
            found is Some <==> order_applies(
                self.num_samples() as nat,
                self.predictor_order() as nat,
                partition_order as nat,
            ),
            found matches Some((params, bits)) ==> {
                &&& params@.len() == pow2(partition_order as nat)
                &&& bits == order_cost(
                    residuals@,
                    self.num_samples() as nat,
                    self.predictor_order() as nat,
                    partition_order as nat,
                    self.bit_depth() as nat,
                )
                &&& forall|k: nat|
                    k < params@.len() ==> #[trigger] params@[k as int] == partition_param(
                        partition(
                            residuals@,
                            self.num_samples() as nat,
                            self.predictor_order() as nat,
                            partition_order as nat,
                            k,
                        ),
                        self.bit_depth() as nat,
                    )
            },
    {
        let ghost n = self.num_samples as nat;
        let ghost p = self.predictor_order as nat;
        let ghost po = partition_order as nat;
        let ghost depth = self.bit_depth as nat;
        if partition_order > MAX_PARTITION_ORDER {
            return None;
        }
        proof {
            lemma2_to64();
            if po < 15 {
                vstd::arithmetic::power2::lemma_pow2_strictly_increases(po, 15);
            }
            vstd::bits::lemma_u64_shl_is_mul(1, partition_order as u64);
            vstd::bits::lemma_u64_shr_is_div(self.num_samples, partition_order as u64);
        }
        let count: u64 = 1u64 << partition_order;
        if self.num_samples % count != 0 {
            return None;
        }
        let size: u64 = self.num_samples >> partition_order;
        if size <= self.predictor_order as u64 {
            return None;
        }
        let param_width: u128 = if self.bit_depth <= 16 {
            4
        } else {
            5
        };
        let mut params: Vec<u8> = Vec::new();
        let mut bits: u128 = 0;
        let mut k: u64 = 0;
        let mut start: usize = 0;
        let mut end: usize = (size - self.predictor_order as u64) as usize;
        proof {
            vstd::arithmetic::div_mod::lemma_div_nonincreasing(n as int, pow2(po) as int);
            assert((0 + 1) * partition_size(n, po) == partition_size(n, po)) by (nonlinear_arith);
        }
        while k < count
            invariant
                k <= count,
                count == pow2(po),
                count <= 32768,
                size == partition_size(n, po),
                order_applies(n, p, po),
                p <= n <= MAX_BLOCK_SIZE,
                residuals@.len() == n - p,
                n == self.num_samples,
                p == self.predictor_order,
                depth == self.bit_depth,
                start == partition_start(n, p, po, k as nat),
                k < count ==> end == partition_end(n, p, po, k as nat),
                params@.len() == k,
                bits == partitions_cost(residuals@, n, p, po, depth, k as nat),
                bits <= k * 0x4_0000_0000_0000_0000_0000,
                forall|j: nat|
                    j < k ==> #[trigger] params@[j as int] == partition_param(
                        partition(residuals@, n, p, po, j),
                        depth,
                    ),
            decreases count - k,
        {
            proof {
                lemma_partition_bounds(n, p, po, k as nat);
                if k + 1 < count {
                    lemma_partition_bounds(n, p, po, (k + 1) as nat);
                }
            }
            let part = copy_range(residuals, start, end);
            let (param, cost) = choose_partition_param(&part, self.bit_depth);
            params.push(param);
            bits = bits + cost;
            k = k + 1;
            start = end;
            if k < count {
                end = end + size as usize;
                proof {
                    assert((k + 1) * size == k * size + size) by (nonlinear_arith);
                }
            }
        }
        proof {
            assert(param_width * (count as u128) <= 5 * 32768) by (nonlinear_arith)
                requires
                    param_width <= 5,
                    count <= 32768,
            ;
        }
        Some((params, 4 + param_width * (count as u128) + bits))
    }

    /// Whether `po` is the order that the coder cuts `residuals` at: the
    /// best order, or 0 where no order applies to the block.
    pub open spec fn cuts_at(&self, residuals: Seq<i64>, po: nat) -> bool {
        is_chosen_order(
            residuals,
            self.num_samples() as nat,
            self.predictor_order() as nat,
            self.bit_depth() as nat,
            po,
        )
    }

    /// The number of partitions that the coder cuts a block into at order
    /// `po`: `2^po`, or none where no order applies to the block.
    pub open spec fn partition_count(&self, po: nat) -> nat {
        chosen_count(self.num_samples() as nat, self.predictor_order() as nat, po)
    }

    /// The partition order of least cost, and the parameter field of each of
    /// its partitions. Where no order applies to the block there are no
    /// partitions, and the order is 0.
    pub fn best_partition_and_params(&self, residuals: &Vec<i64>) -> (best: (Vec<u8>, u8))
        requires
            self.takes(residuals@),
        ensures
            self.cuts_at(residuals@, best.1 as nat),
            best.0@.len() == self.partition_count(best.1 as nat),
            forall|k: nat|
                k < best.0@.len() ==> #[trigger] best.0@[k as int] == partition_param(
                    partition(
                        residuals@,
                        self.num_samples() as nat,
                        self.predictor_order() as nat,
                        best.1 as nat,
                        k,
                    ),
                    self.bit_depth() as nat,
                ),
    {
        let ghost n = self.num_samples as nat;
        let ghost p = self.predictor_order as nat;
        let ghost depth = self.bit_depth as nat;
        let mut best_params: Vec<u8> = Vec::new();
        let mut best_order: u8 = 0;
        let mut best_bits: u128 = 0;
        let mut found = false;
        let last = Self::max_rice_partition_order(self.num_samples);
        let mut order: u8 = Self::min_rice_partition_order();
        while order <= last
            invariant
                order <= last + 1,
                last <= MAX_PARTITION_ORDER,
                self.takes(residuals@),
                n == self.num_samples,
                p == self.predictor_order,
                depth == self.bit_depth,
                !found ==> best_params@.len() == 0 && best_order == 0,
                !found ==> forall|o: nat| o < order ==> !#[trigger] order_applies(n, p, o),
                found ==> {
                    &&& best_order < order
                    &&& order_applies(n, p, best_order as nat)
                    &&& best_bits == order_cost(residuals@, n, p, best_order as nat, depth)
                    &&& best_params@.len() == pow2(best_order as nat)
                    &&& forall|k: nat|
                        k < best_params@.len() ==> #[trigger] best_params@[k as int]
                            == partition_param(
                            partition(residuals@, n, p, best_order as nat, k),
                            depth,
                        )
                    &&& forall|o: nat|
                        o < order && #[trigger] order_applies(n, p, o) ==> best_bits <= order_cost(
                            residuals@,
                            n,
                            p,
                            o,
                            depth,
                        )
                    &&& forall|o: nat|
                        o < best_order && #[trigger] order_applies(n, p, o) ==> best_bits
                            < order_cost(residuals@, n, p, o, depth)
                },
            decreases last + 1 - order,
        {
            match self.best_parameters(order, residuals) {
                Some((params, bits)) => {
                    if !found || bits < best_bits {
                        best_params = params;
                        best_order = order;
                        best_bits = bits;
                        found = true;
                    }
                },
                None => {},
            }
            order = order + 1;
        }
        proof {
            assert forall|o: nat| o > last implies !#[trigger] order_applies(n, p, o) by {
                if n == 0 {
                    vstd::arithmetic::power2::lemma_pow2_pos(o);
                    vstd::arithmetic::div_mod::lemma_div_of0(pow2(o) as int);
                } else {
                    assert(n % pow2(o) != 0 || o > MAX_PARTITION_ORDER);
                }
            }
            if found {
                assert(order_applies(n, p, 0)) by {
                    lemma_order_zero_applies(n, p, best_order as nat);
                }
            }
        }
        (best_params, best_order)
    }

    /// The residuals cut at the best partition order, each partition
    /// encoded on its own, and the order. Where no order applies to the
    /// block there are no partitions, and the order is 0.
    #[verifier::rlimit(40)]
    pub fn encode_by_partition(&self, residuals: &Vec<i64>) -> (encoded: (
        Vec<RiceEncodedStream>,
        u8,
    ))
        requires
            self.takes(residuals@),
        ensures
            self.cuts_at(residuals@, encoded.1 as nat),
            encoded.0@.len() == self.partition_count(encoded.1 as nat),
            forall|k: nat|
                k < encoded.0@.len() ==> is_partition_stream(
                    #[trigger] encoded.0@[k as int],
                    partition(
                        residuals@,
                        self.num_samples() as nat,
                        self.predictor_order() as nat,
                        encoded.1 as nat,
                        k,
                    ),
                    self.bit_depth() as nat,
                ),
    {
        let ghost n = self.num_samples as nat;
        let ghost p = self.predictor_order as nat;
        let ghost depth = self.bit_depth as nat;
        let (params, order) = self.best_partition_and_params(residuals);
        let ghost po = order as nat;
        let mut streams: Vec<RiceEncodedStream> = Vec::new();
        let count = params.len();
        proof {
            vstd::arithmetic::power2::lemma_pow2_pos(po);
        }
        if count == 0 {
            return (streams, order);
        }
        proof {
            lemma2_to64();
            if po < 15 {
                vstd::arithmetic::power2::lemma_pow2_strictly_increases(po, 15);
            }
            vstd::bits::lemma_u64_shr_is_div(self.num_samples, order as u64);
            vstd::arithmetic::div_mod::lemma_div_nonincreasing(n as int, pow2(po) as int);
            assert((0 + 1) * partition_size(n, po) == partition_size(n, po)) by (nonlinear_arith);
        }
        let size: u64 = self.num_samples >> order;
        let mut k: usize = 0;
        let mut start: usize = 0;
        let mut end: usize = (size - self.predictor_order as u64) as usize;
        while k < count
            invariant
                k <= count,
                count == pow2(po),
                size == partition_size(n, po),
                order_applies(n, p, po),
                p <= n <= MAX_BLOCK_SIZE,
                residuals@.len() == n - p,
                n == self.num_samples,
                p == self.predictor_order,
                depth == self.bit_depth,
                start == partition_start(n, p, po, k as nat),
                k < count ==> end == partition_end(n, p, po, k as nat),
                streams@.len() == k,
                forall|j: nat|
                    j < k ==> is_partition_stream(
                        #[trigger] streams@[j as int],
                        partition(residuals@, n, p, po, j),
                        depth,
                    ),
            decreases count - k,
        {
            proof {
                lemma_partition_bounds(n, p, po, k as nat);
                if k + 1 < count {
                    lemma_partition_bounds(n, p, po, (k + 1) as nat);
                }
            }
            let part = copy_range(residuals, start, end);
            let stream = encode_partition(&part, self.bit_depth);
            streams.push(stream);
            k = k + 1;
            start = end;
            if k < count {
                end = end + size as usize;
                proof {
                    assert((k + 1) * size == k * size + size) by (nonlinear_arith);
                }
            }
        }
        (streams, order)
    }

    /// Appends the residual section of a subframe to `writer`.
    pub fn write_residual_section(&self, writer: &mut BitstreamWriter, residuals: &Vec<i64>)
        requires
            old(writer).wf(),
            self.takes(residuals@),
            self.predictor_order() < self.num_samples(),
        ensures
            final(writer).wf(),
            final(writer)@ == old(writer)@ + residual_section(
                residuals@,
                self.num_samples() as nat,
                self.predictor_order() as nat,
                self.bit_depth() as nat,
            ),
    {
        let ghost n = self.num_samples as nat;
        let ghost p = self.predictor_order as nat;
        let ghost depth = self.bit_depth as nat;
        proof {
            lemma2_to64();
            assert(order_applies(n, p, 0));
        }
        let (streams, order) = self.encode_by_partition(residuals);
        let ghost po = order as nat;
        proof {
            lemma_best_order_unique(residuals@, n, p, depth, po, best_order(residuals@, n, p, depth));
        }
        let method: u64 = if self.bit_depth <= 16 {
            0
        } else {
            1
        };
        let width: u8 = if self.bit_depth <= 16 {
            4
        } else {
            5
        };
        writer.write_bits(method, 2);
        writer.write_bits(order as u64, 4);
        let ghost start = writer@;
        let mut k: usize = 0;
        while k < streams.len()
            invariant
                k <= streams@.len(),
                streams@.len() == pow2(po),
                width == param_bits(depth),
                writer.wf(),
                writer@ == start + partitions_bits(residuals@, n, p, po, depth, k as nat),
                forall|j: nat|
                    j < streams@.len() ==> is_partition_stream(
                        #[trigger] streams@[j as int],
                        partition(residuals@, n, p, po, j),
                        depth,
                    ),
            decreases streams@.len() - k,
        {
            let stream = &streams[k];
            proof {
                let part = partition(residuals@, n, p, po, k as nat);
                assert(is_partition_stream(streams@[k as int], part, depth));
                lemma_unpack_pack(partition_bits(part, depth));
                crate::flac::bitstream::lemma_pack_len(partition_bits(part, depth));
            }
            writer.write_bits(stream.param as u64, width);
            writer.write_stream(&stream.stream, stream.extra_bits_len);
            k = k + 1;
        }
        proof {
            assert(writer@ =~= old(writer)@ + residual_section(residuals@, n, p, depth));
        }
    }
}

} // verus!
