//! Nothing is lost: the bits of a frame determine the samples that went
//! into it. Every field of a subframe tells where it ends, so that the
//! fields can be told apart, and every field holds its value whole.

use crate::flac::bitstream::{
    bits_of, bytes_bits, lemma_bits_of_len, lemma_bits_of_pack, lemma_bits_value_of_any,
    lemma_bytes_bits_concat, lemma_bytes_bits_determine_bytes, lemma_signed_value_of, pack,
    pad_len, unary, zeros,
};
use crate::flac::encoder::crc::{crc16, FRAME_CRC16_POLY};
use crate::flac::encoder::rice::partition::{
    best_order, best_param, bit_length, coding_method, escape_code, is_best_order, is_escaped,
    lemma_best_param_is_best, lemma_partition_bounds, lowest_candidate, order_applies,
    order_cost, param_bits, partition, partition_bits, partition_end, partition_param,
    partition_start, partitions_bits, raw_codes, raw_width, residual_section, signed_width,
};
use crate::flac::encoder::rice::{
    lemma_rice_codes_are_prefix_free, lemma_unary_is_prefix_free, zigzag, MAX_PARTITION_ORDER,
};
use crate::flac::frame::{crc16_bytes, subframes_bits, FlacFrame};
use crate::flac::stereo::ChannelAssignment;
use crate::flac::bitstream::lemma_unpack_pack;
use crate::flac::stream::{block_of, lemma_streaminfo_len, stream_head, StreamInfo};
use crate::flac::writer::{
    block_sizes, channel_blocks, frame_bytes_at, frame_sizes, frames_bytes, greatest_of,
    is_frame_count, is_pcm_stream, is_stream_frame, EncodedStream,
};
use crate::flac::lpc::fixed::{
    fixed_residual, fixed_residuals, lemma_fixed_residuals_determine_block,
};
use crate::flac::lpc::var::{
    coefs_fit, in_coef_range, lemma_coefs_fit_widest, lemma_div_keeps_bound,
    lemma_lpc_dot_bound, lemma_lpc_residuals_determine_block, lpc_dot, lpc_residual,
    lpc_residuals,
};
use crate::flac::lpc::{as_i64s, in_sample_range};
use crate::flac::stereo::{lemma_assignment_loses_nothing, mid_channel, side_channel};
use crate::flac::subframe::{
    fits_depth, fixed_body, legal_block, lemma_legal_in_sample_range, lemma_shifted_fits,
    lemma_wasted_bits_are_zero, lpc_body, shifted, subframe_header, wasted_bits, FlacSubframe,
    FlacSubframeType,
};
use vstd::arithmetic::power2::{lemma2_to64, lemma_pow2_pos, lemma_pow2_unfold, pow2};
use vstd::prelude::*;

verus! {

/// Whether `value` fits a signed number of `width` bits.
pub open spec fn fits_signed(value: int, width: nat) -> bool {
    width >= 1 && -pow2((width - 1) as nat) <= value < pow2((width - 1) as nat)
}

/// Whether every one of `values` fits a signed number of `width` bits.
pub open spec fn all_fit_signed(values: Seq<i64>, width: nat) -> bool {
    forall|i: int| 0 <= i < values.len() ==> fits_signed(#[trigger] values[i] as int, width)
}

/// Two bit sequences that open with fields of one width and are equal open
/// with the same field and go on alike.
pub proof fn lemma_field_is_prefix_free(
    x: int,
    rest1: Seq<bool>,
    y: int,
    rest2: Seq<bool>,
    width: nat,
)
    requires
        bits_of(x, width) + rest1 == bits_of(y, width) + rest2,
    ensures
        bits_of(x, width) == bits_of(y, width),
        x % (pow2(width) as int) == y % (pow2(width) as int),
        rest1 == rest2,
{
    let fx = bits_of(x, width);
    let fy = bits_of(y, width);
    lemma_bits_of_len(x, width);
    lemma_bits_of_len(y, width);
    assert(fx =~= (fx + rest1).take(width as int));
    assert(fy =~= (fy + rest2).take(width as int));
    assert(rest1 =~= (fx + rest1).skip(width as int));
    assert(rest2 =~= (fy + rest2).skip(width as int));
    lemma_bits_value_of_any(x, width);
    lemma_bits_value_of_any(y, width);
}

/// A field holds a natural number below two to its width whole.
pub proof fn lemma_unsigned_field_is_prefix_free(
    x: int,
    rest1: Seq<bool>,
    y: int,
    rest2: Seq<bool>,
    width: nat,
)
    requires
        0 <= x < pow2(width),
        0 <= y < pow2(width),
        bits_of(x, width) + rest1 == bits_of(y, width) + rest2,
    ensures
        x == y,
        rest1 == rest2,
{
    lemma_field_is_prefix_free(x, rest1, y, rest2, width);
    lemma_pow2_pos(width);
    vstd::arithmetic::div_mod::lemma_small_mod(x as nat, pow2(width));
    vstd::arithmetic::div_mod::lemma_small_mod(y as nat, pow2(width));
}

/// A field holds a signed number that fits its width whole.
pub proof fn lemma_signed_field_is_prefix_free(
    x: int,
    rest1: Seq<bool>,
    y: int,
    rest2: Seq<bool>,
    width: nat,
)
    requires
        fits_signed(x, width),
        fits_signed(y, width),
        bits_of(x, width) + rest1 == bits_of(y, width) + rest2,
    ensures
        x == y,
        rest1 == rest2,
{
    lemma_field_is_prefix_free(x, rest1, y, rest2, width);
    lemma_signed_value_of(x, width);
    lemma_signed_value_of(y, width);
}

/// Two runs of as many numbers that fit one width, stored as they are, are
/// the same run where their bits are the same, whatever follows.
pub proof fn lemma_raw_codes_are_prefix_free(
    a: Seq<i64>,
    rest1: Seq<bool>,
    b: Seq<i64>,
    rest2: Seq<bool>,
    width: nat,
)
    requires
        a.len() == b.len(),
        all_fit_signed(a, width),
        all_fit_signed(b, width),
        raw_codes(a, width) + rest1 == raw_codes(b, width) + rest2,
    ensures
        a == b,
        rest1 == rest2,
    decreases a.len(),
{
    if a.len() > 0 {
        let a_front = a.drop_last();
        let b_front = b.drop_last();
        let a_last = bits_of(a.last() as int, width);
        let b_last = bits_of(b.last() as int, width);
        assert(raw_codes(a, width) + rest1 =~= raw_codes(a_front, width) + (a_last + rest1));
        assert(raw_codes(b, width) + rest2 =~= raw_codes(b_front, width) + (b_last + rest2));
        lemma_raw_codes_are_prefix_free(a_front, a_last + rest1, b_front, b_last + rest2, width);
        assert(fits_signed(a.last() as int, width));
        assert(fits_signed(b.last() as int, width));
        lemma_signed_field_is_prefix_free(a.last() as int, rest1, b.last() as int, rest2, width);
        assert(a =~= a_front.push(a.last()));
        assert(b =~= b_front.push(b.last()));
    } else {
        assert(raw_codes(a, width) + rest1 =~= rest1);
        assert(raw_codes(b, width) + rest2 =~= rest2);
        assert(a =~= b);
    }
}

/// A number has at most `k` binary digits where it is below `2^k`.
pub proof fn lemma_bit_length_bound(v: nat, k: nat)
    requires
        bit_length(v) <= k,
    ensures
        v < pow2(k),
    decreases v,
{
    lemma2_to64();
    if v > 0 {
        lemma_pow2_unfold(k);
        lemma_bit_length_bound(v / 2, (k - 1) as nat);
    } else {
        lemma_pow2_pos(k);
    }
}

/// Every residual of a run fits the width of the run.
pub proof fn lemma_raw_width_fits(residuals: Seq<i64>)
    ensures
        all_fit_signed(residuals, raw_width(residuals)),
    decreases residuals.len(),
{
    if residuals.len() > 0 {
        let width = raw_width(residuals);
        let front = residuals.drop_last();
        lemma_raw_width_fits(front);
        assert forall|i: int| 0 <= i < residuals.len() implies fits_signed(
            #[trigger] residuals[i] as int,
            width,
        ) by {
            let r = residuals[i] as int;
            if i < residuals.len() - 1 {
                assert(fits_signed(front[i] as int, raw_width(front)));
                if raw_width(front) < width {
                    vstd::arithmetic::power2::lemma_pow2_strictly_increases(
                        (raw_width(front) - 1) as nat,
                        (width - 1) as nat,
                    );
                }
            } else {
                assert(signed_width(r) <= width);
                lemma_bit_length_bound(zigzag(r) / 2, (width - 1) as nat);
            }
        }
    }
}

/// The parameter field of a partition holds its value whole, and the value
/// tells whether the partition is escaped.
pub proof fn lemma_partition_param_bound(residuals: Seq<i64>, depth: nat)
    ensures
        partition_param(residuals, depth) < pow2(param_bits(depth)),
        best_param(residuals, depth) < escape_code(depth),
        is_escaped(residuals, depth) <==> partition_param(residuals, depth) == escape_code(depth),
{
    lemma2_to64();
    lemma_best_param_is_best(
        residuals,
        depth,
        lowest_candidate(residuals, depth),
    );
}

/// Two partitions of as many residuals are the same where their bits,
/// parameter field and all, are the same, whatever follows.
pub proof fn lemma_partition_is_prefix_free(
    a: Seq<i64>,
    rest1: Seq<bool>,
    b: Seq<i64>,
    rest2: Seq<bool>,
    depth: nat,
)
    requires
        a.len() == b.len(),
        bits_of(partition_param(a, depth) as int, param_bits(depth)) + partition_bits(a, depth)
            + rest1 == bits_of(partition_param(b, depth) as int, param_bits(depth))
            + partition_bits(b, depth) + rest2,
    ensures
        a == b,
        rest1 == rest2,
{
    let width = param_bits(depth);
    let pa = partition_param(a, depth) as int;
    let pb = partition_param(b, depth) as int;
    lemma_partition_param_bound(a, depth);
    lemma_partition_param_bound(b, depth);
    assert(bits_of(pa, width) + partition_bits(a, depth) + rest1 =~= bits_of(pa, width) + (
    partition_bits(a, depth) + rest1));
    assert(bits_of(pb, width) + partition_bits(b, depth) + rest2 =~= bits_of(pb, width) + (
    partition_bits(b, depth) + rest2));
    lemma_unsigned_field_is_prefix_free(
        pa,
        partition_bits(a, depth) + rest1,
        pb,
        partition_bits(b, depth) + rest2,
        width,
    );
    if is_escaped(a, depth) {
        let wa = raw_width(a);
        let wb = raw_width(b);
        lemma2_to64();
        assert(partition_bits(a, depth) + rest1 =~= bits_of(wa as int, 5) + (raw_codes(a, wa)
            + rest1));
        assert(partition_bits(b, depth) + rest2 =~= bits_of(wb as int, 5) + (raw_codes(b, wb)
            + rest2));
        lemma_unsigned_field_is_prefix_free(
            wa as int,
            raw_codes(a, wa) + rest1,
            wb as int,
            raw_codes(b, wb) + rest2,
            5,
        );
        lemma_raw_width_fits(a);
        lemma_raw_width_fits(b);
        lemma_raw_codes_are_prefix_free(a, rest1, b, rest2, wa);
    } else {
        lemma_rice_codes_are_prefix_free(a, rest1, b, rest2, best_param(a, depth));
    }
}

/// Two runs of residuals of one block are the same up to the end of
/// partition `count - 1` where the bits of their first `count` partitions
/// are the same, whatever follows.
pub proof fn lemma_partitions_are_prefix_free(
    a: Seq<i64>,
    rest1: Seq<bool>,
    b: Seq<i64>,
    rest2: Seq<bool>,
    n: nat,
    p: nat,
    po: nat,
    depth: nat,
    count: nat,
)
    requires
        order_applies(n, p, po),
        p <= n,
        a.len() == n - p,
        b.len() == n - p,
        count <= pow2(po),
        partitions_bits(a, n, p, po, depth, count) + rest1 == partitions_bits(
            b,
            n,
            p,
            po,
            depth,
            count,
        ) + rest2,
    ensures
        rest1 == rest2,
        count > 0 ==> a.subrange(0, partition_end(n, p, po, (count - 1) as nat)) == b.subrange(
            0,
            partition_end(n, p, po, (count - 1) as nat),
        ),
    decreases count,
{
    if count == 0 {
        assert(partitions_bits(a, n, p, po, depth, 0) + rest1 =~= rest1);
        assert(partitions_bits(b, n, p, po, depth, 0) + rest2 =~= rest2);
    } else {
        let k = (count - 1) as nat;
        let part_a = partition(a, n, p, po, k);
        let part_b = partition(b, n, p, po, k);
        let width = param_bits(depth);
        let last_a = bits_of(partition_param(part_a, depth) as int, width) + partition_bits(
            part_a,
            depth,
        );
        let last_b = bits_of(partition_param(part_b, depth) as int, width) + partition_bits(
            part_b,
            depth,
        );
        assert(partitions_bits(a, n, p, po, depth, count) + rest1 =~= partitions_bits(
            a,
            n,
            p,
            po,
            depth,
            k,
        ) + (last_a + rest1));
        assert(partitions_bits(b, n, p, po, depth, count) + rest2 =~= partitions_bits(
            b,
            n,
            p,
            po,
            depth,
            k,
        ) + (last_b + rest2));
        lemma_partitions_are_prefix_free(a, last_a + rest1, b, last_b + rest2, n, p, po, depth, k);
        lemma_partition_bounds(n, p, po, k);
        lemma_partition_is_prefix_free(part_a, rest1, part_b, rest2, depth);
        let start = partition_start(n, p, po, k);
        let end = partition_end(n, p, po, k);
        if k > 0 {
            lemma_partition_bounds(n, p, po, (k - 1) as nat);
            assert(a.subrange(0, end) =~= a.subrange(0, start) + part_a);
            assert(b.subrange(0, end) =~= b.subrange(0, start) + part_b);
        } else {
            assert(a.subrange(0, end) =~= part_a);
            assert(b.subrange(0, end) =~= part_b);
        }
    }
}

/// Of the orders below `limit` that apply to a block, one is the cheapest,
/// the lowest such.
proof fn lemma_best_order_below(residuals: Seq<i64>, n: nat, p: nat, depth: nat, limit: nat) -> (best:
    nat)
    requires
        order_applies(n, p, 0),
        limit >= 1,
    ensures
        best < limit,
        order_applies(n, p, best),
        forall|o: nat|
            o < limit && #[trigger] order_applies(n, p, o) ==> order_cost(
                residuals,
                n,
                p,
                best,
                depth,
            ) <= order_cost(residuals, n, p, o, depth),
        forall|o: nat|
            o < best && #[trigger] order_applies(n, p, o) ==> order_cost(
                residuals,
                n,
                p,
                best,
                depth,
            ) < order_cost(residuals, n, p, o, depth),
    decreases limit,
{
    if limit == 1 {
        0
    } else {
        let before = lemma_best_order_below(residuals, n, p, depth, (limit - 1) as nat);
        let o = (limit - 1) as nat;
        if order_applies(n, p, o) && order_cost(residuals, n, p, o, depth) < order_cost(
            residuals,
            n,
            p,
            before,
            depth,
        ) {
            o
        } else {
            before
        }
    }
}

/// Where any order applies to a block, there is a best order.
pub proof fn lemma_best_order_exists(residuals: Seq<i64>, n: nat, p: nat, depth: nat)
    requires
        order_applies(n, p, 0),
    ensures
        is_best_order(residuals, n, p, depth, best_order(residuals, n, p, depth)),
{
    let best = lemma_best_order_below(
        residuals,
        n,
        p,
        depth,
        (MAX_PARTITION_ORDER + 1) as nat,
    );
    assert(is_best_order(residuals, n, p, depth, best));
}

/// The best order of a block with residuals applies to the block.
pub proof fn lemma_best_order_applies(residuals: Seq<i64>, n: nat, p: nat, depth: nat)
    requires
        p < n,
    ensures
        order_applies(n, p, best_order(residuals, n, p, depth)),
        best_order(residuals, n, p, depth) < 16,
        pow2(best_order(residuals, n, p, depth)) >= 1,
{
    lemma2_to64();
    assert(order_applies(n, p, 0));
    lemma_best_order_exists(residuals, n, p, depth);
    lemma_pow2_pos(best_order(residuals, n, p, depth));
}

/// A residual section is its method, its order and its partitions.
proof fn lemma_residual_section_parts(
    residuals: Seq<i64>,
    rest: Seq<bool>,
    n: nat,
    p: nat,
    depth: nat,
)
    ensures
        residual_section(residuals, n, p, depth) + rest == bits_of(
            coding_method(depth) as int,
            2,
        ) + (bits_of(best_order(residuals, n, p, depth) as int, 4) + (partitions_bits(
            residuals,
            n,
            p,
            best_order(residuals, n, p, depth),
            depth,
            pow2(best_order(residuals, n, p, depth)),
        ) + rest)),
{
    let po = best_order(residuals, n, p, depth);
    let parts = partitions_bits(residuals, n, p, po, depth, pow2(po));
    assert(residual_section(residuals, n, p, depth) + rest =~= bits_of(
        coding_method(depth) as int,
        2,
    ) + (bits_of(po as int, 4) + (parts + rest)));
}

/// Two runs of residuals of one block are the same where their residual
/// sections are the same, whatever follows.
pub proof fn lemma_residual_section_is_prefix_free(
    a: Seq<i64>,
    rest1: Seq<bool>,
    b: Seq<i64>,
    rest2: Seq<bool>,
    n: nat,
    p: nat,
    depth: nat,
)
    requires
        p < n,
        a.len() == n - p,
        b.len() == n - p,
        residual_section(a, n, p, depth) + rest1 == residual_section(b, n, p, depth) + rest2,
    ensures
        a == b,
        rest1 == rest2,
{
    lemma_best_order_applies(a, n, p, depth);
    lemma_best_order_applies(b, n, p, depth);
    let po_a = best_order(a, n, p, depth);
    let po_b = best_order(b, n, p, depth);
    let method = coding_method(depth) as int;
    let parts_a = partitions_bits(a, n, p, po_a, depth, pow2(po_a));
    let parts_b = partitions_bits(b, n, p, po_b, depth, pow2(po_b));
    lemma_residual_section_parts(a, rest1, n, p, depth);
    lemma_residual_section_parts(b, rest2, n, p, depth);
    lemma_field_is_prefix_free(
        method,
        bits_of(po_a as int, 4) + (parts_a + rest1),
        method,
        bits_of(po_b as int, 4) + (parts_b + rest2),
        2,
    );
    assert(pow2(4) == 16) by {
        lemma2_to64();
    }
    lemma_unsigned_field_is_prefix_free(
        po_a as int,
        parts_a + rest1,
        po_b as int,
        parts_b + rest2,
        4,
    );
    lemma_partitions_are_prefix_free(a, rest1, b, rest2, n, p, po_a, depth, pow2(po_a));
    lemma_partition_bounds(n, p, po_a, (pow2(po_a) - 1) as nat);
    assert(a =~= a.subrange(0, (n - p) as int));
    assert(b =~= b.subrange(0, (n - p) as int));
}

/// Two subframe headers are the same, type and wasted bits, where two bit
/// sequences that open with them are equal, and the sequences go on alike.
pub proof fn lemma_header_is_prefix_free(
    code1: nat,
    wasted1: nat,
    rest1: Seq<bool>,
    code2: nat,
    wasted2: nat,
    rest2: Seq<bool>,
)
    requires
        code1 < 64,
        code2 < 64,
        subframe_header(code1, wasted1) + rest1 == subframe_header(code2, wasted2) + rest2,
    ensures
        code1 == code2,
        wasted1 == wasted2,
        rest1 == rest2,
{
    lemma2_to64();
    let tail1 = if wasted1 == 0 {
        seq![false]
    } else {
        seq![true] + unary((wasted1 - 1) as nat)
    };
    let tail2 = if wasted2 == 0 {
        seq![false]
    } else {
        seq![true] + unary((wasted2 - 1) as nat)
    };
    let all1 = subframe_header(code1, wasted1) + rest1;
    let all2 = subframe_header(code2, wasted2) + rest2;
    let after1 = bits_of(code1 as int, 6) + (tail1 + rest1);
    let after2 = bits_of(code2 as int, 6) + (tail2 + rest2);
    assert(all1 =~= seq![false] + after1);
    assert(all2 =~= seq![false] + after2);
    assert(after1 =~= all1.skip(1));
    assert(after2 =~= all2.skip(1));
    lemma_unsigned_field_is_prefix_free(
        code1 as int,
        tail1 + rest1,
        code2 as int,
        tail2 + rest2,
        6,
    );
    let flagged1 = tail1 + rest1;
    let flagged2 = tail2 + rest2;
    assert(flagged1[0] == (wasted1 != 0));
    assert(flagged2[0] == (wasted2 != 0));
    if wasted1 == 0 {
        assert(rest1 =~= flagged1.skip(1));
        assert(rest2 =~= flagged2.skip(1));
    } else {
        let run1 = unary((wasted1 - 1) as nat) + rest1;
        let run2 = unary((wasted2 - 1) as nat) + rest2;
        assert(run1 =~= flagged1.skip(1));
        assert(run2 =~= flagged2.skip(1));
        lemma_unary_is_prefix_free((wasted1 - 1) as nat, rest1, (wasted2 - 1) as nat, rest2);
    }
}

/// Samples that fit a depth fit it one by one.
pub proof fn lemma_fits_depth_all(samples: Seq<i64>, depth: nat)
    requires
        depth >= 1,
        fits_depth(samples, depth),
    ensures
        all_fit_signed(samples, depth),
{
    assert forall|i: int| 0 <= i < samples.len() implies fits_signed(
        #[trigger] samples[i] as int,
        depth,
    ) by {
        assert(-pow2((depth - 1) as nat) <= samples[i] < pow2((depth - 1) as nat));
    }
}

/// Two blocks with the same wasted bits are the same where they are the
/// same without them.
pub proof fn lemma_shifted_determines_block(a: Seq<i64>, b: Seq<i64>)
    requires
        a.len() == b.len(),
        wasted_bits(a) == wasted_bits(b),
        shifted(a, wasted_bits(a)) == shifted(b, wasted_bits(b)),
    ensures
        a == b,
{
    let wasted = wasted_bits(a);
    assert forall|i: int| 0 <= i < a.len() implies a[i] == b[i] by {
        lemma_wasted_bits_are_zero(a, i);
        lemma_wasted_bits_are_zero(b, i);
        let unit = pow2(wasted) as int;
        let qa = a[i] as int / unit;
        let qb = b[i] as int / unit;
        assert(shifted(a, wasted)[i] == qa as i64);
        assert(shifted(b, wasted)[i] == qb as i64);
        lemma_shifted_element(a, i);
        lemma_shifted_element(b, i);
    }
    assert(a =~= b);
}

/// Sequences of numbers that machine integers hold are the same where they
/// are the same as machine integers.
pub proof fn lemma_as_i64s_is_injective(x: Seq<int>, y: Seq<int>)
    requires
        forall|i: int|
            0 <= i < x.len() ==> -0x8000_0000_0000_0000 <= #[trigger] x[i]
                < 0x8000_0000_0000_0000,
        forall|i: int|
            0 <= i < y.len() ==> -0x8000_0000_0000_0000 <= #[trigger] y[i]
                < 0x8000_0000_0000_0000,
        as_i64s(x) == as_i64s(y),
    ensures
        x == y,
{
    assert(x.len() == as_i64s(x).len());
    assert(y.len() == as_i64s(y).len());
    assert forall|i: int| 0 <= i < x.len() implies x[i] == y[i] by {
        assert(as_i64s(x)[i] == x[i] as i64);
        assert(as_i64s(y)[i] == y[i] as i64);
    }
    assert(x =~= y);
}

/// The residuals of a fixed predictor are numbers that machine integers
/// hold.
pub proof fn lemma_fixed_residuals_are_small(e: Seq<i64>, order: nat)
    requires
        in_sample_range(e),
        order <= 4,
        order <= e.len(),
    ensures
        forall|k: int|
            0 <= k < fixed_residuals(e, order).len() ==> -0x8000_0000_0000_0000
                <= #[trigger] fixed_residuals(e, order)[k] < 0x8000_0000_0000_0000,
{
    assert forall|k: int| 0 <= k < fixed_residuals(e, order).len() implies -0x8000_0000_0000_0000
        <= #[trigger] fixed_residuals(e, order)[k] < 0x8000_0000_0000_0000 by {
        let i = k + order;
        assert(fixed_residuals(e, order)[k] == fixed_residual(e, order, i));
        assert(-0x1_0000_0000 <= e[i] < 0x1_0000_0000);
        if order >= 1 {
            assert(-0x1_0000_0000 <= e[i - 1] < 0x1_0000_0000);
        }
        if order >= 2 {
            assert(-0x1_0000_0000 <= e[i - 2] < 0x1_0000_0000);
        }
        if order >= 3 {
            assert(-0x1_0000_0000 <= e[i - 3] < 0x1_0000_0000);
        }
        if order >= 4 {
            assert(-0x1_0000_0000 <= e[i - 4] < 0x1_0000_0000);
        }
    }
}

/// The residuals of a linear predictor with at most 32 coefficients of at
/// most 15 bits are numbers that machine integers hold.
pub proof fn lemma_lpc_residuals_are_small(e: Seq<i64>, coefs: Seq<i64>, shift: nat)
    requires
        in_sample_range(e),
        in_coef_range(coefs),
        coefs.len() <= 32,
    ensures
        forall|k: int|
            0 <= k < lpc_residuals(e, coefs, shift).len() ==> -0x8000_0000_0000_0000
                <= #[trigger] lpc_residuals(e, coefs, shift)[k] < 0x8000_0000_0000_0000,
{
    assert forall|k: int| 0 <= k < lpc_residuals(e, coefs, shift).len() implies
        -0x8000_0000_0000_0000 <= #[trigger] lpc_residuals(e, coefs, shift)[k]
        < 0x8000_0000_0000_0000 by {
        let i = k + coefs.len();
        assert(lpc_residuals(e, coefs, shift)[k] == lpc_residual(e, coefs, shift, i));
        assert(-0x1_0000_0000 <= e[i] < 0x1_0000_0000);
        lemma_lpc_dot_bound(e, coefs, i, coefs.len());
        lemma_pow2_pos(shift);
        lemma_div_keeps_bound(
            lpc_dot(e, coefs, i, coefs.len()),
            pow2(shift) as int,
            0x8_0000_0000_0000int,
        );
    }
}

/// Two blocks of one length are the same where their bodies under the fixed
/// predictor of one order are the same, whatever follows.
pub proof fn lemma_fixed_body_is_prefix_free(
    a: Seq<i64>,
    rest1: Seq<bool>,
    b: Seq<i64>,
    rest2: Seq<bool>,
    depth: nat,
    order: nat,
)
    requires
        a.len() == b.len(),
        order <= 4,
        order < a.len(),
        depth >= 1,
        fits_depth(a, depth),
        fits_depth(b, depth),
        in_sample_range(a),
        in_sample_range(b),
        fixed_body(a, depth, order) + rest1 == fixed_body(b, depth, order) + rest2,
    ensures
        a == b,
        rest1 == rest2,
{
    let n = a.len();
    let warm_a = a.take(order as int);
    let warm_b = b.take(order as int);
    let res_a = as_i64s(fixed_residuals(a, order));
    let res_b = as_i64s(fixed_residuals(b, order));
    let section_a = residual_section(res_a, n, order, depth);
    let section_b = residual_section(res_b, n, order, depth);
    assert(fixed_body(a, depth, order) + rest1 =~= raw_codes(warm_a, depth) + (section_a
        + rest1));
    assert(fixed_body(b, depth, order) + rest2 =~= raw_codes(warm_b, depth) + (section_b
        + rest2));
    lemma_fits_depth_all(a, depth);
    lemma_fits_depth_all(b, depth);
    assert(all_fit_signed(warm_a, depth)) by {
        assert forall|i: int| 0 <= i < warm_a.len() implies fits_signed(
            #[trigger] warm_a[i] as int,
            depth,
        ) by {
            assert(fits_signed(a[i] as int, depth));
        }
    }
    assert(all_fit_signed(warm_b, depth)) by {
        assert forall|i: int| 0 <= i < warm_b.len() implies fits_signed(
            #[trigger] warm_b[i] as int,
            depth,
        ) by {
            assert(fits_signed(b[i] as int, depth));
        }
    }
    lemma_raw_codes_are_prefix_free(warm_a, section_a + rest1, warm_b, section_b + rest2, depth);
    lemma_residual_section_is_prefix_free(res_a, rest1, res_b, rest2, n, order, depth);
    lemma_fixed_residuals_are_small(a, order);
    lemma_fixed_residuals_are_small(b, order);
    lemma_as_i64s_is_injective(fixed_residuals(a, order), fixed_residuals(b, order));
    lemma_fixed_residuals_determine_block(a, b, order);
}

/// Two blocks of one length are the same where their bodies under linear
/// predictors of one order are the same, whatever follows; and so are the
/// predictors.
#[verifier::rlimit(80)]
pub proof fn lemma_lpc_body_is_prefix_free(
    a: Seq<i64>,
    rest1: Seq<bool>,
    coefs1: Seq<i64>,
    precision1: nat,
    shift1: nat,
    b: Seq<i64>,
    rest2: Seq<bool>,
    coefs2: Seq<i64>,
    precision2: nat,
    shift2: nat,
    depth: nat,
)
    requires
        a.len() == b.len(),
        coefs1.len() == coefs2.len(),
        1 <= coefs1.len() <= 32,
        coefs1.len() < a.len(),
        1 <= precision1 <= 15,
        1 <= precision2 <= 15,
        shift1 <= 30,
        shift2 <= 30,
        coefs_fit(coefs1, precision1),
        coefs_fit(coefs2, precision2),
        depth >= 1,
        fits_depth(a, depth),
        fits_depth(b, depth),
        in_sample_range(a),
        in_sample_range(b),
        lpc_body(a, depth, coefs1, precision1, shift1) + rest1 == lpc_body(
            b,
            depth,
            coefs2,
            precision2,
            shift2,
        ) + rest2,
    ensures
        a == b,
        rest1 == rest2,
        coefs1 == coefs2,
        precision1 == precision2,
        shift1 == shift2,
{
    lemma2_to64();
    let n = a.len();
    let order = coefs1.len();
    let warm_a = a.take(order as int);
    let warm_b = b.take(order as int);
    let res_a = as_i64s(lpc_residuals(a, coefs1, shift1));
    let res_b = as_i64s(lpc_residuals(b, coefs2, shift2));
    let section_a = residual_section(res_a, n, order, depth);
    let section_b = residual_section(res_b, n, order, depth);
    let after_coefs_a = section_a + rest1;
    let after_coefs_b = section_b + rest2;
    let after_shift_a = raw_codes(coefs1, precision1) + after_coefs_a;
    let after_shift_b = raw_codes(coefs2, precision2) + after_coefs_b;
    let after_precision_a = bits_of(shift1 as int, 5) + after_shift_a;
    let after_precision_b = bits_of(shift2 as int, 5) + after_shift_b;
    let after_warm_a = bits_of(precision1 - 1, 4) + after_precision_a;
    let after_warm_b = bits_of(precision2 - 1, 4) + after_precision_b;
    assert(lpc_body(a, depth, coefs1, precision1, shift1) + rest1 =~= raw_codes(warm_a, depth)
        + after_warm_a);
    assert(lpc_body(b, depth, coefs2, precision2, shift2) + rest2 =~= raw_codes(warm_b, depth)
        + after_warm_b);
    lemma_fits_depth_all(a, depth);
    lemma_fits_depth_all(b, depth);
    assert(all_fit_signed(warm_a, depth)) by {
        assert forall|i: int| 0 <= i < warm_a.len() implies fits_signed(
            #[trigger] warm_a[i] as int,
            depth,
        ) by {
            assert(fits_signed(a[i] as int, depth));
        }
    }
    assert(all_fit_signed(warm_b, depth)) by {
        assert forall|i: int| 0 <= i < warm_b.len() implies fits_signed(
            #[trigger] warm_b[i] as int,
            depth,
        ) by {
            assert(fits_signed(b[i] as int, depth));
        }
    }
    lemma_raw_codes_are_prefix_free(warm_a, after_warm_a, warm_b, after_warm_b, depth);
    lemma_unsigned_field_is_prefix_free(
        precision1 - 1,
        after_precision_a,
        precision2 - 1,
        after_precision_b,
        4,
    );
    lemma_unsigned_field_is_prefix_free(
        shift1 as int,
        after_shift_a,
        shift2 as int,
        after_shift_b,
        5,
    );
    assert(all_fit_signed(coefs1, precision1)) by {
        assert forall|j: int| 0 <= j < coefs1.len() implies fits_signed(
            #[trigger] coefs1[j] as int,
            precision1,
        ) by {
            assert(-pow2((precision1 - 1) as nat) <= coefs1[j] < pow2((precision1 - 1) as nat));
        }
    }
    assert(all_fit_signed(coefs2, precision2)) by {
        assert forall|j: int| 0 <= j < coefs2.len() implies fits_signed(
            #[trigger] coefs2[j] as int,
            precision2,
        ) by {
            assert(-pow2((precision2 - 1) as nat) <= coefs2[j] < pow2((precision2 - 1) as nat));
        }
    }
    lemma_raw_codes_are_prefix_free(coefs1, after_coefs_a, coefs2, after_coefs_b, precision1);
    lemma_residual_section_is_prefix_free(res_a, rest1, res_b, rest2, n, order, depth);
    lemma_coefs_fit_widest(coefs1, precision1);
    lemma_lpc_residuals_are_small(a, coefs1, shift1);
    lemma_lpc_residuals_are_small(b, coefs1, shift1);
    lemma_as_i64s_is_injective(lpc_residuals(a, coefs1, shift1), lpc_residuals(b, coefs1, shift1));
    lemma_lpc_residuals_determine_block(a, b, coefs1, shift1);
}

/// The type of a subframe fits its six bits.
pub proof fn lemma_type_code_bound(subframe: FlacSubframe, samples: Seq<i64>)
    ensures
        subframe.type_code(samples) < 64,
{
}

/// Two blocks of one length and depth with the same wasted bits are the
/// same where the bodies of their subframes of one type are the same,
/// whatever follows.
pub proof fn lemma_body_is_prefix_free(
    first: FlacSubframe,
    a: Seq<i64>,
    rest1: Seq<bool>,
    second: FlacSubframe,
    b: Seq<i64>,
    rest2: Seq<bool>,
)
    requires
        first.depth() == second.depth(),
        legal_block(a, first.depth() as nat),
        legal_block(b, second.depth() as nat),
        a.len() == b.len(),
        first.type_code(a) == second.type_code(b),
        wasted_bits(a) == wasted_bits(b),
        first.body(a) + rest1 == second.body(b) + rest2,
    ensures
        a == b,
        rest1 == rest2,
{
    let depth = first.depth() as nat;
    let wasted = wasted_bits(a);
    let ea = shifted(a, wasted);
    let eb = shifted(b, wasted);
    let left = (depth - wasted) as nat;
    let code = first.type_code(a);
    lemma_shifted_fits(a, depth);
    lemma_shifted_fits(b, depth);
    lemma_legal_in_sample_range(a, depth, wasted);
    lemma_legal_in_sample_range(b, depth, wasted);
    lemma_fits_depth_all(ea, left);
    lemma_fits_depth_all(eb, left);
    if code == 0 {
        assert(fits_signed(ea[0] as int, left));
        assert(fits_signed(eb[0] as int, left));
        lemma_signed_field_is_prefix_free(ea[0] as int, rest1, eb[0] as int, rest2, left);
        lemma_wasted_bits_are_zero(a, 0);
        lemma_wasted_bits_are_zero(b, 0);
        assert(ea[0] == (a[0] as int / (pow2(wasted) as int)) as i64);
        assert(eb[0] == (b[0] as int / (pow2(wasted) as int)) as i64);
        assert(fits_signed(ea[0] as int, left));
        assert(a[0] == b[0]) by {
            lemma_shifted_element(a, 0);
            lemma_shifted_element(b, 0);
        }
        assert(a =~= b);
    } else if code == 1 {
        lemma_raw_codes_are_prefix_free(ea, rest1, eb, rest2, left);
        lemma_shifted_determines_block(a, b);
    } else if code < 32 {
        let order = (code - 8) as nat;
        lemma_fixed_body_is_prefix_free(ea, rest1, eb, rest2, left, order);
        lemma_shifted_determines_block(a, b);
    } else {
        match (first.kind(), second.kind()) {
            (
                FlacSubframeType::Lpc {
                    order: order1,
                    precision: precision1,
                    shift: shift1,
                    qlp_coefs: coefs1,
                },
                FlacSubframeType::Lpc {
                    order: order2,
                    precision: precision2,
                    shift: shift2,
                    qlp_coefs: coefs2,
                },
            ) => {
                lemma_lpc_body_is_prefix_free(
                    ea,
                    rest1,
                    coefs1->0@,
                    precision1 as nat,
                    shift1 as nat,
                    eb,
                    rest2,
                    coefs2->0@,
                    precision2 as nat,
                    shift2 as nat,
                    left,
                );
                lemma_shifted_determines_block(a, b);
            },
            _ => {},
        }
    }
}

/// The sample of a block without the wasted bits of the block, times two to
/// the wasted bits, is the sample.
pub proof fn lemma_shifted_element(samples: Seq<i64>, i: int)
    requires
        0 <= i < samples.len(),
    ensures
        samples[i] == shifted(samples, wasted_bits(samples))[i] * pow2(wasted_bits(samples)),
{
    let wasted = wasted_bits(samples);
    let unit = pow2(wasted) as int;
    lemma_wasted_bits_are_zero(samples, i);
    lemma_pow2_pos(wasted);
    lemma_div_keeps_bound(samples[i] as int, unit, 0x8000_0000_0000_0000);
    let q = samples[i] as int / unit;
    assert(q != 0x8000_0000_0000_0000) by (nonlinear_arith)
        requires
            samples[i] == q * unit,
            unit >= 1,
            samples[i] < 0x8000_0000_0000_0000,
    ;
}

/// Two blocks of one length and depth are the same where their subframes
/// are the same, whatever follows: the bits of a subframe determine its
/// samples, and tell where the subframe ends.
pub proof fn lemma_subframe_is_prefix_free(
    first: FlacSubframe,
    a: Seq<i64>,
    rest1: Seq<bool>,
    second: FlacSubframe,
    b: Seq<i64>,
    rest2: Seq<bool>,
)
    requires
        first.depth() == second.depth(),
        legal_block(a, first.depth() as nat),
        legal_block(b, second.depth() as nat),
        a.len() == b.len(),
        first.bits(a) + rest1 == second.bits(b) + rest2,
    ensures
        a == b,
        rest1 == rest2,
{
    lemma_type_code_bound(first, a);
    lemma_type_code_bound(second, b);
    let after1 = first.body(a) + rest1;
    let after2 = second.body(b) + rest2;
    assert(first.bits(a) + rest1 =~= first.header(a) + after1);
    assert(second.bits(b) + rest2 =~= second.header(b) + after2);
    lemma_header_is_prefix_free(
        first.type_code(a),
        wasted_bits(a),
        after1,
        second.type_code(b),
        wasted_bits(b),
        after2,
    );
    lemma_body_is_prefix_free(first, a, rest1, second, b, rest2);
}

/// The channels of two frames are the same, one by one, where their
/// subframes, one after another, are the same, whatever follows.
pub proof fn lemma_subframes_are_prefix_free(
    first: Seq<FlacSubframe>,
    a: Seq<Seq<i64>>,
    rest1: Seq<bool>,
    second: Seq<FlacSubframe>,
    b: Seq<Seq<i64>>,
    rest2: Seq<bool>,
    count: nat,
)
    requires
        count <= first.len(),
        count <= second.len(),
        count <= a.len(),
        count <= b.len(),
        forall|ch: int|
            0 <= ch < count ==> {
                &&& (#[trigger] first[ch]).depth() == second[ch].depth()
                &&& legal_block(a[ch], first[ch].depth() as nat)
                &&& legal_block(b[ch], second[ch].depth() as nat)
                &&& a[ch].len() == b[ch].len()
            },
        subframes_bits(first, a, count) + rest1 == subframes_bits(second, b, count) + rest2,
    ensures
        forall|ch: int| 0 <= ch < count ==> #[trigger] a[ch] == b[ch],
        rest1 == rest2,
    decreases count,
{
    if count == 0 {
        assert(subframes_bits(first, a, 0) + rest1 =~= rest1);
        assert(subframes_bits(second, b, 0) + rest2 =~= rest2);
    } else {
        let last = count - 1;
        let last1 = first[last].bits(a[last]);
        let last2 = second[last].bits(b[last]);
        assert(subframes_bits(first, a, count) + rest1 =~= subframes_bits(
            first,
            a,
            (count - 1) as nat,
        ) + (last1 + rest1));
        assert(subframes_bits(second, b, count) + rest2 =~= subframes_bits(
            second,
            b,
            (count - 1) as nat,
        ) + (last2 + rest2));
        lemma_subframes_are_prefix_free(
            first,
            a,
            last1 + rest1,
            second,
            b,
            last2 + rest2,
            (count - 1) as nat,
        );
        assert(first[last].depth() == second[last].depth());
        lemma_subframe_is_prefix_free(first[last], a[last], rest1, second[last], b[last], rest2);
    }
}

/// The side channel of two channels takes one bit more than they do, and
/// the mid channel no more.
pub proof fn lemma_mid_and_side_fit(left: Seq<i64>, right: Seq<i64>, depth: nat)
    requires
        1 <= depth <= 32,
        left.len() == right.len(),
        fits_depth(left, depth),
        fits_depth(right, depth),
    ensures
        fits_depth(side_channel(left, right), depth + 1),
        fits_depth(mid_channel(left, right), depth),
{
    lemma2_to64();
    vstd::arithmetic::power2::lemma2_to64_rest();
    lemma_pow2_unfold(depth);
    vstd::arithmetic::power2::lemma_pow2_strictly_increases(depth, 33);
    let side = side_channel(left, right);
    let mid = mid_channel(left, right);
    assert forall|i: int| 0 <= i < side.len() implies -pow2(depth) <= #[trigger] side[i] < pow2(
        depth,
    ) by {
        assert(-pow2((depth - 1) as nat) <= left[i] < pow2((depth - 1) as nat));
        assert(-pow2((depth - 1) as nat) <= right[i] < pow2((depth - 1) as nat));
    }
    assert forall|i: int| 0 <= i < mid.len() implies -pow2((depth - 1) as nat) <= #[trigger] mid[i]
        < pow2((depth - 1) as nat) by {
        assert(-pow2((depth - 1) as nat) <= left[i] < pow2((depth - 1) as nat));
        assert(-pow2((depth - 1) as nat) <= right[i] < pow2((depth - 1) as nat));
    }
}

/// The channels that a frame stores are blocks of the depths at which it
/// stores them.
pub proof fn lemma_stored_channels_are_legal(frame: FlacFrame, blocks: Seq<Seq<i64>>)
    requires
        frame.wf(),
        frame.takes(blocks),
    ensures
        frame.stored(blocks).len() == frame.num_channels(),
        forall|ch: int|
            0 <= ch < frame.num_channels() ==> legal_block(
                #[trigger] frame.stored(blocks)[ch],
                frame.depth_of(ch),
            ) && frame.stored(blocks)[ch].len() == frame.block_size(),
{
    let depth = frame.bit_depth().held() as nat;
    if frame.channel_assignment() is LeftRight {
        assert forall|ch: int| 0 <= ch < frame.num_channels() implies legal_block(
            #[trigger] frame.stored(blocks)[ch],
            frame.depth_of(ch),
        ) && frame.stored(blocks)[ch].len() == frame.block_size() by {
            assert(legal_block(blocks[ch], depth));
        }
    } else {
        assert(legal_block(blocks[0], depth));
        assert(legal_block(blocks[1], depth));
        lemma_mid_and_side_fit(blocks[0], blocks[1], depth);
    }
}

/// Whether the frame holds a subframe for each channel, of the depth at
/// which the channel is stored.
pub open spec fn holds_subframes(frame: FlacFrame) -> bool {
    &&& frame.subframes().len() == frame.num_channels()
    &&& forall|ch: int|
        0 <= ch < frame.num_channels() ==> (#[trigger] frame.subframes()[ch]).depth()
            == frame.depth_of(ch)
}

/// Two frames with the same header store the same samples where their
/// bytes are the same, whatever follows: the bytes of a frame determine the
/// block of every channel, and tell where the frame ends.
pub proof fn lemma_frame_is_prefix_free(
    first: FlacFrame,
    a: Seq<Seq<i64>>,
    rest1: Seq<u8>,
    second: FlacFrame,
    b: Seq<Seq<i64>>,
    rest2: Seq<u8>,
)
    requires
        first.wf(),
        second.wf(),
        first.same_header(second),
        first.takes(a),
        second.takes(b),
        holds_subframes(first),
        holds_subframes(second),
        first.frame_bytes(a) + rest1 == second.frame_bytes(b) + rest2,
    ensures
        forall|ch: int| 0 <= ch < first.num_channels() ==> #[trigger] a[ch] == b[ch],
        first.frame_bytes(a).len() == second.frame_bytes(b).len(),
        rest1 == rest2,
{
    let channels = first.num_channels() as nat;
    let stored_a = first.stored(a);
    let stored_b = second.stored(b);
    let bits_a = subframes_bits(first.subframes(), stored_a, channels);
    let bits_b = subframes_bits(second.subframes(), stored_b, channels);
    let header = first.header_bytes();
    assert(second.header_bytes() == header);
    let crc_a = crc16_bytes(crc16(FRAME_CRC16_POLY, first.body_bytes(a)));
    let crc_b = crc16_bytes(crc16(FRAME_CRC16_POLY, second.body_bytes(b)));
    let tail_a = crc_a + rest1;
    let tail_b = crc_b + rest2;
    let whole_a = first.frame_bytes(a) + rest1;
    let whole_b = second.frame_bytes(b) + rest2;
    assert(whole_a =~= header + (pack(bits_a) + tail_a));
    assert(whole_b =~= header + (pack(bits_b) + tail_b));
    assert(pack(bits_a) + tail_a =~= whole_a.skip(header.len() as int));
    assert(pack(bits_b) + tail_b =~= whole_b.skip(header.len() as int));
    lemma_bytes_bits_concat(pack(bits_a), tail_a);
    lemma_bytes_bits_concat(pack(bits_b), tail_b);
    lemma_bits_of_pack(bits_a);
    lemma_bits_of_pack(bits_b);
    let after_a = zeros(pad_len(bits_a.len())) + bytes_bits(tail_a);
    let after_b = zeros(pad_len(bits_b.len())) + bytes_bits(tail_b);
    assert(bytes_bits(pack(bits_a) + tail_a) =~= bits_a + after_a);
    assert(bytes_bits(pack(bits_b) + tail_b) =~= bits_b + after_b);
    lemma_stored_channels_are_legal(first, a);
    lemma_stored_channels_are_legal(second, b);
    lemma_subframes_are_prefix_free(
        first.subframes(),
        stored_a,
        after_a,
        second.subframes(),
        stored_b,
        after_b,
        channels,
    );
    assert(bits_a.len() == bits_b.len()) by {
        assert((bits_a + after_a).len() == (bits_b + after_b).len());
    }
    assert(bytes_bits(tail_a) =~= after_a.skip(pad_len(bits_a.len()) as int));
    assert(bytes_bits(tail_b) =~= after_b.skip(pad_len(bits_b.len()) as int));
    lemma_bytes_bits_determine_bytes(tail_a, tail_b);
    assert(rest1 =~= tail_a.skip(2));
    assert(rest2 =~= tail_b.skip(2));
    crate::flac::bitstream::lemma_pack_len(bits_a);
    crate::flac::bitstream::lemma_pack_len(bits_b);
    let depth = first.bit_depth().held() as nat;
    if first.channel_assignment() is LeftRight {
        assert forall|ch: int| 0 <= ch < first.num_channels() implies #[trigger] a[ch] == b[ch] by {
            assert(stored_a[ch] == stored_b[ch]);
        }
    } else {
        assert(stored_a[0] == stored_b[0]);
        assert(stored_a[1] == stored_b[1]);
        assert(legal_block(a[0], depth));
        assert(legal_block(a[1], depth));
        assert(legal_block(b[0], depth));
        assert(legal_block(b[1], depth));
        lemma_legal_in_sample_range(a[0], depth, 0);
        lemma_legal_in_sample_range(a[1], depth, 0);
        lemma_legal_in_sample_range(b[0], depth, 0);
        lemma_legal_in_sample_range(b[1], depth, 0);
        lemma_assignment_loses_nothing(first.channel_assignment(), a[0], a[1], b[0], b[1]);
    }
}

/// Nothing is lost: two frames with the same header and the same bytes
/// store the same samples. Whatever the subframes and the partitions that
/// were chosen, the bytes of a frame determine the block of every channel.
pub proof fn lemma_frame_loses_nothing(
    first: FlacFrame,
    a: Seq<Seq<i64>>,
    second: FlacFrame,
    b: Seq<Seq<i64>>,
)
    requires
        first.wf(),
        second.wf(),
        first.same_header(second),
        first.takes(a),
        second.takes(b),
        holds_subframes(first),
        holds_subframes(second),
        first.frame_bytes(a) == second.frame_bytes(b),
    ensures
        forall|ch: int| 0 <= ch < first.num_channels() ==> #[trigger] a[ch] == b[ch],
{
    lemma_frame_is_prefix_free(first, a, Seq::empty(), second, b, Seq::empty());
}

/// Only one number of frames holds the samples of a stream.
pub proof fn lemma_frame_count_is_unique(total: nat, block_size: nat, first: nat, second: nat)
    requires
        block_size >= 1,
        is_frame_count(total, block_size, first),
        is_frame_count(total, block_size, second),
    ensures
        first == second,
{
    if total > 0 {
        if first < second {
            assert((second - 1) * block_size >= first * block_size) by (nonlinear_arith)
                requires
                    second - 1 >= first,
                    block_size >= 1,
            ;
        }
        if second < first {
            assert((first - 1) * block_size >= second * block_size) by (nonlinear_arith)
                requires
                    first - 1 >= second,
                    block_size >= 1,
            ;
        }
    }
}

/// Whether two frames say the same in their headers, but for how the
/// channels are stored.
pub open spec fn same_header_but_assignment(first: FlacFrame, second: FlacFrame) -> bool {
    &&& first.is_variable_blocksize() == second.is_variable_blocksize()
    &&& first.block_size() == second.block_size()
    &&& first.sample_rate() == second.sample_rate()
    &&& first.num_channels() == second.num_channels()
    &&& first.bit_depth() == second.bit_depth()
    &&& first.frame_index() == second.frame_index()
}

/// The bits of a frame and of what follows it open with the bits of the
/// header before its CRC-8.
proof fn lemma_frame_opens_with_header(frame: FlacFrame, blocks: Seq<Seq<i64>>, rest: Seq<u8>)
    ensures
        exists|after: Seq<bool>|
            bytes_bits(frame.frame_bytes(blocks) + rest) == frame.header_bits() + after,
{
    let fields = pack(frame.header_bits());
    let whole = frame.frame_bytes(blocks) + rest;
    let tail = whole.skip(fields.len() as int);
    assert(frame.header_bytes() =~= fields.push(frame.header_bytes().last()));
    assert(whole =~= fields + tail);
    frame.lemma_header_is_aligned();
    lemma_bits_of_pack(frame.header_bits());
    lemma_bytes_bits_concat(fields, tail);
    assert(frame.header_bits() + zeros(0) =~= frame.header_bits());
    assert(bytes_bits(whole) == frame.header_bits() + bytes_bits(tail));
}

/// The bits of a header that stand before the code of the channel
/// assignment.
pub open spec fn header_opening(frame: FlacFrame) -> Seq<bool> {
    bits_of(crate::flac::frame::FRAME_SYNC as int, 14) + seq![false] + seq![
        frame.is_variable_blocksize(),
    ] + bits_of(crate::flac::frame::block_size_code(frame.block_size() as nat) as int, 4)
        + bits_of(crate::flac::frame::sample_rate_code(frame.sample_rate()) as int, 4)
}

/// The bits of a header that stand behind the code of the channel
/// assignment.
pub open spec fn header_closing(frame: FlacFrame) -> Seq<bool> {
    bits_of(crate::flac::frame::bit_depth_code(frame.bit_depth()) as int, 3) + seq![false]
        + bytes_bits(crate::flac::encoder::utf8::utf8_encoding(frame.frame_index() as nat))
        + frame.literal_bits()
}

/// A header is its opening, the four bits of the channel assignment, and
/// its closing.
proof fn lemma_header_parts(frame: FlacFrame)
    ensures
        frame.header_bits() == header_opening(frame) + (bits_of(
            frame.channel_assignment().code(frame.num_channels() as nat) as int,
            4,
        ) + header_closing(frame)),
{
    let code = bits_of(frame.channel_assignment().code(frame.num_channels() as nat) as int, 4);
    let depth = bits_of(crate::flac::frame::bit_depth_code(frame.bit_depth()) as int, 3);
    let number = bytes_bits(
        crate::flac::encoder::utf8::utf8_encoding(frame.frame_index() as nat),
    );
    let opening = header_opening(frame);
    assert(frame.code_bits() == opening + code + depth + seq![false]);
    assert(opening + code + depth + seq![false] =~= opening + (code + (depth + seq![false])));
    assert(opening + (code + (depth + seq![false])) + number =~= opening + (code + (depth
        + seq![false] + number)));
    assert(opening + (code + (depth + seq![false] + number)) + frame.literal_bits() =~= opening
        + (code + (depth + seq![false] + number + frame.literal_bits())));
}

/// What stands behind the opening of a header, where the same bits open
/// with two headers of one opening.
proof fn lemma_header_opening_apart(
    opening: Seq<bool>,
    tail1: Seq<bool>,
    after1: Seq<bool>,
    tail2: Seq<bool>,
    after2: Seq<bool>,
)
    requires
        opening + tail1 + after1 == opening + tail2 + after2,
    ensures
        tail1 + after1 == tail2 + after2,
{
    let whole = opening + tail1 + after1;
    assert(tail1 + after1 =~= whole.skip(opening.len() as int));
    assert(tail2 + after2 =~= (opening + tail2 + after2).skip(opening.len() as int));
}

/// The header of a frame tells how the channels of the frame are stored:
/// two frames whose headers say the same of all else, and whose bytes are
/// the same, store their channels the same way.
pub proof fn lemma_frame_tells_assignment(
    first: FlacFrame,
    a: Seq<Seq<i64>>,
    rest1: Seq<u8>,
    second: FlacFrame,
    b: Seq<Seq<i64>>,
    rest2: Seq<u8>,
)
    requires
        first.wf(),
        second.wf(),
        same_header_but_assignment(first, second),
        first.frame_bytes(a) + rest1 == second.frame_bytes(b) + rest2,
    ensures
        first.channel_assignment() == second.channel_assignment(),
{
    lemma_frame_opens_with_header(first, a, rest1);
    lemma_frame_opens_with_header(second, b, rest2);
    let whole = bytes_bits(first.frame_bytes(a) + rest1);
    let after1 = choose|after: Seq<bool>| whole == first.header_bits() + after;
    let after2 = choose|after: Seq<bool>| whole == second.header_bits() + after;
    let channels = first.num_channels() as nat;
    let code1 = first.channel_assignment().code(channels) as int;
    let code2 = second.channel_assignment().code(channels) as int;
    let opening = header_opening(first);
    assert(opening == header_opening(second));
    lemma_header_parts(first);
    lemma_header_parts(second);
    let tail1 = bits_of(code1, 4) + header_closing(first);
    let tail2 = bits_of(code2, 4) + header_closing(second);
    lemma_header_opening_apart(opening, tail1, after1, tail2, after2);
    assert(tail1 + after1 =~= bits_of(code1, 4) + (header_closing(first) + after1));
    assert(tail2 + after2 =~= bits_of(code2, 4) + (header_closing(second) + after2));
    assert(pow2(4) == 16) by {
        lemma2_to64();
    }
    lemma_unsigned_field_is_prefix_free(
        code1,
        header_closing(first) + after1,
        code2,
        header_closing(second) + after2,
        4,
    );
}

/// Frame `f` of the streams of two recordings of one shape has the same
/// header in both where it stores the channels the same way.
pub proof fn lemma_stream_frames_share_header(
    first: FlacFrame,
    a: Seq<Vec<i64>>,
    plans_a: Seq<(ChannelAssignment, Vec<Vec<(Vec<i64>, u8, u8)>>)>,
    second: FlacFrame,
    b: Seq<Vec<i64>>,
    plans_b: Seq<(ChannelAssignment, Vec<Vec<(Vec<i64>, u8, u8)>>)>,
    samp_rate: u32,
    bps: u8,
    block_size: nat,
    f: int,
)
    requires
        1 <= a.len() == b.len(),
        a[0]@.len() == b[0]@.len(),
        is_stream_frame(first, a, samp_rate, bps, block_size, plans_a, f),
        is_stream_frame(second, b, samp_rate, bps, block_size, plans_b, f),
    ensures
        same_header_but_assignment(first, second),
        first.channel_assignment() == second.channel_assignment() ==> first.same_header(second),
{
    reveal(is_stream_frame);
    let blocks_a = channel_blocks(a, f * block_size, block_size as int);
    let blocks_b = channel_blocks(b, f * block_size, block_size as int);
    assert(blocks_a[0].len() == first.block_size());
    assert(blocks_b[0].len() == second.block_size());
    assert(blocks_a[0] == block_of(a[0]@, f * block_size, block_size as int));
    assert(blocks_b[0] == block_of(b[0]@, f * block_size, block_size as int));
}

/// Frame `f` of the streams of two recordings of one shape holds the same
/// blocks in both where its bytes are the same, whatever follows.
#[verifier::rlimit(80)]
pub proof fn lemma_stream_frame_is_prefix_free(
    first: FlacFrame,
    a: Seq<Vec<i64>>,
    plans_a: Seq<(ChannelAssignment, Vec<Vec<(Vec<i64>, u8, u8)>>)>,
    rest1: Seq<u8>,
    second: FlacFrame,
    b: Seq<Vec<i64>>,
    plans_b: Seq<(ChannelAssignment, Vec<Vec<(Vec<i64>, u8, u8)>>)>,
    rest2: Seq<u8>,
    samp_rate: u32,
    bps: u8,
    block_size: nat,
    f: int,
)
    requires
        1 <= a.len() == b.len(),
        a[0]@.len() == b[0]@.len(),
        is_stream_frame(first, a, samp_rate, bps, block_size, plans_a, f),
        is_stream_frame(second, b, samp_rate, bps, block_size, plans_b, f),
        first.frame_bytes(channel_blocks(a, f * block_size, block_size as int)) + rest1
            == second.frame_bytes(channel_blocks(b, f * block_size, block_size as int)) + rest2,
    ensures
        channel_blocks(a, f * block_size, block_size as int) == channel_blocks(
            b,
            f * block_size,
            block_size as int,
        ),
        rest1 == rest2,
{
    reveal(is_stream_frame);
    let blocks_a = channel_blocks(a, f * block_size, block_size as int);
    let blocks_b = channel_blocks(b, f * block_size, block_size as int);
    lemma_stream_frames_share_header(
        first,
        a,
        plans_a,
        second,
        b,
        plans_b,
        samp_rate,
        bps,
        block_size,
        f,
    );
    lemma_frame_tells_assignment(first, blocks_a, rest1, second, blocks_b, rest2);
    lemma_frame_is_prefix_free(first, blocks_a, rest1, second, blocks_b, rest2);
    assert(blocks_a.len() == blocks_b.len());
    assert forall|ch: int| 0 <= ch < blocks_a.len() implies blocks_a[ch] == blocks_b[ch] by {
        assert(first.num_channels() == a.len());
    }
    assert(blocks_a =~= blocks_b);
}

/// Whether the first `count` frames are frames of the stream of `samples`.
pub open spec fn are_stream_frames(
    frames: Seq<FlacFrame>,
    samples: Seq<Vec<i64>>,
    samp_rate: u32,
    bps: u8,
    block_size: nat,
    plans: Seq<(ChannelAssignment, Vec<Vec<(Vec<i64>, u8, u8)>>)>,
    count: nat,
) -> bool {
    &&& count <= frames.len()
    &&& forall|f: int|
        0 <= f < count ==> is_stream_frame(
            #[trigger] frames[f],
            samples,
            samp_rate,
            bps,
            block_size,
            plans,
            f,
        )
}

/// The first `count` blocks of two recordings of one shape are the same
/// where the first `count` frames of their streams are the same in bytes,
/// whatever follows.
#[verifier::rlimit(80)]
pub proof fn lemma_frames_are_prefix_free(
    first: Seq<FlacFrame>,
    a: Seq<Vec<i64>>,
    plans_a: Seq<(ChannelAssignment, Vec<Vec<(Vec<i64>, u8, u8)>>)>,
    rest1: Seq<u8>,
    second: Seq<FlacFrame>,
    b: Seq<Vec<i64>>,
    plans_b: Seq<(ChannelAssignment, Vec<Vec<(Vec<i64>, u8, u8)>>)>,
    rest2: Seq<u8>,
    samp_rate: u32,
    bps: u8,
    block_size: nat,
    count: nat,
)
    requires
        1 <= a.len() == b.len(),
        a[0]@.len() == b[0]@.len(),
        are_stream_frames(first, a, samp_rate, bps, block_size, plans_a, count),
        are_stream_frames(second, b, samp_rate, bps, block_size, plans_b, count),
        frames_bytes(first, a, block_size, count) + rest1 == frames_bytes(
            second,
            b,
            block_size,
            count,
        ) + rest2,
    ensures
        forall|f: int|
            0 <= f < count ==> #[trigger] channel_blocks(a, f * block_size, block_size as int)
                == channel_blocks(b, f * block_size, block_size as int),
        rest1 == rest2,
    decreases count,
{
    if count == 0 {
        assert(frames_bytes(first, a, block_size, 0) + rest1 =~= rest1);
        assert(frames_bytes(second, b, block_size, 0) + rest2 =~= rest2);
    } else {
        let last = count - 1;
        let bytes_a = frame_bytes_at(first, a, block_size, last);
        let bytes_b = frame_bytes_at(second, b, block_size, last);
        assert(frames_bytes(first, a, block_size, count) + rest1 =~= frames_bytes(
            first,
            a,
            block_size,
            (count - 1) as nat,
        ) + (bytes_a + rest1));
        assert(frames_bytes(second, b, block_size, count) + rest2 =~= frames_bytes(
            second,
            b,
            block_size,
            (count - 1) as nat,
        ) + (bytes_b + rest2));
        lemma_frames_are_prefix_free(
            first,
            a,
            plans_a,
            bytes_a + rest1,
            second,
            b,
            plans_b,
            bytes_b + rest2,
            samp_rate,
            bps,
            block_size,
            (count - 1) as nat,
        );
        assert(is_stream_frame(first[last], a, samp_rate, bps, block_size, plans_a, last));
        assert(is_stream_frame(second[last], b, samp_rate, bps, block_size, plans_b, last));
        lemma_stream_frame_is_prefix_free(
            first[last],
            a,
            plans_a,
            rest1,
            second[last],
            b,
            plans_b,
            rest2,
            samp_rate,
            bps,
            block_size,
            last,
        );
    }
}

/// Two channels of one length are the same where their blocks are the
/// same, block by block.
pub proof fn lemma_blocks_cover_the_channel(
    a: Seq<i64>,
    b: Seq<i64>,
    block_size: nat,
    count: nat,
)
    requires
        block_size >= 1,
        a.len() == b.len(),
        is_frame_count(a.len(), block_size, count),
        forall|f: int|
            0 <= f < count ==> #[trigger] block_of(a, f * block_size, block_size as int)
                == block_of(b, f * block_size, block_size as int),
    ensures
        a == b,
{
    let total = a.len();
    let size = block_size as int;
    assert forall|i: int| 0 <= i < total implies a[i] == b[i] by {
        let f = i / size;
        vstd::arithmetic::div_mod::lemma_fundamental_div_mod(i, size);
        vstd::arithmetic::div_mod::lemma_mod_bound(i, size);
        vstd::arithmetic::div_mod::lemma_div_pos_is_pos(i, size);
        let start = f * size;
        assert(start == size * f) by (nonlinear_arith)
            requires
                start == f * size,
        ;
        assert(f < count) by (nonlinear_arith)
            requires
                start <= i,
                i < total,
                total <= count * size,
                start == f * size,
                size >= 1,
        ;
        assert(f * block_size == start);
        assert(block_of(a, f * block_size, size) == block_of(b, f * block_size, size));
        assert(block_of(a, start, size)[i - start] == a[i]);
        assert(block_of(b, start, size)[i - start] == b[i]);
    }
    assert(a =~= b);
}

/// Two recordings of one length are the same where their blocks are the
/// same, block by block.
pub proof fn lemma_blocks_cover_the_samples(
    a: Seq<Vec<i64>>,
    b: Seq<Vec<i64>>,
    block_size: nat,
    count: nat,
)
    requires
        block_size >= 1,
        1 <= a.len() == b.len(),
        forall|ch: int|
            0 <= ch < a.len() ==> (#[trigger] a[ch])@.len() == a[0]@.len(),
        forall|ch: int|
            0 <= ch < b.len() ==> (#[trigger] b[ch])@.len() == a[0]@.len(),
        is_frame_count(a[0]@.len(), block_size, count),
        forall|f: int|
            0 <= f < count ==> #[trigger] channel_blocks(a, f * block_size, block_size as int)
                == channel_blocks(b, f * block_size, block_size as int),
    ensures
        forall|ch: int| 0 <= ch < a.len() ==> (#[trigger] a[ch])@ == b[ch]@,
{
    assert forall|ch: int| 0 <= ch < a.len() implies (#[trigger] a[ch])@ == b[ch]@ by {
        assert(a[ch]@.len() == a[0]@.len());
        assert(b[ch]@.len() == a[0]@.len());
        assert forall|f: int| 0 <= f < count implies #[trigger] block_of(
            a[ch]@,
            f * block_size,
            block_size as int,
        ) == block_of(b[ch]@, f * block_size, block_size as int) by {
            let blocks_a = channel_blocks(a, f * block_size, block_size as int);
            let blocks_b = channel_blocks(b, f * block_size, block_size as int);
            assert(blocks_a == blocks_b);
            assert(blocks_a[ch] == block_of(a[ch]@, f * block_size, block_size as int));
            assert(blocks_b[ch] == block_of(b[ch]@, f * block_size, block_size as int));
        }
        lemma_blocks_cover_the_channel(a[ch]@, b[ch]@, block_size, count);
    }
}

/// A STREAMINFO block holds its fields whole: two blocks whose fields fit
/// their places tell the same where they are the same in bytes.
pub proof fn lemma_streaminfo_determines_fields(first: StreamInfo, second: StreamInfo)
    requires
        first.wf(),
        second.wf(),
        pack(first.bits()) == pack(second.bits()),
    ensures
        first.min_block_size == second.min_block_size,
        first.max_block_size == second.max_block_size,
        first.min_frame_size == second.min_frame_size,
        first.max_frame_size == second.max_frame_size,
        first.sample_rate == second.sample_rate,
        first.num_channels == second.num_channels,
        first.bit_depth == second.bit_depth,
        first.total_samples == second.total_samples,
        first.md5@ == second.md5@,
{
    lemma2_to64();
    vstd::arithmetic::power2::lemma2_to64_rest();
    lemma_streaminfo_len(first);
    lemma_streaminfo_len(second);
    lemma_unpack_pack(first.bits());
    lemma_unpack_pack(second.bits());
    assert(first.bits() == second.bits());
    lemma_streaminfo_fields_apart(first);
    lemma_streaminfo_fields_apart(second);
    lemma_streaminfo_sizes_are_whole(first, second);
    lemma_streaminfo_shape_is_whole(first, second);
}

/// The fields of a STREAMINFO block from the sample rate on.
pub open spec fn streaminfo_shape_bits(info: StreamInfo) -> Seq<bool> {
    bits_of(info.sample_rate as int, 20) + (bits_of(info.num_channels - 1, 3) + (bits_of(
        info.bit_depth - 1,
        5,
    ) + (bits_of(info.total_samples as int, 36) + bytes_bits(info.md5@))))
}

/// The fields of a STREAMINFO block, each before all that follow it.
pub open spec fn streaminfo_fields(info: StreamInfo) -> Seq<bool> {
    bits_of(info.min_block_size as int, 16) + (bits_of(info.max_block_size as int, 16) + (bits_of(
        info.min_frame_size as int,
        24,
    ) + (bits_of(info.max_frame_size as int, 24) + streaminfo_shape_bits(info))))
}

/// The bits of a STREAMINFO block are its fields, one after another.
proof fn lemma_streaminfo_fields_apart(info: StreamInfo)
    ensures
        info.bits() == streaminfo_fields(info),
{
    let field1 = bits_of(info.min_block_size as int, 16);
    let field2 = bits_of(info.max_block_size as int, 16);
    let field3 = bits_of(info.min_frame_size as int, 24);
    let field4 = bits_of(info.max_frame_size as int, 24);
    let field5 = bits_of(info.sample_rate as int, 20);
    let field6 = bits_of(info.num_channels - 1, 3);
    let field7 = bits_of(info.bit_depth - 1, 5);
    let field8 = bits_of(info.total_samples as int, 36);
    let field9 = bytes_bits(info.md5@);
    let front7 = field1 + field2 + field3 + field4 + field5 + field6 + field7;
    let front6 = field1 + field2 + field3 + field4 + field5 + field6;
    let front5 = field1 + field2 + field3 + field4 + field5;
    let front4 = field1 + field2 + field3 + field4;
    let front3 = field1 + field2 + field3;
    let front2 = field1 + field2;
    let back8 = field8 + field9;
    let back7 = field7 + back8;
    let back6 = field6 + back7;
    let back5 = field5 + back6;
    let back4 = field4 + back5;
    let back3 = field3 + back4;
    let back2 = field2 + back3;
    assert(front7 + field8 + field9 =~= front7 + back8);
    assert(front6 + field7 + back8 =~= front6 + back7);
    assert(front5 + field6 + back7 =~= front5 + back6);
    assert(front4 + field5 + back6 =~= front4 + back5);
    assert(front3 + field4 + back5 =~= front3 + back4);
    assert(front2 + field3 + back4 =~= front2 + back3);
    assert(field1 + field2 + back3 =~= field1 + back2);
}

/// The first four fields of two STREAMINFO blocks with the same bits are
/// the same, and so are the bits after them.
proof fn lemma_streaminfo_sizes_are_whole(first: StreamInfo, second: StreamInfo)
    requires
        first.wf(),
        second.wf(),
        streaminfo_fields(first) == streaminfo_fields(second),
    ensures
        first.min_block_size == second.min_block_size,
        first.max_block_size == second.max_block_size,
        first.min_frame_size == second.min_frame_size,
        first.max_frame_size == second.max_frame_size,
        streaminfo_shape_bits(first) == streaminfo_shape_bits(second),
{
    lemma2_to64();
    let r1 = streaminfo_shape_bits(first);
    let r2 = streaminfo_shape_bits(second);
    let g1 = bits_of(first.max_frame_size as int, 24) + r1;
    let g2 = bits_of(second.max_frame_size as int, 24) + r2;
    let l1 = bits_of(first.min_frame_size as int, 24) + g1;
    let l2 = bits_of(second.min_frame_size as int, 24) + g2;
    let m1 = bits_of(first.max_block_size as int, 16) + l1;
    let m2 = bits_of(second.max_block_size as int, 16) + l2;
    lemma_unsigned_field_is_prefix_free(
        first.min_block_size as int,
        m1,
        second.min_block_size as int,
        m2,
        16,
    );
    lemma_unsigned_field_is_prefix_free(
        first.max_block_size as int,
        l1,
        second.max_block_size as int,
        l2,
        16,
    );
    lemma_unsigned_field_is_prefix_free(
        first.min_frame_size as int,
        g1,
        second.min_frame_size as int,
        g2,
        24,
    );
    lemma_unsigned_field_is_prefix_free(
        first.max_frame_size as int,
        r1,
        second.max_frame_size as int,
        r2,
        24,
    );
}

/// The fields of two STREAMINFO blocks from the sample rate on are the same
/// where their bits are the same.
proof fn lemma_streaminfo_shape_is_whole(first: StreamInfo, second: StreamInfo)
    requires
        first.wf(),
        second.wf(),
        streaminfo_shape_bits(first) == streaminfo_shape_bits(second),
    ensures
        first.sample_rate == second.sample_rate,
        first.num_channels == second.num_channels,
        first.bit_depth == second.bit_depth,
        first.total_samples == second.total_samples,
        first.md5@ == second.md5@,
{
    lemma2_to64();
    vstd::arithmetic::power2::lemma2_to64_rest();
    let md5_1 = bytes_bits(first.md5@);
    let md5_2 = bytes_bits(second.md5@);
    let t1 = bits_of(first.total_samples as int, 36) + md5_1;
    let t2 = bits_of(second.total_samples as int, 36) + md5_2;
    let d1 = bits_of(first.bit_depth - 1, 5) + t1;
    let d2 = bits_of(second.bit_depth - 1, 5) + t2;
    let c1 = bits_of(first.num_channels - 1, 3) + d1;
    let c2 = bits_of(second.num_channels - 1, 3) + d2;
    lemma_unsigned_field_is_prefix_free(
        first.sample_rate as int,
        c1,
        second.sample_rate as int,
        c2,
        20,
    );
    lemma_unsigned_field_is_prefix_free(first.num_channels - 1, d1, second.num_channels - 1, d2, 3);
    lemma_unsigned_field_is_prefix_free(first.bit_depth - 1, t1, second.bit_depth - 1, t2, 5);
    lemma_unsigned_field_is_prefix_free(
        first.total_samples as int,
        md5_1,
        second.total_samples as int,
        md5_2,
        36,
    );
    lemma_bytes_bits_determine_bytes(first.md5@, second.md5@);
}

/// Two streams of one block size that are the same in bytes are streams
/// of the same recording.
proof fn lemma_streams_of_one_block_size(
    first: EncodedStream,
    a: Seq<Vec<i64>>,
    rate_a: u32,
    bps_a: u8,
    plans_a: Seq<(ChannelAssignment, Vec<Vec<(Vec<i64>, u8, u8)>>)>,
    second: EncodedStream,
    b: Seq<Vec<i64>>,
    rate_b: u32,
    bps_b: u8,
    plans_b: Seq<(ChannelAssignment, Vec<Vec<(Vec<i64>, u8, u8)>>)>,
    block_size: nat,
)
    requires
        block_size >= 1,
        is_pcm_stream(a, rate_a, bps_a),
        is_pcm_stream(b, rate_b, bps_b),
        first.is_stream_of(a, rate_a, bps_a, block_size, plans_a),
        second.is_stream_of(b, rate_b, bps_b, block_size, plans_b),
        first.bytes@ == second.bytes@,
    ensures
        rate_a == rate_b,
        bps_a == bps_b,
        a.len() == b.len(),
        forall|ch: int| 0 <= ch < a.len() ==> (#[trigger] a[ch])@ == b[ch]@,
{
    lemma_streaminfo_len(first.info);
    lemma_streaminfo_len(second.info);
    let head_a = stream_head(first.info);
    let head_b = stream_head(second.info);
    assert(head_a =~= first.bytes@.take(head_a.len() as int));
    assert(head_b =~= second.bytes@.take(head_b.len() as int));
    assert(pack(first.info.bits()) =~= head_a.skip(8));
    assert(pack(second.info.bits()) =~= head_b.skip(8));
    lemma_streaminfo_determines_fields(first.info, second.info);
    let total = a[0]@.len();
    let count = first.frames@.len();
    lemma_frame_count_is_unique(total, block_size, count, second.frames@.len());
    let frames_a = frames_bytes(first.frames@, a, block_size, count);
    let frames_b = frames_bytes(second.frames@, b, block_size, count);
    assert(frames_a =~= first.bytes@.skip(head_a.len() as int));
    assert(frames_b =~= second.bytes@.skip(head_b.len() as int));
    assert(frames_a + Seq::<u8>::empty() =~= frames_a);
    assert(frames_b + Seq::<u8>::empty() =~= frames_b);
    lemma_frames_are_prefix_free(
        first.frames@,
        a,
        plans_a,
        Seq::empty(),
        second.frames@,
        b,
        plans_b,
        Seq::empty(),
        rate_a,
        bps_a,
        block_size,
        count,
    );
    lemma_blocks_cover_the_samples(a, b, block_size, count);
}


/// Two streams that are the same in bytes tell the same in their
/// STREAMINFO blocks.
proof fn lemma_streams_share_streaminfo(first: EncodedStream, second: EncodedStream)
    requires
        first.info.wf(),
        second.info.wf(),
        stream_head(first.info).is_prefix_of(first.bytes@),
        stream_head(second.info).is_prefix_of(second.bytes@),
        first.bytes@ == second.bytes@,
    ensures
        first.info.max_block_size == second.info.max_block_size,
        first.info.sample_rate == second.info.sample_rate,
        first.info.num_channels == second.info.num_channels,
        first.info.bit_depth == second.info.bit_depth,
        first.info.total_samples == second.info.total_samples,
{
    lemma_streaminfo_len(first.info);
    lemma_streaminfo_len(second.info);
    let head_a = stream_head(first.info);
    let head_b = stream_head(second.info);
    assert(head_a =~= first.bytes@.take(head_a.len() as int));
    assert(head_b =~= second.bytes@.take(head_b.len() as int));
    assert(pack(first.info.bits()) =~= head_a.skip(8));
    assert(pack(second.info.bits()) =~= head_b.skip(8));
    lemma_streaminfo_determines_fields(first.info, second.info);
}

/// The greatest of some sizes is the first of them where none is greater.
proof fn lemma_greatest_is_first(sizes: Seq<int>)
    requires
        sizes.len() >= 1,
        forall|i: int| 0 <= i < sizes.len() ==> #[trigger] sizes[i] <= sizes[0],
    ensures
        greatest_of(sizes) == sizes[0],
    decreases sizes.len(),
{
    if sizes.len() > 1 {
        let before = sizes.drop_last();
        assert forall|i: int| 0 <= i < before.len() implies #[trigger] before[i] <= before[0] by {
            assert(before[i] == sizes[i]);
        }
        lemma_greatest_is_first(before);
    }
}

/// The greatest block that the STREAMINFO block of a stream tells is the
/// block size, or all the samples of a channel where they are fewer.
pub proof fn lemma_stream_tells_block_size(
    stream: EncodedStream,
    samples: Seq<Vec<i64>>,
    samp_rate: u32,
    bps: u8,
    block_size: nat,
    plans: Seq<(ChannelAssignment, Vec<Vec<(Vec<i64>, u8, u8)>>)>,
)
    requires
        block_size >= 1,
        is_pcm_stream(samples, samp_rate, bps),
        stream.is_stream_of(samples, samp_rate, bps, block_size, plans),
        samples[0]@.len() > 0,
    ensures
        stream.info.max_block_size == if samples[0]@.len() > block_size {
            block_size
        } else {
            samples[0]@.len()
        },
{
    reveal(is_stream_frame);
    let frames = stream.frames@;
    let sizes = block_sizes(frames);
    let total = samples[0]@.len();
    assert(frames.len() >= 1);
    assert forall|f: int| 0 <= f < frames.len() implies #[trigger] sizes[f] == block_of(
        samples[0]@,
        f * block_size,
        block_size as int,
    ).len() by {
        let blocks = channel_blocks(samples, f * block_size, block_size as int);
        assert(is_stream_frame(frames[f], samples, samp_rate, bps, block_size, plans, f));
        assert(blocks[0] == block_of(samples[0]@, f * block_size, block_size as int));
        assert(blocks[0].len() == frames[f].block_size());
    }
    assert forall|f: int| 0 <= f < sizes.len() implies #[trigger] sizes[f] <= sizes[0] by {
        assert(f * block_size >= 0) by (nonlinear_arith)
            requires
                f >= 0,
        ;
        assert(0 * block_size == 0);
    }
    assert(0 * block_size == 0);
    lemma_greatest_is_first(sizes);
}

/// The stream of samples that one block holds is their stream at every
/// block size that holds them all.
proof fn lemma_stream_of_one_block(
    stream: EncodedStream,
    samples: Seq<Vec<i64>>,
    samp_rate: u32,
    bps: u8,
    block_size: nat,
    plans: Seq<(ChannelAssignment, Vec<Vec<(Vec<i64>, u8, u8)>>)>,
)
    requires
        is_pcm_stream(samples, samp_rate, bps),
        stream.is_stream_of(samples, samp_rate, bps, block_size, plans),
        0 < samples[0]@.len() <= block_size,
    ensures
        stream.is_stream_of(samples, samp_rate, bps, samples[0]@.len(), plans),
{
    reveal(is_stream_frame);
    let total = samples[0]@.len();
    let frames = stream.frames@;
    let count = frames.len() as int;
    assert(count == 1) by (nonlinear_arith)
        requires
            count >= 0,
            (count - 1) * block_size < total <= count * block_size,
            0 < total <= block_size,
    ;
    assert(0 * block_size == 0);
    assert(0 * total == 0);
    assert(1 * total == total);
    let wide = channel_blocks(samples, 0, block_size as int);
    let tight = channel_blocks(samples, 0, total as int);
    assert forall|ch: int| 0 <= ch < samples.len() implies #[trigger] wide[ch] == tight[ch] by {
        assert(samples[ch]@.len() == total);
    }
    assert(wide =~= tight);
    assert(is_stream_frame(frames[0], samples, samp_rate, bps, block_size, plans, 0));
    assert(is_stream_frame(frames[0], samples, samp_rate, bps, total, plans, 0));
    assert(frame_bytes_at(frames, samples, block_size, 0) == frame_bytes_at(
        frames,
        samples,
        total,
        0,
    ));
    assert(frames_bytes(frames, samples, block_size, 0) == frames_bytes(frames, samples, total, 0));
    assert(frames_bytes(frames, samples, block_size, 1) == frames_bytes(frames, samples, total, 1));
    assert(frame_sizes(frames, samples, block_size) =~= frame_sizes(frames, samples, total));
}

/// Nothing is lost of a whole stream: two recordings are the same where
/// their streams are the same in bytes, whatever the block sizes and the
/// plans that they were encoded with. The stream tells the shape of the
/// recording and its greatest block in its STREAMINFO block, how the
/// channels of each frame are stored in the header of the frame, and every
/// sample of every channel in the subframes.
pub proof fn lemma_stream_loses_nothing(
    first: EncodedStream,
    a: Seq<Vec<i64>>,
    rate_a: u32,
    bps_a: u8,
    size_a: nat,
    plans_a: Seq<(ChannelAssignment, Vec<Vec<(Vec<i64>, u8, u8)>>)>,
    second: EncodedStream,
    b: Seq<Vec<i64>>,
    rate_b: u32,
    bps_b: u8,
    size_b: nat,
    plans_b: Seq<(ChannelAssignment, Vec<Vec<(Vec<i64>, u8, u8)>>)>,
)
    requires
        size_a >= 1,
        size_b >= 1,
        is_pcm_stream(a, rate_a, bps_a),
        is_pcm_stream(b, rate_b, bps_b),
        first.is_stream_of(a, rate_a, bps_a, size_a, plans_a),
        second.is_stream_of(b, rate_b, bps_b, size_b, plans_b),
        first.bytes@ == second.bytes@,
    ensures
        rate_a == rate_b,
        bps_a == bps_b,
        a.len() == b.len(),
        forall|ch: int| 0 <= ch < a.len() ==> (#[trigger] a[ch])@ == b[ch]@,
{
    lemma_streams_share_streaminfo(first, second);
    let total = a[0]@.len();
    assert(total == b[0]@.len());
    if total == 0 {
        assert forall|ch: int| 0 <= ch < a.len() implies (#[trigger] a[ch])@ == b[ch]@ by {
            assert(a[ch]@.len() == 0);
            assert(b[ch]@.len() == 0);
            assert(a[ch]@ =~= b[ch]@);
        }
    } else {
        lemma_stream_tells_block_size(first, a, rate_a, bps_a, size_a, plans_a);
        lemma_stream_tells_block_size(second, b, rate_b, bps_b, size_b, plans_b);
        if size_a == size_b {
            lemma_streams_of_one_block_size(
                first,
                a,
                rate_a,
                bps_a,
                plans_a,
                second,
                b,
                rate_b,
                bps_b,
                plans_b,
                size_a,
            );
        } else {
            lemma_stream_of_one_block(first, a, rate_a, bps_a, size_a, plans_a);
            lemma_stream_of_one_block(second, b, rate_b, bps_b, size_b, plans_b);
            lemma_streams_of_one_block_size(
                first,
                a,
                rate_a,
                bps_a,
                plans_a,
                second,
                b,
                rate_b,
                bps_b,
                plans_b,
                total,
            );
        }
    }
}

} // verus!
