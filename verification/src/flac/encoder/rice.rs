//! Rice coding of prediction residuals: the codes, and how many bits they
//! take. How a subframe cuts its residuals into partitions is below.

pub mod partition;

use crate::flac::bitstream::{
    bits_of, lemma_bits_of_len, lemma_bits_value_of_any, pack, pad_len, unary, zeros,
    BitstreamWriter,
};
use vstd::arithmetic::logarithm::log;
use vstd::arithmetic::power2::{is_pow2, pow2};
use vstd::prelude::*;
use vstd::string::StringExecFns;

verus! {

/// The largest Rice parameter that a partition can carry.
pub const MAX_RICE_PARAM: u8 = 30;

/// The largest block that a frame can hold, in samples.
pub const MAX_BLOCK_SIZE: u64 = 65535;

/// The highest partition order.
pub const MAX_PARTITION_ORDER: u8 = 15;

/// The depth that a coder assumes when it is told none.
pub const WIDEST_DEPTH: u8 = 32;

/// The widest residual that an escaped partition can hold, in bits.
pub const MAX_RAW_WIDTH: u8 = 31;

/// The zigzag image of a residual: non-negative numbers go to the even
/// naturals, negative numbers to the odd ones.
pub open spec fn zigzag(r: int) -> nat {
    if r >= 0 {
        (2 * r) as nat
    } else {
        (-2 * r - 1) as nat
    }
}

/// The residual that a zigzag image stands for.
pub open spec fn unzigzag(z: nat) -> int {
    if z % 2 == 0 {
        z as int / 2
    } else {
        -((z as int + 1) / 2)
    }
}

/// The zigzag map loses nothing.
pub proof fn lemma_zigzag_roundtrip(r: int)
    ensures
        unzigzag(zigzag(r)) == r,
{
}

/// Every natural is the zigzag image of the residual it decodes to.
pub proof fn lemma_unzigzag_roundtrip(z: nat)
    ensures
        zigzag(unzigzag(z)) == z,
{
}

/// The Rice code of one residual under parameter `m`: the quotient of its
/// zigzag image by `2^m` in unary, then the remainder in `m` bits.
pub open spec fn rice_code(r: int, m: nat) -> Seq<bool> {
    unary(zigzag(r) / pow2(m)) + bits_of(zigzag(r) as int, m)
}

/// The Rice codes of a run of residuals, one after another.
pub open spec fn rice_codes(residuals: Seq<i64>, m: nat) -> Seq<bool>
    decreases residuals.len(),
{
    if residuals.len() == 0 {
        Seq::empty()
    } else {
        rice_codes(residuals.drop_last(), m) + rice_code(residuals.last() as int, m)
    }
}

/// The number of bits that the Rice code of one residual takes.
pub open spec fn rice_code_len(r: int, m: nat) -> nat {
    zigzag(r) / pow2(m) + 1 + m
}

/// The number of bits that the Rice codes of a run of residuals take.
pub open spec fn rice_cost(residuals: Seq<i64>, m: nat) -> nat
    decreases residuals.len(),
{
    if residuals.len() == 0 {
        0
    } else {
        rice_cost(residuals.drop_last(), m) + rice_code_len(residuals.last() as int, m)
    }
}

/// The Rice code of one residual takes a unary quotient, a stop bit and `m`
/// remainder bits.
pub proof fn lemma_rice_code_len(r: int, m: nat)
    ensures
        rice_code(r, m).len() == rice_code_len(r, m),
{
    let q = zigzag(r) / pow2(m);
    lemma_bits_of_len(zigzag(r) as int, m);
    vstd::arithmetic::power2::lemma_pow2_pos(m);
    vstd::arithmetic::div_mod::lemma_div_pos_is_pos(zigzag(r) as int, pow2(m) as int);
    assert(unary(q).len() == q + 1);
}

/// The bits emitted for a run of residuals are as many as the sum of the
/// code lengths: unary quotient, stop bit and remainder of each.
pub proof fn lemma_rice_codes_len(residuals: Seq<i64>, m: nat)
    ensures
        rice_codes(residuals, m).len() == rice_cost(residuals, m),
    decreases residuals.len(),
{
    if residuals.len() > 0 {
        lemma_rice_codes_len(residuals.drop_last(), m);
        lemma_rice_code_len(residuals.last() as int, m);
    }
}

/// The sum of the zigzag images of a run of residuals.
pub open spec fn zigzag_sum(residuals: Seq<i64>) -> nat
    decreases residuals.len(),
{
    if residuals.len() == 0 {
        0
    } else {
        zigzag_sum(residuals.drop_last()) + zigzag(residuals.last() as int)
    }
}

/// A unary code tells where it ends: two bit sequences that open with
/// unary codes and are equal open with the same code and go on alike.
pub proof fn lemma_unary_is_prefix_free(q1: nat, rest1: Seq<bool>, q2: nat, rest2: Seq<bool>)
    requires
        unary(q1) + rest1 == unary(q2) + rest2,
    ensures
        q1 == q2,
        rest1 == rest2,
{
    let both = unary(q1) + rest1;
    if q1 < q2 {
        assert(both[q1 as int] == unary(q1)[q1 as int]);
        assert((unary(q2) + rest2)[q1 as int] == unary(q2)[q1 as int]);
        assert(false);
    }
    if q2 < q1 {
        assert(both[q2 as int] == unary(q1)[q2 as int]);
        assert((unary(q2) + rest2)[q2 as int] == unary(q2)[q2 as int]);
        assert(false);
    }
    assert(rest1 =~= both.skip(q1 as int + 1));
    assert(rest2 =~= (unary(q2) + rest2).skip(q2 as int + 1));
}

/// The Rice code of a residual tells the residual and where it ends: two
/// bit sequences that open with Rice codes under one parameter and are
/// equal open with the code of the same residual and go on alike.
pub proof fn lemma_rice_code_is_prefix_free(
    x: int,
    rest1: Seq<bool>,
    y: int,
    rest2: Seq<bool>,
    m: nat,
)
    requires
        rice_code(x, m) + rest1 == rice_code(y, m) + rest2,
    ensures
        x == y,
        rest1 == rest2,
{
    let zx = zigzag(x) as int;
    let zy = zigzag(y) as int;
    let d = pow2(m) as int;
    vstd::arithmetic::power2::lemma_pow2_pos(m);
    vstd::arithmetic::div_mod::lemma_div_pos_is_pos(zx, d);
    vstd::arithmetic::div_mod::lemma_div_pos_is_pos(zy, d);
    let low_x = bits_of(zx, m);
    let low_y = bits_of(zy, m);
    assert(rice_code(x, m) + rest1 =~= unary((zx / d) as nat) + (low_x + rest1));
    assert(rice_code(y, m) + rest2 =~= unary((zy / d) as nat) + (low_y + rest2));
    lemma_unary_is_prefix_free((zx / d) as nat, low_x + rest1, (zy / d) as nat, low_y + rest2);
    lemma_bits_of_len(zx, m);
    lemma_bits_of_len(zy, m);
    assert(low_x =~= (low_x + rest1).take(m as int));
    assert(low_y =~= (low_y + rest2).take(m as int));
    assert(rest1 =~= (low_x + rest1).skip(m as int));
    assert(rest2 =~= (low_y + rest2).skip(m as int));
    lemma_bits_value_of_any(zx, m);
    lemma_bits_value_of_any(zy, m);
    vstd::arithmetic::div_mod::lemma_fundamental_div_mod(zx, d);
    vstd::arithmetic::div_mod::lemma_fundamental_div_mod(zy, d);
    assert(zx == zy);
    lemma_zigzag_roundtrip(x);
    lemma_zigzag_roundtrip(y);
}

/// Two runs of as many residuals are the same run where their Rice codes
/// under one parameter are the same, whatever follows.
pub proof fn lemma_rice_codes_are_prefix_free(
    a: Seq<i64>,
    rest1: Seq<bool>,
    b: Seq<i64>,
    rest2: Seq<bool>,
    m: nat,
)
    requires
        a.len() == b.len(),
        rice_codes(a, m) + rest1 == rice_codes(b, m) + rest2,
    ensures
        a == b,
        rest1 == rest2,
    decreases a.len(),
{
    if a.len() > 0 {
        let a_front = a.drop_last();
        let b_front = b.drop_last();
        let a_last = rice_code(a.last() as int, m);
        let b_last = rice_code(b.last() as int, m);
        assert(rice_codes(a, m) + rest1 =~= rice_codes(a_front, m) + (a_last + rest1));
        assert(rice_codes(b, m) + rest2 =~= rice_codes(b_front, m) + (b_last + rest2));
        lemma_rice_codes_are_prefix_free(a_front, a_last + rest1, b_front, b_last + rest2, m);
        lemma_rice_code_is_prefix_free(a.last() as int, rest1, b.last() as int, rest2, m);
        assert(a =~= a_front.push(a.last()));
        assert(b =~= b_front.push(b.last()));
    } else {
        assert(rice_codes(a, m) + rest1 =~= rest1);
        assert(rice_codes(b, m) + rest2 =~= rest2);
        assert(a =~= b);
    }
}

/// Rice codes are unambiguous: two runs of as many residuals with the same
/// codes under one parameter are the same run.
pub proof fn lemma_rice_codes_are_unambiguous(a: Seq<i64>, b: Seq<i64>, m: nat)
    requires
        a.len() == b.len(),
        rice_codes(a, m) == rice_codes(b, m),
    ensures
        a == b,
{
    lemma_rice_codes_are_prefix_free(a, Seq::empty(), b, Seq::empty(), m);
}

/// An estimate of the bits that the Rice codes of a partition take, from
/// the number of its residuals and the sum of their zigzag images alone: a
/// stop bit and a remainder for each, and the quotient of the sum.
pub open spec fn rice_cost_estimate(count: nat, sum: nat, m: nat) -> nat {
    count * (m + 1) + sum / pow2(m)
}

/// The quotient of a sum is the sum of the quotients, or one more.
proof fn lemma_quotient_of_sum(a: int, b: int, d: int)
    requires
        a >= 0,
        b >= 0,
        d > 0,
    ensures
        a / d + b / d <= (a + b) / d <= a / d + b / d + 1,
{
    vstd::arithmetic::div_mod::lemma_fundamental_div_mod(a, d);
    vstd::arithmetic::div_mod::lemma_fundamental_div_mod(b, d);
    vstd::arithmetic::div_mod::lemma_mod_bound(a, d);
    vstd::arithmetic::div_mod::lemma_mod_bound(b, d);
    let q = a / d + b / d;
    let r = a % d + b % d;
    assert(a + b == q * d + r) by (nonlinear_arith)
        requires
            a == d * (a / d) + a % d,
            b == d * (b / d) + b % d,
            q == a / d + b / d,
            r == a % d + b % d,
    ;
    if r < d {
        vstd::arithmetic::div_mod::lemma_fundamental_div_mod_converse(a + b, d, q, r);
    } else {
        assert(a + b == (q + 1) * d + (r - d)) by (nonlinear_arith)
            requires
                a + b == q * d + r,
        ;
        vstd::arithmetic::div_mod::lemma_fundamental_div_mod_converse(a + b, d, q + 1, r - d);
    }
}

/// The estimate is never below the exact cost, and above it by at most one
/// bit a residual.
pub proof fn lemma_rice_cost_estimate_brackets(residuals: Seq<i64>, m: nat)
    ensures
        rice_cost(residuals, m) <= rice_cost_estimate(residuals.len(), zigzag_sum(residuals), m),
        rice_cost_estimate(residuals.len(), zigzag_sum(residuals), m) <= rice_cost(residuals, m)
            + residuals.len(),
    decreases residuals.len(),
{
    let d = pow2(m) as int;
    vstd::arithmetic::power2::lemma_pow2_pos(m);
    if residuals.len() == 0 {
        vstd::arithmetic::div_mod::lemma_div_of0(d);
        assert(0 * (m + 1) == 0) by (nonlinear_arith);
    } else {
        let front = residuals.drop_last();
        let z = zigzag(residuals.last() as int) as int;
        lemma_rice_cost_estimate_brackets(front, m);
        lemma_quotient_of_sum(zigzag_sum(front) as int, z, d);
        vstd::arithmetic::div_mod::lemma_div_pos_is_pos(zigzag_sum(front) as int, d);
        vstd::arithmetic::div_mod::lemma_div_pos_is_pos(z, d);
        assert(residuals.len() * (m + 1) == front.len() * (m + 1) + (m + 1)) by (nonlinear_arith)
            requires
                residuals.len() == front.len() + 1,
        ;
    }
}

/// A Rice-encoded run of residuals. The stream need not end on a byte
/// boundary: `extra_bits_len` low bits of its last byte are filler.
#[derive(Debug)]
pub struct RiceEncodedStream {
    pub stream: Vec<u8>,
    pub param: u8,
    pub extra_bits_len: u8,
}

/// The Rice coder of one subframe's residuals.
pub struct RiceEncoderOptions {
    num_samples: u64,
    predictor_order: u8,
    bit_depth: u8,
}

/// Appends the Rice code of `residual` under `rice_param` to `writer`.
pub fn write_rice_code(writer: &mut BitstreamWriter, rice_param: u8, residual: i64)
    requires
        old(writer).wf(),
        rice_param <= MAX_RICE_PARAM,
    ensures
        final(writer).wf(),
        final(writer)@ == old(writer)@ + rice_code(residual as int, rice_param as nat),
{
    let folded = RiceEncoderOptions::zigzag(residual);
    proof {
        vstd::bits::lemma_u64_shr_is_div(folded, rice_param as u64);
    }
    writer.write_unary(folded >> rice_param);
    writer.write_bits(folded, rice_param);
    proof {
        assert(writer@ =~= old(writer)@ + rice_code(residual as int, rice_param as nat));
    }
}

/// Appends the Rice codes of `residuals` under `rice_param` to `writer`.
pub fn write_rice_codes(writer: &mut BitstreamWriter, rice_param: u8, residuals: &Vec<i64>)
    requires
        old(writer).wf(),
        rice_param <= MAX_RICE_PARAM,
    ensures
        final(writer).wf(),
        final(writer)@ == old(writer)@ + rice_codes(residuals@, rice_param as nat),
{
    let mut i: usize = 0;
    while i < residuals.len()
        invariant
            i <= residuals.len(),
            rice_param <= MAX_RICE_PARAM,
            writer.wf(),
            writer@ == old(writer)@ + rice_codes(residuals@.take(i as int), rice_param as nat),
        decreases residuals.len() - i,
    {
        proof {
            assert(residuals@.take(i + 1).drop_last() =~= residuals@.take(i as int));
        }
        write_rice_code(writer, rice_param, residuals[i]);
        i = i + 1;
    }
    proof {
        assert(residuals@.take(i as int) =~= residuals@);
    }
}

/// The codes of a run of residuals take at most 2^65 bits each.
pub proof fn lemma_rice_cost_bound(residuals: Seq<i64>, m: nat)
    ensures
        rice_cost(residuals, m) <= residuals.len() * (0x1_0000_0000_0000_0000 + m),
    decreases residuals.len(),
{
    if residuals.len() > 0 {
        lemma_rice_cost_bound(residuals.drop_last(), m);
        let z = zigzag(residuals.last() as int);
        vstd::arithmetic::power2::lemma_pow2_pos(m);
        vstd::arithmetic::div_mod::lemma_div_nonincreasing(z as int, pow2(m) as int);
        vstd::arithmetic::div_mod::lemma_div_pos_is_pos(z as int, pow2(m) as int);
        assert(residuals.len() * (0x1_0000_0000_0000_0000 + m) == (residuals.len() - 1) * (
        0x1_0000_0000_0000_0000 + m) + (0x1_0000_0000_0000_0000 + m)) by (nonlinear_arith);
    }
}

impl RiceEncoderOptions {
    /// The block size that the coder was made for.
    pub closed spec fn num_samples(&self) -> u64 {
        self.num_samples
    }

    /// The order of the predictor whose residuals the coder takes.
    pub closed spec fn predictor_order(&self) -> u8 {
        self.predictor_order
    }

    /// The bit depth of the samples that the residuals come from.
    pub closed spec fn bit_depth(&self) -> u8 {
        self.bit_depth
    }

    /// A coder for the residuals that a predictor of order `predictor_order`
    /// leaves of a block of `num_samples` samples of the widest depth.
    pub fn new(num_samples: u64, predictor_order: u8) -> (options: Self)
        ensures
            options.num_samples() == num_samples,
            options.predictor_order() == predictor_order,
            options.bit_depth() == WIDEST_DEPTH,
    {
        RiceEncoderOptions { num_samples, predictor_order, bit_depth: WIDEST_DEPTH }
    }

    /// A coder for the residuals that a predictor of order `predictor_order`
    /// leaves of a block of `num_samples` samples of `bit_depth` bits.
    pub fn for_depth(num_samples: u64, predictor_order: u8, bit_depth: u8) -> (options: Self)
        ensures
            options.num_samples() == num_samples,
            options.predictor_order() == predictor_order,
            options.bit_depth() == bit_depth,
    {
        RiceEncoderOptions { num_samples, predictor_order, bit_depth }
    }

    /// The zigzag image of `num`.
    pub fn zigzag(num: i64) -> (folded: u64)
        ensures
            folded == zigzag(num as int),
    {
        let folded = ((num << 1) ^ (num >> 63)) as u64;
        proof {
            assert(num >= 0 ==> ((num << 1) ^ (num >> 63)) as u64 == 2 * num) by (bit_vector);
            assert(num < 0 ==> ((num << 1) ^ (num >> 63)) as u64 == -2 * num - 1) by (bit_vector);
        }
        folded
    }

    /// The residual whose zigzag image is `folded`.
    pub fn unzigzag(folded: u64) -> (num: i64)
        ensures
            num == unzigzag(folded as nat),
    {
        if folded % 2 == 0 {
            (folded / 2) as i64
        } else {
            -((folded / 2) as i64) - 1
        }
    }

    /// The exact number of bits that the Rice codes of a partition take:
    /// for each residual the unary quotient, the stop bit and the remainder.
    pub fn bits_in_partition_exact(
        rice_param: u8,
        n_partition_samples: u64,
        residuals: &Vec<i64>,
    ) -> (bits: u128)
        requires
            rice_param <= MAX_RICE_PARAM,
            n_partition_samples == residuals@.len(),
            residuals@.len() <= MAX_BLOCK_SIZE,
        ensures
            bits == rice_cost(residuals@, rice_param as nat),
    {
        let mut bits: u128 = 0;
        let mut i: usize = 0;
        while i < residuals.len()
            invariant
                i <= residuals.len(),
                rice_param <= MAX_RICE_PARAM,
                residuals@.len() <= MAX_BLOCK_SIZE,
                bits == rice_cost(residuals@.take(i as int), rice_param as nat),
                bits <= i * 0x2_0000_0000_0000_0000,
            decreases residuals.len() - i,
        {
            proof {
                assert(residuals@.take(i + 1).drop_last() =~= residuals@.take(i as int));
            }
            let folded = Self::zigzag(residuals[i]);
            proof {
                vstd::bits::lemma_u64_shr_is_div(folded, rice_param as u64);
            }
            bits = bits + (folded >> rice_param) as u128 + 1 + rice_param as u128;
            i = i + 1;
        }
        proof {
            assert(residuals@.take(i as int) =~= residuals@);
        }
        bits
    }

    /// An estimate of the bits that the Rice codes of a partition take, from
    /// the number of its residuals and the sum of their zigzag images.
    pub fn bits_in_partition_sums(
        rice_param: u8,
        n_partition_samples: u64,
        abs_residual_sum: u64,
    ) -> (bits: u128)
        requires
            rice_param <= MAX_RICE_PARAM,
        ensures
            bits == rice_cost_estimate(
                n_partition_samples as nat,
                abs_residual_sum as nat,
                rice_param as nat,
            ),
    {
        proof {
            vstd::bits::lemma_u64_shr_is_div(abs_residual_sum, rice_param as u64);
            assert(n_partition_samples * (rice_param + 1) <= 0xFFFF_FFFF_FFFF_FFFF * 31)
                by (nonlinear_arith)
                requires
                    n_partition_samples <= 0xFFFF_FFFF_FFFF_FFFF,
                    rice_param + 1 <= 31,
            ;
        }
        (n_partition_samples as u128) * (rice_param as u128 + 1) + (abs_residual_sum
            >> rice_param) as u128
    }

    /// Rice codes of `residuals` under `rice_param`, packed into bytes.
    pub fn encode(rice_param: u8, residuals: &Vec<i64>) -> (encoded: RiceEncodedStream)
        requires
            rice_param <= MAX_RICE_PARAM,
        ensures
            encoded.param == rice_param,
            encoded.stream@ == pack(rice_codes(residuals@, rice_param as nat)),
            encoded.extra_bits_len == pad_len(rice_codes(residuals@, rice_param as nat).len()),
    {
        let mut writer = BitstreamWriter::new();
        write_rice_codes(&mut writer, rice_param, residuals);
        proof {
            assert(writer@ =~= rice_codes(residuals@, rice_param as nat));
        }
        RiceEncodedStream {
            stream: writer.bytes(),
            param: rice_param,
            extra_bits_len: writer.unused_bits(),
        }
    }
}

/// The digit that spells a bit.
pub open spec fn bit_char(bit: bool) -> char {
    if bit {
        '1'
    } else {
        '0'
    }
}

/// A bit sequence spelled in the digits `0` and `1`.
pub open spec fn bit_text(bits: Seq<bool>) -> Seq<char> {
    Seq::new(bits.len(), |i: int| bit_char(bits[i]))
}

/// The textual Rice code of `s` under the modulus `m`, a power of two: the
/// quotient in unary, as that many zeros and a closing one, then the
/// remainder in as many binary digits as `m` has below its leading one.
pub open spec fn rice_text(s: nat, m: nat) -> Seq<char> {
    bit_text(unary(s / m) + bits_of((s % m) as int, log(2, m as int) as nat))
}

/// A Rice coder that spells its code words as text.
pub struct RiceEncoder;

/// Appends the low `digits` bits of `value` to `code`, spelled in binary.
fn push_binary(code: &mut String, value: u32, digits: u32)
    ensures
        final(code)@ == old(code)@ + bit_text(bits_of(value as int, digits as nat)),
    decreases digits,
{
    if digits > 0 {
        push_binary(code, value / 2, digits - 1);
        proof {
            reveal_strlit("1");
            reveal_strlit("0");
        }
        if value % 2 == 1 {
            code.append("1");
        } else {
            code.append("0");
        }
        proof {
            assert(final(code)@ =~= old(code)@ + bit_text(bits_of(value as int, digits as nat)));
        }
    } else {
        proof {
            assert(code@ =~= old(code)@ + bit_text(bits_of(value as int, 0)));
        }
    }
}

impl RiceEncoder {
    /// The Rice code of `s` under the modulus `m`, as text.
    pub fn encode(s: u32, m: u32) -> (code: String)
        requires
            is_pow2(m as int),
        ensures
            code@ == rice_text(s as nat, m as nat),
    {
        proof {
            reveal(is_pow2);
        }
        let mut width: u32 = 0;
        let mut rest: u32 = m;
        while rest > 1
            invariant
                is_pow2(rest as int),
                width + rest <= m,
                width + log(2, rest as int) == log(2, m as int),
            decreases rest,
        {
            proof {
                reveal(is_pow2);
                vstd::arithmetic::logarithm::lemma_log_s(2, rest as int);
            }
            rest = rest / 2;
            width = width + 1;
        }
        proof {
            vstd::arithmetic::logarithm::lemma_log0(2, rest as int);
        }
        let quotient: u32 = s / m;
        let remainder: u32 = s % m;
        let mut code = String::new();
        let mut i: u32 = 0;
        while i < quotient
            invariant
                i <= quotient,
                code@ == bit_text(zeros(i as nat)),
            decreases quotient - i,
        {
            proof {
                reveal_strlit("0");
            }
            code.append("0");
            i = i + 1;
            proof {
                assert(code@ =~= bit_text(zeros(i as nat)));
            }
        }
        proof {
            reveal_strlit("1");
        }
        code.append("1");
        push_binary(&mut code, remainder, width);
        proof {
            assert(code@ =~= rice_text(s as nat, m as nat));
        }
        code
    }
}

} // verus!
