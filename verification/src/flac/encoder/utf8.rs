//! The variable-length number code of frame headers: UTF-8 widened to seven
//! bytes, for numbers below 2^36.

use vstd::arithmetic::power2::{lemma2_to64, lemma_pow2_unfold, pow2};
use vstd::prelude::*;

verus! {

/// The first number that the code cannot hold: 2^36.
pub const UTF8_LIMIT: u64 = 0x10_0000_0000;

/// The weight of the six-bit group that has `k` groups below it: 64^k.
pub open spec fn group_weight(k: nat) -> nat {
    if k == 0 {
        1
    } else if k == 1 {
        0x40
    } else if k == 2 {
        0x1000
    } else if k == 3 {
        0x4_0000
    } else if k == 4 {
        0x100_0000
    } else if k == 5 {
        0x4000_0000
    } else {
        0x10_0000_0000
    }
}

/// The least number of binary digits that spell `n`; one digit for zero.
pub open spec fn min_bits(n: nat) -> nat
    decreases n,
{
    if n < 2 {
        1
    } else {
        1 + min_bits(n / 2)
    }
}

/// The number of continuation bytes in the code of a number of `bits`
/// binary digits: the first byte holds seven digits alone, and with `k`
/// continuation bytes of six digits each it holds `6 - k` more.
pub open spec fn continuation_bytes(bits: nat) -> nat {
    if bits <= 7 {
        0
    } else if bits <= 11 {
        1
    } else if bits <= 16 {
        2
    } else if bits <= 21 {
        3
    } else if bits <= 26 {
        4
    } else if bits <= 31 {
        5
    } else {
        6
    }
}

/// A number has at most `k` digits where it is below `2^k`, and only there.
pub proof fn lemma_min_bits_bound(n: nat, k: nat)
    requires
        k >= 1,
    ensures
        min_bits(n) <= k <==> n < pow2(k),
    decreases n,
{
    lemma2_to64();
    lemma_pow2_unfold(k);
    vstd::arithmetic::power2::lemma_pow2_pos((k - 1) as nat);
    if n >= 2 {
        lemma_min_bits_positive(n / 2);
        if k > 1 {
            lemma_min_bits_bound(n / 2, (k - 1) as nat);
        }
    }
}

/// Every number has at least one digit.
pub proof fn lemma_min_bits_positive(n: nat)
    ensures
        min_bits(n) >= 1,
{
}

/// The code of a number is as long as its digits call for.
pub proof fn lemma_utf8_len_by_digits(n: nat)
    ensures
        utf8_len(n) == continuation_bytes(min_bits(n)) + 1,
{
    lemma2_to64();
    lemma_min_bits_bound(n, 7);
    lemma_min_bits_bound(n, 11);
    lemma_min_bits_bound(n, 16);
    lemma_min_bits_bound(n, 21);
    lemma_min_bits_bound(n, 26);
    lemma_min_bits_bound(n, 31);
}

/// The number of bytes that the code of `n` takes.
pub open spec fn utf8_len(n: nat) -> nat {
    if n < 0x80 {
        1
    } else if n < 0x800 {
        2
    } else if n < 0x1_0000 {
        3
    } else if n < 0x20_0000 {
        4
    } else if n < 0x400_0000 {
        5
    } else if n < 0x8000_0000 {
        6
    } else {
        7
    }
}

/// The marker bits of the first byte of a code of `len` bytes.
pub open spec fn lead_prefix(len: nat) -> nat {
    if len <= 1 {
        0
    } else if len == 2 {
        0xC0
    } else if len == 3 {
        0xE0
    } else if len == 4 {
        0xF0
    } else if len == 5 {
        0xF8
    } else if len == 6 {
        0xFC
    } else {
        0xFE
    }
}

/// The code of `n`: a first byte that tells the length and holds the top
/// bits, then continuation bytes of six bits each under the marker `10`.
pub open spec fn utf8_encoding(n: nat) -> Seq<u8> {
    let len = utf8_len(n);
    Seq::new(
        len,
        |i: int|
            if i == 0 {
                (lead_prefix(len) + n / group_weight((len - 1) as nat)) as u8
            } else {
                (0x80 + (n / group_weight((len - 1 - i) as nat)) % 64) as u8
            },
    )
}

/// The length that a first byte announces, or 0 where it cannot start a code.
pub open spec fn announced_len(lead: u8) -> nat {
    if lead < 0x80 {
        1
    } else if lead < 0xC0 {
        0
    } else if lead < 0xE0 {
        2
    } else if lead < 0xF0 {
        3
    } else if lead < 0xF8 {
        4
    } else if lead < 0xFC {
        5
    } else if lead < 0xFE {
        6
    } else if lead == 0xFE {
        7
    } else {
        0
    }
}

/// Whether `byte` is a continuation byte.
pub open spec fn is_continuation(byte: u8) -> bool {
    0x80 <= byte < 0xC0
}

/// The number that the first byte and the `count` continuation bytes after
/// it spell.
pub open spec fn utf8_payload(bytes: Seq<u8>, count: nat) -> nat
    decreases count,
{
    if count == 0 {
        (bytes[0] - lead_prefix(announced_len(bytes[0]))) as nat
    } else {
        (64 * utf8_payload(bytes, (count - 1) as nat) + (bytes[count as int] - 0x80)) as nat
    }
}

/// Whether `bytes` is one whole code.
pub open spec fn is_utf8_code(bytes: Seq<u8>) -> bool {
    &&& bytes.len() > 0
    &&& announced_len(bytes[0]) == bytes.len()
    &&& forall|i: int| 1 <= i < bytes.len() ==> is_continuation(#[trigger] bytes[i])
}

/// The number that `bytes` stands for, where it is one whole code.
pub open spec fn utf8_decoding(bytes: Seq<u8>) -> Option<nat> {
    if is_utf8_code(bytes) {
        Some(utf8_payload(bytes, (bytes.len() - 1) as nat))
    } else {
        None
    }
}

/// A six-bit group and the groups above it make up the number from that
/// group upwards.
proof fn lemma_group_step(n: nat, k: nat)
    requires
        k < 6,
    ensures
        64 * (n / group_weight(k + 1)) + (n / group_weight(k)) % 64 == n / group_weight(k),
{
}

/// The first byte and `count` continuation bytes of the code of `n` spell
/// the number from the group of the last of them upwards.
proof fn lemma_payload_of_encoding(n: nat, count: nat)
    requires
        n < UTF8_LIMIT,
        count < utf8_len(n),
    ensures
        utf8_payload(utf8_encoding(n), count) == n / group_weight(
            (utf8_len(n) - 1 - count) as nat,
        ),
    decreases count,
{
    let code = utf8_encoding(n);
    let len = utf8_len(n);
    if count == 0 {
        assert(code[0] == lead_prefix(len) + n / group_weight((len - 1) as nat));
        assert(announced_len(code[0]) == len);
    } else {
        lemma_payload_of_encoding(n, (count - 1) as nat);
        lemma_group_step(n, (len - 1 - count) as nat);
        assert(code[count as int] == 0x80 + (n / group_weight((len - 1 - count) as nat)) % 64);
    }
}

/// Decoding the code of a number gives the number back.
pub proof fn lemma_utf8_roundtrip(n: nat)
    requires
        n < UTF8_LIMIT,
    ensures
        utf8_decoding(utf8_encoding(n)) == Some(n),
{
    let code = utf8_encoding(n);
    let len = utf8_len(n);
    assert(code.len() == len);
    assert(code[0] == lead_prefix(len) + n / group_weight((len - 1) as nat));
    assert(announced_len(code[0]) == len);
    assert forall|i: int| 1 <= i < code.len() implies is_continuation(#[trigger] code[i]) by {
        assert(code[i] == 0x80 + (n / group_weight((len - 1 - i) as nat)) % 64);
    }
    assert(is_utf8_code(code));
    let last = (len - 1) as nat;
    lemma_payload_of_encoding(n, last);
    assert((utf8_len(n) - 1 - last) as nat == 0);
    assert(utf8_payload(code, last) == n / group_weight(0));
    assert(n / 1 == n);
}

/// A bound on what the first `i` bytes of a code can spell.
pub open spec fn spelled_bound(i: nat) -> nat {
    0x80 * group_weight((i - 1) as nat)
}

/// The coder of frame and sample numbers.
pub struct Utf8Encoder;

impl Utf8Encoder {
    /// The code of `num`.
    pub fn encode(num: u64) -> (code: Vec<u8>)
        requires
            num < UTF8_LIMIT,
        ensures
            code@ == utf8_encoding(num as nat),
    {
        let mut code: Vec<u8> = Vec::new();
        let min_num_bits = Self::min_bits_to_represent(num);
        let groups: u8 = Self::template_generator(min_num_bits);
        proof {
            lemma_utf8_len_by_digits(num as nat);
        }
        let mut weight: u64 = Self::weight_of(groups);
        let prefix: u64 = Self::prefix_of(groups + 1);
        code.push((prefix + num / weight) as u8);
        let mut left: u8 = groups;
        while left > 0
            invariant
                left <= groups,
                groups + 1 == utf8_len(num as nat),
                num < UTF8_LIMIT,
                weight == group_weight(left as nat),
                code@.len() == groups - left + 1,
                forall|i: int| 0 <= i < code@.len() ==> code@[i] == utf8_encoding(num as nat)[i],
            decreases left,
        {
            left = left - 1;
            weight = weight / 64;
            code.push((0x80 + (num / weight) % 64) as u8);
        }
        proof {
            assert(code@ =~= utf8_encoding(num as nat));
        }
        code
    }

    /// The number that `code` stands for, or `None` where `code` is not one
    /// whole code.
    pub fn decode(code: &Vec<u8>) -> (num: Option<u64>)
        ensures
            num is Some <==> is_utf8_code(code@),
            num matches Some(n) ==> utf8_decoding(code@) == Some(n as nat),
    {
        if code.len() == 0 {
            return None;
        }
        let lead: u8 = code[0];
        let len: u8 = Self::length_announced(lead);
        if len == 0 || code.len() != len as usize {
            return None;
        }
        let mut num: u64 = lead as u64 - Self::prefix_of(len);
        let mut i: usize = 1;
        while i < code.len()
            invariant
                1 <= i <= code@.len(),
                code@.len() == len,
                len == announced_len(code@[0]),
                1 <= len <= 7,
                forall|k: int| 1 <= k < i ==> is_continuation(#[trigger] code@[k]),
                num == utf8_payload(code@, (i - 1) as nat),
                num < spelled_bound(i as nat),
            decreases code@.len() - i,
        {
            let byte: u8 = code[i];
            if byte < 0x80 || byte >= 0xC0 {
                return None;
            }
            num = num * 64 + (byte as u64 - 0x80);
            i = i + 1;
        }
        Some(num)
    }

    /// The least number of binary digits that spell `n`; one digit for
    /// zero.
    fn min_bits_to_represent(n: u64) -> (bits: u64)
        ensures
            bits == min_bits(n as nat),
            1 <= bits <= 64,
    {
        let mut bits: u64 = 1;
        let mut rest: u64 = n;
        proof {
            lemma2_to64();
            vstd::arithmetic::power2::lemma2_to64_rest();
        }
        while rest >= 2
            invariant
                1 <= bits <= 64,
                bits + min_bits(rest as nat) == min_bits(n as nat) + 1,
                (rest as int) < pow2((65 - bits) as nat),
            decreases rest,
        {
            proof {
                lemma2_to64();
                lemma_pow2_unfold((65 - bits) as nat);
            }
            rest = rest / 2;
            bits = bits + 1;
        }
        bits
    }

    /// The shape of the code of a number of `min` binary digits: the number
    /// of continuation bytes after the first byte.
    fn template_generator(min: u64) -> (groups: u8)
        ensures
            groups == continuation_bytes(min as nat),
    {
        if min <= 7 {
            0
        } else if min <= 11 {
            1
        } else if min <= 16 {
            2
        } else if min <= 21 {
            3
        } else if min <= 26 {
            4
        } else if min <= 31 {
            5
        } else {
            6
        }
    }

    /// 64 to the power `groups`.
    fn weight_of(groups: u8) -> (weight: u64)
        ensures
            weight == group_weight(groups as nat),
    {
        if groups == 0 {
            1
        } else if groups == 1 {
            0x40
        } else if groups == 2 {
            0x1000
        } else if groups == 3 {
            0x4_0000
        } else if groups == 4 {
            0x100_0000
        } else if groups == 5 {
            0x4000_0000
        } else {
            0x10_0000_0000
        }
    }

    /// The marker bits of the first byte of a code of `len` bytes.
    fn prefix_of(len: u8) -> (prefix: u64)
        ensures
            prefix == lead_prefix(len as nat),
    {
        if len <= 1 {
            0
        } else if len == 2 {
            0xC0
        } else if len == 3 {
            0xE0
        } else if len == 4 {
            0xF0
        } else if len == 5 {
            0xF8
        } else if len == 6 {
            0xFC
        } else {
            0xFE
        }
    }

    /// The length that a first byte announces, or 0 where it cannot start a
    /// code.
    fn length_announced(lead: u8) -> (len: u8)
        ensures
            len == announced_len(lead),
    {
        if lead < 0x80 {
            1
        } else if lead < 0xC0 {
            0
        } else if lead < 0xE0 {
            2
        } else if lead < 0xF0 {
            3
        } else if lead < 0xF8 {
            4
        } else if lead < 0xFC {
            5
        } else if lead < 0xFE {
            6
        } else if lead == 0xFE {
            7
        } else {
            0
        }
    }
}

} // verus!
