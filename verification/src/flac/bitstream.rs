//! Bit sequences, most significant bit first, and a writer that packs them
//! into bytes.

use vstd::arithmetic::power2::{lemma2_to64, pow2};
use vstd::prelude::*;

verus! {

/// The low `n` bits of `value`, most significant first. A negative value
/// gives its two's complement.
pub open spec fn bits_of(value: int, n: nat) -> Seq<bool>
    decreases n,
{
    if n == 0 {
        Seq::empty()
    } else {
        bits_of(value / 2, (n - 1) as nat).push(value % 2 == 1)
    }
}

/// The number that a bit sequence spells, most significant bit first.
pub open spec fn bits_value(bits: Seq<bool>) -> nat
    decreases bits.len(),
{
    if bits.len() == 0 {
        0
    } else {
        2 * bits_value(bits.drop_last()) + if bits.last() {
            1nat
        } else {
            0nat
        }
    }
}

/// `n` zero bits.
pub open spec fn zeros(n: nat) -> Seq<bool> {
    Seq::new(n, |i: int| false)
}

/// The unary code of `q`: `q` zero bits, then a one.
pub open spec fn unary(q: nat) -> Seq<bool> {
    zeros(q).push(true)
}

/// The bits of a byte sequence, eight to a byte.
pub open spec fn bytes_bits(bytes: Seq<u8>) -> Seq<bool>
    decreases bytes.len(),
{
    if bytes.len() == 0 {
        Seq::empty()
    } else {
        bytes_bits(bytes.drop_last()) + bits_of(bytes.last() as int, 8)
    }
}

/// The number of bits that carry a sequence of `n` bits to a byte boundary.
pub open spec fn pad_len(n: nat) -> nat {
    ((8 - n % 8) % 8) as nat
}

/// The bytes that hold `bits`, zero bits filling the last byte.
pub open spec fn pack(bits: Seq<bool>) -> Seq<u8> {
    let padded = bits + zeros(pad_len(bits.len()));
    Seq::new(padded.len() / 8, |i: int| bits_value(padded.subrange(8 * i, 8 * i + 8)) as u8)
}

/// The `n` low bits of a number are `n` bits.
pub proof fn lemma_bits_of_len(value: int, n: nat)
    ensures
        bits_of(value, n).len() == n,
    decreases n,
{
    if n > 0 {
        lemma_bits_of_len(value / 2, (n - 1) as nat);
    }
}

/// A byte sequence has eight bits to a byte.
pub proof fn lemma_bytes_bits_len(bytes: Seq<u8>)
    ensures
        bytes_bits(bytes).len() == 8 * bytes.len(),
    decreases bytes.len(),
{
    if bytes.len() > 0 {
        lemma_bytes_bits_len(bytes.drop_last());
        lemma_bits_of_len(bytes.last() as int, 8);
    }
}

/// Appending a bit doubles the value and adds the bit.
pub proof fn lemma_bits_value_push(bits: Seq<bool>, bit: bool)
    ensures
        bits_value(bits.push(bit)) == 2 * bits_value(bits) + if bit {
            1nat
        } else {
            0nat
        },
{
    assert(bits.push(bit).drop_last() =~= bits);
}

/// Reading back the `n` low bits of a number below `2^n` gives the number.
pub proof fn lemma_bits_value_of(value: int, n: nat)
    requires
        0 <= value < pow2(n),
    ensures
        bits_value(bits_of(value, n)) == value,
    decreases n,
{
    lemma2_to64();
    if n > 0 {
        vstd::arithmetic::power2::lemma_pow2_unfold(n);
        lemma_bits_value_of(value / 2, (n - 1) as nat);
        lemma_bits_value_push(bits_of(value / 2, (n - 1) as nat), value % 2 == 1);
    }
}

/// Trailing zero bits multiply the value by a power of two.
pub proof fn lemma_bits_value_zeros(bits: Seq<bool>, m: nat)
    ensures
        bits_value(bits + zeros(m)) == bits_value(bits) * pow2(m),
    decreases m,
{
    lemma2_to64();
    if m == 0 {
        assert(bits + zeros(0) =~= bits);
    } else {
        vstd::arithmetic::power2::lemma_pow2_unfold(m);
        lemma_bits_value_zeros(bits, (m - 1) as nat);
        assert(bits + zeros(m) =~= (bits + zeros((m - 1) as nat)).push(false));
        lemma_bits_value_push(bits + zeros((m - 1) as nat), false);
        assert(2 * (bits_value(bits) * pow2((m - 1) as nat)) == bits_value(bits) * (2 * pow2(
            (m - 1) as nat,
        ))) by (nonlinear_arith);
    }
}

/// The eight bits of byte `i` stand at offset `8 * i`.
pub proof fn lemma_bytes_bits_chunk(bytes: Seq<u8>, i: int)
    requires
        0 <= i < bytes.len(),
    ensures
        bytes_bits(bytes).subrange(8 * i, 8 * i + 8) == bits_of(bytes[i] as int, 8),
    decreases bytes.len(),
{
    let front = bytes.drop_last();
    lemma_bytes_bits_len(front);
    lemma_bytes_bits_len(bytes);
    lemma_bits_of_len(bytes.last() as int, 8);
    if i == bytes.len() - 1 {
        assert(bytes_bits(bytes).subrange(8 * i, 8 * i + 8) =~= bits_of(bytes[i] as int, 8));
    } else {
        lemma_bytes_bits_chunk(front, i);
        assert(bytes_bits(bytes).subrange(8 * i, 8 * i + 8) =~= bytes_bits(front).subrange(
            8 * i,
            8 * i + 8,
        ));
    }
}

/// Packing whole bytes and up to seven further bits: the bytes come back,
/// and the further bits fill the high end of one more byte.
pub proof fn lemma_pack_partial(bytes: Seq<u8>, cur: int, k: nat)
    requires
        k < 8,
        0 <= cur < pow2(k),
    ensures
        k == 0 ==> pack(bytes_bits(bytes) + bits_of(cur, k)) == bytes,
        k > 0 ==> cur * pow2((8 - k) as nat) < 256 && pack(bytes_bits(bytes) + bits_of(cur, k))
            == bytes.push((cur * pow2((8 - k) as nat)) as u8),
{
    lemma2_to64();
    let bits = bytes_bits(bytes) + bits_of(cur, k);
    let padded = bits + zeros(pad_len(bits.len()));
    lemma_bytes_bits_len(bytes);
    lemma_bits_of_len(cur, k);
    let n = bytes.len() as int;
    assert forall|i: int| 0 <= i < n implies #[trigger] pack(bits)[i] == bytes[i] by {
        lemma_bytes_bits_chunk(bytes, i);
        assert(padded.subrange(8 * i, 8 * i + 8) =~= bytes_bits(bytes).subrange(8 * i, 8 * i + 8));
        lemma_bits_value_of(bytes[i] as int, 8);
    }
    if k == 0 {
        assert(pack(bits) =~= bytes);
    } else {
        let m = (8 - k) as nat;
        vstd::arithmetic::power2::lemma_pow2_adds(k, m);
        assert(cur * pow2(m) < 256) by (nonlinear_arith)
            requires
                0 <= cur < pow2(k),
                pow2(k) * pow2(m) == 256,
                pow2(m) > 0,
        ;
        assert(padded.subrange(8 * n, 8 * n + 8) =~= bits_of(cur, k) + zeros(m));
        lemma_bits_value_zeros(bits_of(cur, k), m);
        lemma_bits_value_of(cur, k);
        assert(pack(bits) =~= bytes.push((cur * pow2(m)) as u8));
    }
}

/// A bit sequence spells a number below two to its length.
pub proof fn lemma_bits_value_bound(bits: Seq<bool>)
    ensures
        bits_value(bits) < pow2(bits.len()),
    decreases bits.len(),
{
    lemma2_to64();
    if bits.len() > 0 {
        lemma_bits_value_bound(bits.drop_last());
        vstd::arithmetic::power2::lemma_pow2_unfold(bits.len());
    }
}

/// The bits of the number that a bit sequence spells are the sequence.
pub proof fn lemma_bits_of_value(bits: Seq<bool>)
    ensures
        bits_of(bits_value(bits) as int, bits.len()) == bits,
    decreases bits.len(),
{
    if bits.len() > 0 {
        lemma_bits_of_value(bits.drop_last());
        assert(bits_of(bits_value(bits) as int, bits.len()) =~= bits);
    } else {
        assert(bits_of(bits_value(bits) as int, bits.len()) =~= bits);
    }
}

/// The bits of a packed sequence are the sequence and its zero filling.
pub proof fn lemma_bits_of_pack(bits: Seq<bool>)
    ensures
        bytes_bits(pack(bits)) == bits + zeros(pad_len(bits.len())),
{
    let padded = bits + zeros(pad_len(bits.len()));
    let bytes = pack(bits);
    lemma_bytes_bits_len(bytes);
    lemma2_to64();
    assert forall|k: int| 0 <= k < padded.len() implies bytes_bits(bytes)[k] == padded[k] by {
        let i = k / 8;
        let chunk = padded.subrange(8 * i, 8 * i + 8);
        lemma_bytes_bits_chunk(bytes, i);
        lemma_bits_value_bound(chunk);
        lemma_bits_of_value(chunk);
        assert(bytes_bits(bytes).subrange(8 * i, 8 * i + 8)[k - 8 * i] == bytes_bits(bytes)[k]);
        assert(chunk[k - 8 * i] == padded[k]);
    }
    assert(bytes_bits(pack(bits)) =~= padded);
}

/// A packed sequence takes as many bytes as hold its bits and their filling.
pub proof fn lemma_pack_len(bits: Seq<bool>)
    ensures
        8 * pack(bits).len() == bits.len() + pad_len(bits.len()),
        pad_len(bits.len()) < 8,
{
}

/// The bits of two byte sequences, one after the other, are the bits of the
/// one and then the bits of the other.
pub proof fn lemma_bytes_bits_concat(first: Seq<u8>, second: Seq<u8>)
    ensures
        bytes_bits(first + second) == bytes_bits(first) + bytes_bits(second),
    decreases second.len(),
{
    if second.len() == 0 {
        assert(first + second =~= first);
        assert(bytes_bits(first + second) =~= bytes_bits(first) + bytes_bits(second));
    } else {
        lemma_bytes_bits_concat(first, second.drop_last());
        assert((first + second).drop_last() =~= first + second.drop_last());
        assert(bytes_bits(first + second) =~= bytes_bits(first) + bytes_bits(second));
    }
}

/// Byte sequences with the same bits are the same.
pub proof fn lemma_bytes_bits_determine_bytes(first: Seq<u8>, second: Seq<u8>)
    requires
        bytes_bits(first) == bytes_bits(second),
    ensures
        first == second,
{
    lemma2_to64();
    lemma_pack_partial(first, 0, 0);
    lemma_pack_partial(second, 0, 0);
    assert(bytes_bits(first) + bits_of(0, 0) =~= bytes_bits(first));
    assert(bytes_bits(second) + bits_of(0, 0) =~= bytes_bits(second));
}

/// The bits that a byte stream carries when the `unused` low bits of its
/// last byte are filler.
pub open spec fn unpack(bytes: Seq<u8>, unused: nat) -> Seq<bool> {
    bytes_bits(bytes).take(8 * bytes.len() - unused)
}

/// No bit is lost: what was packed comes back.
pub proof fn lemma_unpack_pack(bits: Seq<bool>)
    ensures
        unpack(pack(bits), pad_len(bits.len())) == bits,
{
    lemma_bits_of_pack(bits);
    lemma_bytes_bits_len(pack(bits));
    assert(unpack(pack(bits), pad_len(bits.len())) =~= bits);
}

/// The high `n - u` of the `n` low bits of a number are the low `n - u`
/// bits of the number without its `u` lowest.
pub proof fn lemma_bits_of_take(value: int, n: nat, u: nat)
    requires
        u <= n,
    ensures
        bits_of(value, n).take(n - u) == bits_of(value / (pow2(u) as int), (n - u) as nat),
    decreases u,
{
    lemma2_to64();
    lemma_bits_of_len(value, n);
    if u == 0 {
        assert(bits_of(value, n).take(n as int) =~= bits_of(value, n));
    } else {
        lemma_bits_of_take(value / 2, (n - 1) as nat, (u - 1) as nat);
        lemma_bits_of_len(value / 2, (n - 1) as nat);
        vstd::arithmetic::power2::lemma_pow2_unfold(u);
        vstd::arithmetic::power2::lemma_pow2_pos((u - 1) as nat);
        lemma_half_then_div(value, pow2((u - 1) as nat) as int);
        assert(bits_of(value, n).take(n - u) =~= bits_of(value / 2, (n - 1) as nat).take(n - u));
    }
}

/// Halving and then dividing by `c`, rounding down each time, divides by
/// `2 * c`, and leaves the remainders of both steps as the remainder.
pub proof fn lemma_half_then_div(x: int, c: int)
    requires
        c > 0,
    ensures
        (x / 2) / c == x / (2 * c),
        x % (2 * c) == 2 * ((x / 2) % c) + x % 2,
{
    let y = x / 2;
    let z = y / c;
    let low = 2 * (y % c) + x % 2;
    vstd::arithmetic::div_mod::lemma_fundamental_div_mod(y, c);
    vstd::arithmetic::div_mod::lemma_mod_bound(y, c);
    assert(x == z * (2 * c) + low && 0 <= low < 2 * c) by (nonlinear_arith)
        requires
            y == c * z + y % c,
            0 <= y % c < c,
            x == 2 * y + x % 2,
            0 <= x % 2 < 2,
            low == 2 * (y % c) + x % 2,
    ;
    vstd::arithmetic::div_mod::lemma_fundamental_div_mod_converse(x, 2 * c, z, low);
}

/// The two's complement number that a bit sequence spells, most significant
/// bit first.
pub open spec fn signed_value(bits: Seq<bool>) -> int {
    if bits.len() > 0 && bits[0] {
        bits_value(bits) - pow2(bits.len())
    } else {
        bits_value(bits) as int
    }
}

/// Reading back the `n` low bits of any number gives the number modulo
/// `2^n`.
pub proof fn lemma_bits_value_of_any(value: int, n: nat)
    ensures
        bits_value(bits_of(value, n)) == value % (pow2(n) as int),
    decreases n,
{
    lemma2_to64();
    if n > 0 {
        vstd::arithmetic::power2::lemma_pow2_unfold(n);
        vstd::arithmetic::power2::lemma_pow2_pos((n - 1) as nat);
        lemma_bits_value_of_any(value / 2, (n - 1) as nat);
        lemma_bits_value_push(bits_of(value / 2, (n - 1) as nat), value % 2 == 1);
        lemma_half_then_div(value, pow2((n - 1) as nat) as int);
    }
}

/// No bit of a sample is lost: a number that `n` bits of two's complement
/// hold is read back from its `n` low bits.
pub proof fn lemma_signed_value_of(value: int, n: nat)
    requires
        n >= 1,
        -pow2((n - 1) as nat) <= value < pow2((n - 1) as nat),
    ensures
        signed_value(bits_of(value, n)) == value,
{
    let bits = bits_of(value, n);
    let half = pow2((n - 1) as nat) as int;
    lemma2_to64();
    vstd::arithmetic::power2::lemma_pow2_unfold(n);
    vstd::arithmetic::power2::lemma_pow2_pos((n - 1) as nat);
    lemma_bits_of_len(value, n);
    lemma_bits_value_of_any(value, n);
    lemma_bits_of_take(value, n, (n - 1) as nat);
    let top = bits_of(value / half, 1);
    assert(top =~= seq![(value / half) % 2 == 1]) by {
        assert(bits_of(value / half / 2, 0) =~= Seq::<bool>::empty());
    }
    assert(bits[0] == bits.take(1)[0]);
    if value >= 0 {
        vstd::arithmetic::div_mod::lemma_fundamental_div_mod_converse(value, half, 0, value);
        vstd::arithmetic::div_mod::lemma_fundamental_div_mod_converse(value, 2 * half, 0, value);
    } else {
        vstd::arithmetic::div_mod::lemma_fundamental_div_mod_converse(
            value,
            half,
            -1,
            value + half,
        );
        vstd::arithmetic::div_mod::lemma_fundamental_div_mod_converse(
            value,
            2 * half,
            -1,
            value + 2 * half,
        );
    }
}

/// The lowest bit of an unsigned number is its remainder by two, and a
/// shift right by one halves it.
pub proof fn lemma_u64_low_bit(value: u64)
    ensures
        (value & 1 == 1) == (value % 2 == 1),
        value >> 1 == value / 2,
{
    assert((value & 1 == 1) == (value % 2 == 1)) by (bit_vector);
    assert(value >> 1 == value / 2) by (bit_vector);
}

/// The lowest bit of a signed number is its remainder by two, and an
/// arithmetic shift right by one halves it, rounding down.
pub proof fn lemma_i64_low_bit(value: i64)
    ensures
        (value & 1 == 1) == (value % 2 == 1),
        (value & 1 == 0) == (value % 2 == 0),
        value >> 1 == value / 2,
{
    assert((value & 1 == 1) == (value % 2 == 1)) by (bit_vector);
    assert((value & 1 == 0) == (value % 2 == 0)) by (bit_vector);
    assert(value >> 1 == value / 2) by (bit_vector);
}

/// An accumulator of bits that hands them out as bytes.
pub struct BitstreamWriter {
    bytes: Vec<u8>,
    cur: u8,
    nbits: u8,
}

impl View for BitstreamWriter {
    type V = Seq<bool>;

    /// Every bit written so far, in order.
    closed spec fn view(&self) -> Seq<bool> {
        bytes_bits(self.bytes@) + bits_of(self.cur as int, self.nbits as nat)
    }
}

impl BitstreamWriter {
    /// The pending bits are fewer than eight and lie in the low end of the
    /// pending byte.
    pub closed spec fn wf(&self) -> bool {
        &&& self.nbits < 8
        &&& (self.cur as int) < pow2(self.nbits as nat)
    }

    /// A writer that holds no bits.
    pub fn new() -> (writer: Self)
        ensures
            writer.wf(),
            writer@ == Seq::<bool>::empty(),
    {
        proof {
            lemma2_to64();
        }
        BitstreamWriter { bytes: Vec::new(), cur: 0, nbits: 0 }
    }

    /// Appends one bit.
    pub fn write_bit(&mut self, bit: bool)
        requires
            old(self).wf(),
        ensures
            final(self).wf(),
            final(self)@ == old(self)@.push(bit),
    {
        proof {
            lemma2_to64();
        }
        let b: u8 = if bit {
            1
        } else {
            0
        };
        if self.nbits == 7 {
            let byte: u8 = self.cur * 2 + b;
            self.bytes.push(byte);
            self.cur = 0;
            self.nbits = 0;
            proof {
                assert(final(self).bytes@.drop_last() =~= old(self).bytes@);
                assert(bits_of(byte as int, 8) =~= bits_of(old(self).cur as int, 7).push(bit));
                assert(final(self)@ =~= old(self)@.push(bit));
            }
        } else {
            self.nbits = self.nbits + 1;
            self.cur = self.cur * 2 + b;
            proof {
                assert(bits_of(final(self).cur as int, final(self).nbits as nat) =~= bits_of(
                    old(self).cur as int,
                    old(self).nbits as nat,
                ).push(bit));
                assert(final(self)@ =~= old(self)@.push(bit));
            }
        }
    }

    /// Appends the low `n` bits of `value`, most significant first.
    pub fn write_bits(&mut self, value: u64, n: u8)
        requires
            old(self).wf(),
            n <= 64,
        ensures
            final(self).wf(),
            final(self)@ == old(self)@ + bits_of(value as int, n as nat),
        decreases n,
    {
        if n > 0 {
            self.write_bits(value >> 1, n - 1);
            self.write_bit((value & 1) == 1);
            proof {
                lemma_u64_low_bit(value);
                assert(final(self)@ =~= old(self)@ + bits_of(value as int, n as nat));
            }
        } else {
            proof {
                assert(self@ =~= old(self)@ + bits_of(value as int, 0));
            }
        }
    }

    /// Appends `value` as an `n`-bit two's complement number.
    pub fn write_signed(&mut self, value: i64, n: u8)
        requires
            old(self).wf(),
            n <= 64,
        ensures
            final(self).wf(),
            final(self)@ == old(self)@ + bits_of(value as int, n as nat),
        decreases n,
    {
        if n > 0 {
            self.write_signed(value >> 1, n - 1);
            self.write_bit((value & 1) == 1);
            proof {
                lemma_i64_low_bit(value);
                assert(final(self)@ =~= old(self)@ + bits_of(value as int, n as nat));
            }
        } else {
            proof {
                assert(self@ =~= old(self)@ + bits_of(value as int, 0));
            }
        }
    }

    /// Appends `q` in unary: `q` zero bits and a one.
    pub fn write_unary(&mut self, q: u64)
        requires
            old(self).wf(),
        ensures
            final(self).wf(),
            final(self)@ == old(self)@ + unary(q as nat),
    {
        let mut i: u64 = 0;
        while i < q
            invariant
                i <= q,
                self.wf(),
                self@ == old(self)@ + zeros(i as nat),
            decreases q - i,
        {
            self.write_bit(false);
            i = i + 1;
            proof {
                assert(self@ =~= old(self)@ + zeros(i as nat));
            }
        }
        self.write_bit(true);
        proof {
            assert(self@ =~= old(self)@ + unary(q as nat));
        }
    }

    /// The number of bits that the last byte of [`Self::bytes`] holds beyond
    /// the bits written.
    pub fn unused_bits(&self) -> (unused: u8)
        requires
            self.wf(),
        ensures
            unused == pad_len(self@.len()),
            unused < 8,
    {
        proof {
            lemma_bytes_bits_len(self.bytes@);
            lemma_bits_of_len(self.cur as int, self.nbits as nat);
        }
        if self.nbits == 0 {
            0
        } else {
            8 - self.nbits
        }
    }

    /// Pads with zero bits to the next byte boundary and says how many were
    /// needed.
    pub fn align_to_byte(&mut self) -> (padded: u8)
        requires
            old(self).wf(),
        ensures
            final(self).wf(),
            padded == pad_len(old(self)@.len()),
            final(self)@ == old(self)@ + zeros(padded as nat),
            final(self)@.len() % 8 == 0,
    {
        let padded = self.unused_bits();
        let mut i: u8 = 0;
        while i < padded
            invariant
                i <= padded,
                self.wf(),
                self@ == old(self)@ + zeros(i as nat),
            decreases padded - i,
        {
            self.write_bit(false);
            i = i + 1;
            proof {
                assert(self@ =~= old(self)@ + zeros(i as nat));
            }
        }
        padded
    }

    /// The number of bits written.
    pub fn bit_position(&self) -> (position: u64)
        requires
            self.wf(),
            self@.len() <= u64::MAX,
        ensures
            position == self@.len(),
    {
        proof {
            lemma_bytes_bits_len(self.bytes@);
            lemma_bits_of_len(self.cur as int, self.nbits as nat);
        }
        (self.bytes.len() as u64) * 8 + (self.nbits as u64)
    }

    /// The bits written, packed into bytes; zero bits fill the last byte.
    pub fn bytes(&self) -> (out: Vec<u8>)
        requires
            self.wf(),
        ensures
            out@ == pack(self@),
    {
        let mut out = self.bytes.clone();
        proof {
            assert(out@ =~= self.bytes@);
            lemma_pack_partial(self.bytes@, self.cur as int, self.nbits as nat);
            lemma2_to64();
        }
        if self.nbits > 0 {
            let shift: u8 = 8 - self.nbits;
            proof {
                vstd::bits::lemma_u8_shl_is_mul(self.cur, shift);
            }
            out.push(self.cur << shift);
        }
        out
    }

    /// Appends the bits of a byte stream whose last byte ends in `unused`
    /// filler bits.
    pub fn write_stream(&mut self, bytes: &Vec<u8>, unused: u8)
        requires
            old(self).wf(),
            unused < 8,
            unused > 0 ==> bytes@.len() > 0,
        ensures
            final(self).wf(),
            final(self)@ == old(self)@ + unpack(bytes@, unused as nat),
    {
        let n = bytes.len();
        if n == 0 {
            proof {
                assert(self@ =~= old(self)@ + unpack(bytes@, unused as nat));
            }
            return ;
        }
        let mut i: usize = 0;
        while i < n - 1
            invariant
                i <= n - 1,
                n == bytes@.len(),
                self.wf(),
                self@ == old(self)@ + bytes_bits(bytes@.take(i as int)),
            decreases n - 1 - i,
        {
            proof {
                assert(bytes@.take(i + 1).drop_last() =~= bytes@.take(i as int));
                assert(self@ + bits_of(bytes@[i as int] as int, 8) =~= old(self)@ + bytes_bits(
                    bytes@.take(i + 1),
                ));
            }
            self.write_bits(bytes[i] as u64, 8);
            i = i + 1;
        }
        let last: u8 = bytes[n - 1];
        proof {
            lemma2_to64();
            vstd::bits::lemma_u8_shr_is_div(last, unused);
            lemma_bits_of_take(last as int, 8, unused as nat);
            lemma_bytes_bits_len(bytes@.drop_last());
            lemma_bits_of_len(last as int, 8);
            assert(bytes@.take(n - 1) =~= bytes@.drop_last());
            assert(unpack(bytes@, unused as nat) =~= bytes_bits(bytes@.drop_last()) + bits_of(
                last as int,
                8,
            ).take(8 - unused));
        }
        self.write_bits((last >> unused) as u64, 8 - unused);
        proof {
            assert(self@ =~= old(self)@ + unpack(bytes@, unused as nat));
        }
    }
}

} // verus!
