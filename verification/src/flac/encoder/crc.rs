//! CRC-8 and CRC-16 as FLAC frames carry them: seed zero, most significant
//! bit first, no reflection and no final XOR.

use vstd::prelude::*;

verus! {

/// One rotation of an 8-bit CRC register: shift left, and fold the
/// polynomial in when the bit shifted out was set.
pub open spec fn crc8_shift(poly: u8, reg: u8) -> u8 {
    if reg & 0x80 != 0 {
        (reg << 1) ^ poly
    } else {
        reg << 1
    }
}

/// `n` rotations of an 8-bit CRC register.
pub open spec fn crc8_rounds(poly: u8, reg: u8, n: nat) -> u8
    decreases n,
{
    if n == 0 {
        reg
    } else {
        crc8_shift(poly, crc8_rounds(poly, reg, (n - 1) as nat))
    }
}

/// The CRC-8 of `data` under `poly`, seed zero.
pub open spec fn crc8(poly: u8, data: Seq<u8>) -> u8
    decreases data.len(),
{
    if data.len() == 0 {
        0
    } else {
        crc8_rounds(poly, crc8(poly, data.drop_last()) ^ data.last(), 8)
    }
}

/// One rotation of a 16-bit CRC register.
pub open spec fn crc16_shift(poly: u16, reg: u16) -> u16 {
    if reg & 0x8000 != 0 {
        (reg << 1) ^ poly
    } else {
        reg << 1
    }
}

/// `n` rotations of a 16-bit CRC register.
pub open spec fn crc16_rounds(poly: u16, reg: u16, n: nat) -> u16
    decreases n,
{
    if n == 0 {
        reg
    } else {
        crc16_shift(poly, crc16_rounds(poly, reg, (n - 1) as nat))
    }
}

/// The CRC-16 of `data` under `poly`, seed zero. Each input byte enters the
/// high byte of the register.
pub open spec fn crc16(poly: u16, data: Seq<u8>) -> u16
    decreases data.len(),
{
    if data.len() == 0 {
        0
    } else {
        crc16_rounds(poly, crc16(poly, data.drop_last()) ^ ((data.last() as u16) << 8), 8)
    }
}

/// A rotation of a register that holds zero leaves zero.
proof fn lemma_crc8_shift_of_zero(poly: u8)
    ensures
        crc8_shift(poly, 0) == 0,
{
    let zero: u8 = 0;
    assert(zero & 0x80 == 0 && zero << 1 == 0) by (bit_vector)
        requires
            zero == 0,
    ;
}

/// Data followed by its CRC-8 has the CRC-8 zero.
pub proof fn lemma_crc8_residue(poly: u8, data: Seq<u8>)
    ensures
        crc8(poly, data.push(crc8(poly, data))) == 0,
{
    let crc = crc8(poly, data);
    assert(data.push(crc).drop_last() =~= data);
    assert(crc ^ crc == 0) by (bit_vector);
    lemma_crc8_shift_of_zero(poly);
    reveal_with_fuel(crc8_rounds, 9);
}

/// Eight rotations of a register whose high byte is zero move its low byte
/// up, whatever the polynomial.
proof fn lemma_crc16_of_low_byte(poly: u16, low: u16)
    requires
        low <= 0xff,
    ensures
        crc16_rounds(poly, low, 8) == low << 8,
{
    let s1 = low << 1;
    let s2 = s1 << 1;
    let s3 = s2 << 1;
    let s4 = s3 << 1;
    let s5 = s4 << 1;
    let s6 = s5 << 1;
    let s7 = s6 << 1;
    let s8 = s7 << 1;
    assert(low & 0x8000 == 0 && s1 & 0x8000 == 0 && s2 & 0x8000 == 0 && s3 & 0x8000 == 0 && s4
        & 0x8000 == 0 && s5 & 0x8000 == 0 && s6 & 0x8000 == 0 && s7 & 0x8000 == 0 && s8 == low
        << 8) by (bit_vector)
        requires
            low <= 0xff,
            s1 == low << 1,
            s2 == s1 << 1,
            s3 == s2 << 1,
            s4 == s3 << 1,
            s5 == s4 << 1,
            s6 == s5 << 1,
            s7 == s6 << 1,
            s8 == s7 << 1,
    ;
    reveal_with_fuel(crc16_rounds, 9);
}

/// Data followed by its CRC-16, the high byte first, has the CRC-16 zero.
pub proof fn lemma_crc16_residue(poly: u16, data: Seq<u8>)
    ensures
        crc16(
            poly,
            data.push((crc16(poly, data) / 256) as u8).push((crc16(poly, data) % 256) as u8),
        ) == 0,
{
    let crc: u16 = crc16(poly, data);
    let high: u8 = (crc / 256) as u8;
    let low: u8 = (crc % 256) as u8;
    let first = data.push(high);
    let both = first.push(low);
    assert(first.drop_last() =~= data);
    assert(both.drop_last() =~= first);
    let high_word: u16 = high as u16;
    let low_word: u16 = low as u16;
    assert(high_word == crc / 256 && low_word == crc % 256);
    let after_high: u16 = crc ^ (high_word << 8);
    assert(after_high == low_word && after_high <= 0xff) by (bit_vector)
        requires
            high_word == crc / 256u16,
            low_word == crc % 256u16,
            after_high == crc ^ (high_word << 8),
    ;
    lemma_crc16_of_low_byte(poly, after_high);
    assert(crc16(poly, first) == after_high << 8);
    let after_low: u16 = (after_high << 8) ^ (low_word << 8);
    assert(after_low == 0) by (bit_vector)
        requires
            after_high == low_word,
            after_low == (after_high << 8) ^ (low_word << 8),
    ;
    lemma_crc16_of_low_byte(poly, 0);
    assert(0u16 << 8 == 0u16) by (bit_vector);
}

/// Whether every element of `data` is a byte value.
pub open spec fn all_bytes(data: Seq<u16>) -> bool {
    forall|i: int| 0 <= i < data.len() ==> data[i] <= 0xff
}

/// The bytes that a sequence of byte values held in 16-bit words stands for.
pub open spec fn low_bytes(data: Seq<u16>) -> Seq<u8> {
    Seq::new(data.len(), |i: int| data[i] as u8)
}

/// Takes one byte into an 8-bit CRC register.
pub fn crc8_update(poly: u8, reg: u8, byte: u8) -> (out: u8)
    ensures
        out == crc8_rounds(poly, reg ^ byte, 8),
{
    let mut crc: u8 = reg ^ byte;
    let mut round: u8 = 0;
    while round < 8
        invariant
            round <= 8,
            crc == crc8_rounds(poly, reg ^ byte, round as nat),
        decreases 8 - round,
    {
        if (crc & 0x80) != 0 {
            crc = (crc << 1) ^ poly;
        } else {
            crc = crc << 1;
        }
        round = round + 1;
    }
    crc
}

/// Takes one byte into a 16-bit CRC register.
pub fn crc16_update(poly: u16, reg: u16, byte: u8) -> (out: u16)
    ensures
        out == crc16_rounds(poly, reg ^ ((byte as u16) << 8), 8),
{
    let mut crc: u16 = reg ^ ((byte as u16) << 8);
    let mut round: u8 = 0;
    while round < 8
        invariant
            round <= 8,
            crc == crc16_rounds(poly, reg ^ ((byte as u16) << 8), round as nat),
        decreases 8 - round,
    {
        if (crc & 0x8000) != 0 {
            crc = (crc << 1) ^ poly;
        } else {
            crc = crc << 1;
        }
        round = round + 1;
    }
    crc
}

/// The CRC-8 polynomial of FLAC frame headers: x^8 + x^2 + x + 1.
pub const FRAME_CRC8_POLY: u8 = 0x07;

/// The CRC-16 polynomial of FLAC frames: x^16 + x^15 + x^2 + 1.
pub const FRAME_CRC16_POLY: u16 = 0x8005;

/// The CRC-8 of `data` under `poly`.
pub fn crc8_of_bytes(poly: u8, data: &Vec<u8>) -> (crc: u8)
    ensures
        crc == crc8(poly, data@),
{
    CrcOptions::new(poly, 8u8).build_crc8(data)
}

/// The CRC-16 of `data` under `poly`.
pub fn crc16_of_bytes(poly: u16, data: &Vec<u8>) -> (crc: u16)
    ensures
        crc == crc16(poly, data@),
{
    let mut crc: u16 = 0;
    let mut i: usize = 0;
    while i < data.len()
        invariant
            i <= data.len(),
            crc == crc16(poly, data@.take(i as int)),
        decreases data.len() - i,
    {
        proof {
            assert(data@.take(i + 1).drop_last() =~= data@.take(i as int));
        }
        crc = crc16_update(poly, crc, data[i]);
        i = i + 1;
    }
    proof {
        assert(data@.take(i as int) =~= data@);
    }
    crc
}

/// The configuration of a CRC: the generator polynomial without its leading
/// term, and the register width in bits.
pub struct CrcOptions<T> {
    poly: T,
    poly_len: T,
}

impl<T> CrcOptions<T> {
    /// The generator polynomial, leading term left out.
    pub closed spec fn poly(&self) -> T {
        self.poly
    }

    /// The register width in bits.
    pub closed spec fn poly_len(&self) -> T {
        self.poly_len
    }

    /// A CRC configuration with the given polynomial and register width.
    pub fn new(poly: T, poly_len: T) -> (options: Self)
        ensures
            options.poly() == poly,
            options.poly_len() == poly_len,
    {
        Self { poly, poly_len }
    }
}

impl CrcOptions<u8> {
    /// The CRC-8 of `data`.
    pub fn build_crc8(&self, data: &Vec<u8>) -> (crc: u8)
        requires
            self.poly_len() == 8,
        ensures
            crc == crc8(self.poly(), data@),
    {
        let mut crc: u8 = 0;
        let mut i: usize = 0;
        while i < data.len()
            invariant
                i <= data.len(),
                crc == crc8(self.poly(), data@.take(i as int)),
            decreases data.len() - i,
        {
            proof {
                assert(data@.take(i + 1).drop_last() =~= data@.take(i as int));
            }
            crc = crc8_update(self.poly, crc, data[i]);
            i = i + 1;
        }
        proof {
            assert(data@.take(i as int) =~= data@);
        }
        crc
    }
}

impl CrcOptions<u16> {
    /// The CRC-16 of the bytes that `data` holds, one byte value to a word.
    pub fn build_crc16(&self, data: &Vec<u16>) -> (crc: u16)
        requires
            self.poly_len() == 16,
            all_bytes(data@),
        ensures
            crc == crc16(self.poly(), low_bytes(data@)),
    {
        let mut crc: u16 = 0;
        let mut i: usize = 0;
        while i < data.len()
            invariant
                i <= data.len(),
                all_bytes(data@),
                crc == crc16(self.poly(), low_bytes(data@).take(i as int)),
            decreases data.len() - i,
        {
            proof {
                assert(low_bytes(data@).take(i + 1).drop_last() =~= low_bytes(data@).take(
                    i as int,
                ));
            }
            let word: u16 = data[i];
            let byte: u8 = word as u8;
            crc = crc16_update(self.poly, crc, byte);
            i = i + 1;
        }
        proof {
            assert(low_bytes(data@).take(i as int) =~= low_bytes(data@));
        }
        crc
    }
}

} // verus!
