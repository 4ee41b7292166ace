//! PCM in a WAVE container: the chunks that describe it, and the samples.

use vstd::arithmetic::power2::pow2;
use vstd::prelude::*;

verus! {

/// The number that a byte sequence spells, least significant byte first.
pub open spec fn le_unsigned(bytes: Seq<u8>) -> nat
    decreases bytes.len(),
{
    if bytes.len() == 0 {
        0
    } else {
        bytes[0] as nat + 256 * le_unsigned(bytes.drop_first())
    }
}

/// The number that a byte sequence spells, most significant byte first.
pub open spec fn be_unsigned(bytes: Seq<u8>) -> nat
    decreases bytes.len(),
{
    if bytes.len() == 0 {
        0
    } else {
        256 * be_unsigned(bytes.drop_last()) + bytes.last() as nat
    }
}

/// The two's complement number that a byte sequence spells, least
/// significant byte first.
pub open spec fn le_signed(bytes: Seq<u8>) -> int {
    if bytes.len() > 0 && bytes.last() >= 0x80 {
        le_unsigned(bytes) - pow2(8 * bytes.len())
    } else {
        le_unsigned(bytes) as int
    }
}

/// The four bytes that open a container in little-endian order: `RIFF`.
pub open spec fn riff_tag() -> Seq<u8> {
    seq![0x52u8, 0x49u8, 0x46u8, 0x46u8]
}

/// The four bytes that open a container in big-endian order: `RIFX`.
pub open spec fn rifx_tag() -> Seq<u8> {
    seq![0x52u8, 0x49u8, 0x46u8, 0x58u8]
}

/// The four bytes that name the form of the container: `WAVE`.
pub open spec fn wave_tag() -> Seq<u8> {
    seq![0x57u8, 0x41u8, 0x56u8, 0x45u8]
}

/// The four bytes that open the format chunk: `fmt ` with its blank.
pub open spec fn fmt_tag() -> Seq<u8> {
    seq![0x66u8, 0x6Du8, 0x74u8, 0x20u8]
}

/// The length of the head of a container: tag, size and form.
pub const RIFF_HEAD_LEN: usize = 12;

/// The length of a format chunk of PCM: tag, size and sixteen bytes.
pub const FMT_CHUNK_LEN: usize = 24;

/// The format code of plain PCM.
pub const PCM_FORMAT: u16 = 1;

/// The head of a container.
pub struct RiffChunk {
    pub file_size: u32,
    pub is_big_endian: bool,
}

/// The shape of the PCM in a container.
#[derive(Clone, Copy)]
pub struct PCMWaveFormatChunk {
    pub num_channels: u16,
    pub samp_rate: u32,
    pub bps: u16,
}

/// The reader of WAVE containers.
pub struct WaveReader;

/// What can be wrong with a container.
#[derive(Debug)]
pub enum WaveReaderError {
    NotRiffError,
    NotWaveError,
    NotPCMError,
    ChunkTypeError,
    DataAlignmentError,
    ReadError,
}

/// Calls `byteorder::LittleEndian::read_u16` on the bytes from `at` on.
/// Claimed of it: the result is the number that the first two of them
/// spell, least significant byte first.
#[verifier::external_body]
fn le_u16_at(bytes: &Vec<u8>, at: usize) -> (value: u16)
    requires
        at + 2 <= bytes@.len(),
    ensures
        value == le_unsigned(bytes@.subrange(at as int, at + 2)),
{
    <byteorder::LittleEndian as byteorder::ByteOrder>::read_u16(&bytes[at..])
}

/// Calls `byteorder::LittleEndian::read_u32` on the bytes from `at` on.
/// Claimed of it: the result is the number that the first four of them
/// spell, least significant byte first.
#[verifier::external_body]
fn le_u32_at(bytes: &Vec<u8>, at: usize) -> (value: u32)
    requires
        at + 4 <= bytes@.len(),
    ensures
        value == le_unsigned(bytes@.subrange(at as int, at + 4)),
{
    <byteorder::LittleEndian as byteorder::ByteOrder>::read_u32(&bytes[at..])
}

/// Calls `byteorder::BigEndian::read_u32` on the bytes from `at` on.
/// Claimed of it: the result is the number that the first four of them
/// spell, most significant byte first.
#[verifier::external_body]
fn be_u32_at(bytes: &Vec<u8>, at: usize) -> (value: u32)
    requires
        at + 4 <= bytes@.len(),
    ensures
        value == be_unsigned(bytes@.subrange(at as int, at + 4)),
{
    <byteorder::BigEndian as byteorder::ByteOrder>::read_u32(&bytes[at..])
}

/// Calls `byteorder::LittleEndian::read_int` on the bytes from `at` on.
/// Claimed of it: the result is the two's complement number that the first
/// `nbytes` of them spell, least significant byte first.
#[verifier::external_body]
fn le_int_at(bytes: &Vec<u8>, at: usize, nbytes: usize) -> (value: i64)
    requires
        1 <= nbytes <= 8,
        at + nbytes <= bytes@.len(),
    ensures
        value == le_signed(bytes@.subrange(at as int, at + nbytes)),
{
    <byteorder::LittleEndian as byteorder::ByteOrder>::read_int(&bytes[at..], nbytes)
}

/// Whether the four bytes of `bytes` from `at` on are `tag`.
fn has_tag(bytes: &Vec<u8>, at: usize, b0: u8, b1: u8, b2: u8, b3: u8) -> (found: bool)
    requires
        at + 4 <= bytes@.len(),
    ensures
        found == (bytes@.subrange(at as int, at + 4) == seq![b0, b1, b2, b3]),
{
    let len = bytes.len();
    let found = bytes[at] == b0 && bytes[at + 1] == b1 && bytes[at + 2] == b2 && bytes[at + 3]
        == b3;
    proof {
        let part = bytes@.subrange(at as int, at + 4);
        if found {
            assert(part =~= seq![b0, b1, b2, b3]);
        } else {
            assert(part[0] == bytes@[at as int]);
            assert(part[1] == bytes@[at + 1]);
            assert(part[2] == bytes@[at + 2]);
            assert(part[3] == bytes@[at + 3]);
        }
    }
    found
}

impl PCMWaveFormatChunk {
    /// The number of bytes that hold one sample.
    pub open spec fn sample_bytes(&self) -> nat {
        ((self.bps + 7) / 8) as nat
    }

    /// The number of bytes that hold one sample of every channel.
    pub open spec fn frame_bytes(&self) -> nat {
        self.num_channels as nat * self.sample_bytes()
    }

    /// Whether the reader takes PCM of this shape: at least one channel, and
    /// 4 to 32 bits a sample.
    pub open spec fn is_supported(&self) -> bool {
        &&& self.num_channels >= 1
        &&& 4 <= self.bps <= 32
    }

    /// The number of bytes that one second of sound takes.
    pub fn byte_rate(&self) -> (rate: u32)
        requires
            self.samp_rate * self.frame_bytes() <= u32::MAX,
        ensures
            rate == self.samp_rate * self.frame_bytes(),
    {
        proof {
            assert(self.num_channels as nat * self.sample_bytes() <= 65535 * 8192) by (nonlinear_arith)
                requires
                    self.num_channels <= 65535,
                    self.sample_bytes() <= 8192,
            ;
        }
        let align: u64 = (self.num_channels as u64) * ((self.bps as u64 + 7) / 8);
        proof {
            assert(self.samp_rate * align <= 0xFFFF_FFFF * (65535 * 8192)) by (nonlinear_arith)
                requires
                    self.samp_rate <= 0xFFFF_FFFF,
                    align <= 65535 * 8192,
            ;
        }
        ((self.samp_rate as u64) * align) as u32
    }

    /// The number of bytes that hold one sample of every channel.
    pub fn block_align(&self) -> (align: u16)
        requires
            self.frame_bytes() <= u16::MAX,
        ensures
            align == self.frame_bytes(),
    {
        proof {
            assert(self.num_channels as nat * self.sample_bytes() <= 65535 * 8192) by (nonlinear_arith)
                requires
                    self.num_channels <= 65535,
                    self.sample_bytes() <= 8192,
            ;
        }
        let align: u64 = (self.num_channels as u64) * ((self.bps as u64 + 7) / 8);
        align as u16
    }
}

/// Sample `i` of channel `ch` in the data of a container.
pub open spec fn sample_at(data: Seq<u8>, format: PCMWaveFormatChunk, ch: int, i: int) -> int {
    let start = i * format.frame_bytes() + ch * format.sample_bytes();
    le_signed(data.subrange(start, start + format.sample_bytes()))
}

impl WaveReader {
    /// The head of a container, from its first bytes.
    pub fn read_riff_chunk(bytes: &Vec<u8>) -> (head: Result<RiffChunk, WaveReaderError>)
        ensures
            match head {
                Ok(chunk) => {
                    &&& bytes@.len() >= RIFF_HEAD_LEN
                    &&& bytes@.subrange(8, 12) == wave_tag()
                    &&& if chunk.is_big_endian {
                        bytes@.subrange(0, 4) == rifx_tag() && chunk.file_size == be_unsigned(
                            bytes@.subrange(4, 8),
                        )
                    } else {
                        bytes@.subrange(0, 4) == riff_tag() && chunk.file_size == le_unsigned(
                            bytes@.subrange(4, 8),
                        )
                    }
                },
                Err(WaveReaderError::ReadError) => bytes@.len() < RIFF_HEAD_LEN,
                Err(WaveReaderError::NotRiffError) => {
                    &&& bytes@.len() >= RIFF_HEAD_LEN
                    &&& bytes@.subrange(0, 4) != riff_tag()
                    &&& bytes@.subrange(0, 4) != rifx_tag()
                },
                Err(WaveReaderError::NotWaveError) => {
                    &&& bytes@.len() >= RIFF_HEAD_LEN
                    &&& (bytes@.subrange(0, 4) == riff_tag() || bytes@.subrange(0, 4)
                        == rifx_tag())
                    &&& bytes@.subrange(8, 12) != wave_tag()
                },
                Err(_) => false,
            },
    {
        if bytes.len() < RIFF_HEAD_LEN {
            return Err(WaveReaderError::ReadError);
        }
        let little = has_tag(bytes, 0, 0x52, 0x49, 0x46, 0x46);
        let big = has_tag(bytes, 0, 0x52, 0x49, 0x46, 0x58);
        if !little && !big {
            return Err(WaveReaderError::NotRiffError);
        }
        if !has_tag(bytes, 8, 0x57, 0x41, 0x56, 0x45) {
            return Err(WaveReaderError::NotWaveError);
        }
        let file_size = if big {
            be_u32_at(bytes, 4)
        } else {
            le_u32_at(bytes, 4)
        };
        proof {
            assert(riff_tag() != rifx_tag()) by {
                assert(riff_tag()[3] != rifx_tag()[3]);
            }
        }
        Ok(RiffChunk { file_size, is_big_endian: big })
    }

    /// The shape of the PCM, from the bytes of the format chunk.
    pub fn read_fmt_chunk(bytes: &Vec<u8>) -> (format: Result<PCMWaveFormatChunk, WaveReaderError>)
        ensures
            match format {
                Ok(chunk) => {
                    &&& bytes@.len() >= FMT_CHUNK_LEN
                    &&& bytes@.subrange(0, 4) == fmt_tag()
                    &&& le_unsigned(bytes@.subrange(8, 10)) == PCM_FORMAT
                    &&& chunk.num_channels == le_unsigned(bytes@.subrange(10, 12))
                    &&& chunk.samp_rate == le_unsigned(bytes@.subrange(12, 16))
                    &&& chunk.bps == le_unsigned(bytes@.subrange(22, 24))
                },
                Err(WaveReaderError::ReadError) => bytes@.len() < FMT_CHUNK_LEN,
                Err(WaveReaderError::ChunkTypeError) => {
                    &&& bytes@.len() >= FMT_CHUNK_LEN
                    &&& bytes@.subrange(0, 4) != fmt_tag()
                },
                Err(WaveReaderError::NotPCMError) => {
                    &&& bytes@.len() >= FMT_CHUNK_LEN
                    &&& bytes@.subrange(0, 4) == fmt_tag()
                    &&& le_unsigned(bytes@.subrange(8, 10)) != PCM_FORMAT
                },
                Err(_) => false,
            },
    {
        if bytes.len() < FMT_CHUNK_LEN {
            return Err(WaveReaderError::ReadError);
        }
        if !has_tag(bytes, 0, 0x66, 0x6D, 0x74, 0x20) {
            return Err(WaveReaderError::ChunkTypeError);
        }
        if le_u16_at(bytes, 8) != PCM_FORMAT {
            return Err(WaveReaderError::NotPCMError);
        }
        Ok(
            PCMWaveFormatChunk {
                num_channels: le_u16_at(bytes, 10),
                samp_rate: le_u32_at(bytes, 12),
                bps: le_u16_at(bytes, 22),
            },
        )
    }

    /// The samples of each channel, from the bytes of the data chunk.
    #[verifier::rlimit(40)]
    pub fn read_data_chunk(data: &Vec<u8>, fmt_info: &PCMWaveFormatChunk) -> (samples: Result<
        Vec<Vec<i64>>,
        WaveReaderError,
    >)
        ensures
            match samples {
                Ok(channels) => {
                    &&& fmt_info.is_supported()
                    &&& data@.len() % fmt_info.frame_bytes() == 0
                    &&& channels@.len() == fmt_info.num_channels
                    &&& forall|ch: int|
                        0 <= ch < channels@.len() ==> {
                            &&& (#[trigger] channels@[ch])@.len() == data@.len()
                                / fmt_info.frame_bytes()
                            &&& forall|i: int|
                                0 <= i < channels@[ch]@.len() ==> #[trigger] channels@[ch]@[i]
                                    == sample_at(data@, *fmt_info, ch, i)
                        }
                },
                Err(WaveReaderError::NotPCMError) => !fmt_info.is_supported(),
                Err(WaveReaderError::DataAlignmentError) => {
                    &&& fmt_info.is_supported()
                    &&& data@.len() % fmt_info.frame_bytes() != 0
                },
                Err(_) => false,
            },
    {
        if fmt_info.num_channels < 1 || fmt_info.bps < 4 || fmt_info.bps > 32 {
            return Err(WaveReaderError::NotPCMError);
        }
        let nbytes: usize = (fmt_info.bps as usize + 7) / 8;
        let count: usize = fmt_info.num_channels as usize;
        proof {
            assert(count * nbytes <= 65535 * 4) by (nonlinear_arith)
                requires
                    count <= 65535,
                    nbytes <= 4,
            ;
            assert(count * nbytes >= 1) by (nonlinear_arith)
                requires
                    count >= 1,
                    nbytes >= 1,
            ;
        }
        let stride: usize = count * nbytes;
        if data.len() % stride != 0 {
            return Err(WaveReaderError::DataAlignmentError);
        }
        let frames: usize = data.len() / stride;
        proof {
            vstd::arithmetic::div_mod::lemma_fundamental_div_mod(data@.len() as int, stride as int);
        }
        let mut channels: Vec<Vec<i64>> = Vec::new();
        let mut ch: usize = 0;
        while ch < count
            invariant
                ch <= count,
                count == fmt_info.num_channels,
                nbytes == fmt_info.sample_bytes(),
                1 <= nbytes <= 4,
                stride == count * nbytes,
                stride == fmt_info.frame_bytes(),
                stride >= 1,
                frames == data@.len() as int / (stride as int),
                data@.len() == stride * frames,
                channels@.len() == ch,
                forall|c: int|
                    0 <= c < ch ==> {
                        &&& (#[trigger] channels@[c])@.len() == frames
                        &&& forall|i: int|
                            0 <= i < frames ==> #[trigger] channels@[c]@[i] == sample_at(
                                data@,
                                *fmt_info,
                                c,
                                i,
                            )
                    },
            decreases count - ch,
        {
            proof {
                assert(ch * nbytes + nbytes <= count * nbytes) by (nonlinear_arith)
                    requires
                        ch + 1 <= count,
                ;
            }
            let mut channel: Vec<i64> = Vec::new();
            let mut i: usize = 0;
            let mut offset: usize = ch * nbytes;
            while i < frames
                invariant
                    i <= frames,
                    ch < count,
                    nbytes == fmt_info.sample_bytes(),
                    1 <= nbytes <= 4,
                    stride == fmt_info.frame_bytes(),
                    ch * nbytes + nbytes <= stride,
                    data@.len() == stride * frames,
                    i < frames ==> offset == i * stride + ch * nbytes,
                    channel@.len() == i,
                    forall|k: int|
                        0 <= k < i ==> #[trigger] channel@[k] == sample_at(
                            data@,
                            *fmt_info,
                            ch as int,
                            k,
                        ),
                decreases frames - i,
            {
                proof {
                    assert(i * stride + stride <= stride * frames) by (nonlinear_arith)
                        requires
                            i + 1 <= frames,
                    ;
                    assert((i + 1) * stride == i * stride + stride) by (nonlinear_arith);
                }
                channel.push(le_int_at(data, offset, nbytes));
                i = i + 1;
                if i < frames {
                    proof {
                        assert(i * stride + stride <= stride * frames) by (nonlinear_arith)
                            requires
                                i + 1 <= frames,
                        ;
                        assert(i * stride == (i - 1) * stride + stride) by (nonlinear_arith);
                    }
                    let len = data.len();
                    offset = offset + stride;
                }
            }
            channels.push(channel);
            ch = ch + 1;
        }
        Ok(channels)
    }
}

} // verus!
