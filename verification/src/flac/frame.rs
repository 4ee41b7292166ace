//! Frames: a header with its CRC-8, one subframe for each channel, filler
//! to the byte boundary, and a CRC-16 over all of it.

use crate::flac::bitstream::{
    bits_of, bytes_bits, lemma_bits_of_len, lemma_bytes_bits_len, pack, unpack, BitstreamWriter,
};
use crate::flac::encoder::crc::{
    crc16, crc16_of_bytes, crc8, crc8_of_bytes, FRAME_CRC16_POLY, FRAME_CRC8_POLY,
};
use crate::flac::encoder::utf8::{utf8_encoding, Utf8Encoder, UTF8_LIMIT};
use crate::flac::stereo::ChannelAssignment;
use crate::flac::subframe::{legal_block, FlacSubframe};
use vstd::prelude::*;

verus! {

/// The sync code that opens a frame, fourteen bits.
pub const FRAME_SYNC: u64 = 0x3FFE;

/// The largest number of channels in a frame.
pub const MAX_CHANNELS: u8 = 8;

/// A value of the stream that a frame header may spell out or leave to the
/// STREAMINFO block.
pub enum FlacFrameHeaderValueOption<T> {
    Streaminfo(T),
    InFrame(T),
}

impl<T> FlacFrameHeaderValueOption<T> {
    /// The value, wherever it is stored.
    pub open spec fn held(&self) -> T {
        match *self {
            FlacFrameHeaderValueOption::Streaminfo(value) => value,
            FlacFrameHeaderValueOption::InFrame(value) => value,
        }
    }

    /// The value, wherever it is stored.
    pub fn value(&self) -> (value: &T)
        ensures
            *value == self.held(),
    {
        match self {
            FlacFrameHeaderValueOption::Streaminfo(value) => value,
            FlacFrameHeaderValueOption::InFrame(value) => value,
        }
    }
}

/// The four bits that stand for a block size. The sizes in common use have
/// codes of their own; any other is spelled out after the frame number, in
/// eight bits up to 256 and in sixteen above.
pub open spec fn block_size_code(block_size: nat) -> nat {
    if block_size == 192 {
        1
    } else if block_size == 576 {
        2
    } else if block_size == 1152 {
        3
    } else if block_size == 2304 {
        4
    } else if block_size == 4608 {
        5
    } else if block_size == 256 {
        8
    } else if block_size == 512 {
        9
    } else if block_size == 1024 {
        10
    } else if block_size == 2048 {
        11
    } else if block_size == 4096 {
        12
    } else if block_size == 8192 {
        13
    } else if block_size == 16384 {
        14
    } else if block_size == 32768 {
        15
    } else if block_size <= 256 {
        6
    } else {
        7
    }
}

/// The block size as it is spelled out in the header: the size less one.
pub open spec fn block_size_literal(block_size: nat) -> Seq<bool> {
    if block_size_code(block_size) == 6 {
        bits_of(block_size - 1, 8)
    } else if block_size_code(block_size) == 7 {
        bits_of(block_size - 1, 16)
    } else {
        Seq::empty()
    }
}

/// The four bits that stand for a sample rate: 0 where the rate is left to
/// STREAMINFO, a code of its own for each rate in common use, else 12 to 14
/// for a rate spelled out in kHz, in Hz or in tens of Hz, and 15 for a rate
/// that no header can hold.
pub open spec fn sample_rate_code(rate: FlacFrameHeaderValueOption<u64>) -> nat {
    match rate {
        FlacFrameHeaderValueOption::Streaminfo(_) => 0,
        FlacFrameHeaderValueOption::InFrame(hz) => if hz == 88200 {
            1
        } else if hz == 176400 {
            2
        } else if hz == 192000 {
            3
        } else if hz == 8000 {
            4
        } else if hz == 16000 {
            5
        } else if hz == 22050 {
            6
        } else if hz == 24000 {
            7
        } else if hz == 32000 {
            8
        } else if hz == 44100 {
            9
        } else if hz == 48000 {
            10
        } else if hz == 96000 {
            11
        } else if hz % 1000 == 0 && hz / 1000 < 256 {
            12
        } else if hz < 65536 {
            13
        } else if hz % 10 == 0 && hz / 10 < 65536 {
            14
        } else {
            15
        },
    }
}

/// The sample rate as it is spelled out in the header.
pub open spec fn sample_rate_literal(rate: FlacFrameHeaderValueOption<u64>) -> Seq<bool> {
    let hz = rate.held();
    if sample_rate_code(rate) == 12 {
        bits_of(hz as int / 1000, 8)
    } else if sample_rate_code(rate) == 13 {
        bits_of(hz as int, 16)
    } else if sample_rate_code(rate) == 14 {
        bits_of(hz as int / 10, 16)
    } else {
        Seq::empty()
    }
}

/// The three bits that stand for a bit depth: 0 where the depth is left to
/// STREAMINFO, a code for each of 8, 12, 16, 20, 24 and 32 bits, and 3 for
/// a depth that no header can hold.
pub open spec fn bit_depth_code(depth: FlacFrameHeaderValueOption<u8>) -> nat {
    match depth {
        FlacFrameHeaderValueOption::Streaminfo(_) => 0,
        FlacFrameHeaderValueOption::InFrame(bits) => if bits == 8 {
            1
        } else if bits == 12 {
            2
        } else if bits == 16 {
            4
        } else if bits == 20 {
            5
        } else if bits == 24 {
            6
        } else if bits == 32 {
            7
        } else {
            3
        },
    }
}

/// The subframes of the first `count` channels, one after another.
pub open spec fn subframes_bits(
    subframes: Seq<FlacSubframe>,
    channels: Seq<Seq<i64>>,
    count: nat,
) -> Seq<bool>
    decreases count,
{
    if count == 0 {
        Seq::empty()
    } else {
        subframes_bits(subframes, channels, (count - 1) as nat) + subframes[count - 1].bits(
            channels[count - 1],
        )
    }
}

/// The blocks of the channels as sequences of samples.
pub open spec fn views(blocks: Seq<Vec<i64>>) -> Seq<Seq<i64>> {
    Seq::new(blocks.len(), |ch: int| blocks[ch]@)
}

/// The bit depth at which channel `ch` is stored under an assignment.
pub open spec fn stored_depth(assignment: ChannelAssignment, depth: nat, ch: int) -> nat {
    if ch == 0 {
        assignment.first_depth(depth)
    } else if ch == 1 {
        assignment.second_depth(depth)
    } else {
        depth
    }
}

/// The two bytes of a CRC-16, the high byte first.
pub open spec fn crc16_bytes(crc: u16) -> Seq<u8> {
    seq![(crc / 256) as u8, (crc % 256) as u8]
}

/// Whether the last byte of `header` is the CRC-8 of the bytes before it.
pub open spec fn crc8_closes(header: Seq<u8>) -> bool {
    &&& header.len() >= 1
    &&& header.last() == crc8(FRAME_CRC8_POLY, header.drop_last())
}

/// Whether the last two bytes of `frame` are the CRC-16 of the bytes before
/// them, the high byte first.
pub open spec fn crc16_closes(frame: Seq<u8>) -> bool {
    &&& frame.len() >= 2
    &&& frame[frame.len() - 2] * 256 + frame[frame.len() - 1] == crc16(
        FRAME_CRC16_POLY,
        frame.take(frame.len() - 2),
    )
}

/// One block of every channel, in the stream.
pub struct FlacFrame {
    is_variable_blocksize: bool,
    block_size: u16,
    sample_rate: FlacFrameHeaderValueOption<u64>,
    num_channels: u8,
    bit_depth: FlacFrameHeaderValueOption<u8>,
    frame_index: u64,
    subframes: Vec<FlacSubframe>,
    channel_assignment: ChannelAssignment,
}

impl FlacFrame {
    /// Whether the stream varies its block size, so that frames are
    /// numbered by their first sample.
    pub closed spec fn is_variable_blocksize(&self) -> bool {
        self.is_variable_blocksize
    }

    /// The number of samples of each channel.
    pub closed spec fn block_size(&self) -> u16 {
        self.block_size
    }

    /// The sample rate in Hz.
    pub closed spec fn sample_rate(&self) -> FlacFrameHeaderValueOption<u64> {
        self.sample_rate
    }

    /// The number of channels.
    pub closed spec fn num_channels(&self) -> u8 {
        self.num_channels
    }

    /// The bit depth of the samples.
    pub closed spec fn bit_depth(&self) -> FlacFrameHeaderValueOption<u8> {
        self.bit_depth
    }

    /// The number of the frame, or of its first sample where the block size
    /// varies.
    pub closed spec fn frame_index(&self) -> u64 {
        self.frame_index
    }

    /// The subframes that the frame was last built with.
    pub closed spec fn subframes(&self) -> Seq<FlacSubframe> {
        self.subframes@
    }

    /// How the channels of the frame are stored.
    pub closed spec fn channel_assignment(&self) -> ChannelAssignment {
        self.channel_assignment
    }

    /// Whether a header can hold what the frame says: a block of at least
    /// one sample, one to eight channels, stored as they are unless they are
    /// two, a sample rate and a bit depth that have a code, a depth of 4 to
    /// 32 bits, and a number below 2^36.
    pub open spec fn wf(&self) -> bool {
        &&& self.block_size() >= 1
        &&& 1 <= self.num_channels() <= MAX_CHANNELS
        &&& (self.channel_assignment() is LeftRight || self.num_channels() == 2)
        &&& sample_rate_code(self.sample_rate()) != 15
        &&& bit_depth_code(self.bit_depth()) != 3
        &&& 4 <= self.bit_depth().held() <= 32
        &&& self.frame_index() < UTF8_LIMIT
    }

    /// Whether the two frames say the same in their headers.
    pub open spec fn same_header(&self, other: FlacFrame) -> bool {
        &&& self.is_variable_blocksize() == other.is_variable_blocksize()
        &&& self.block_size() == other.block_size()
        &&& self.sample_rate() == other.sample_rate()
        &&& self.num_channels() == other.num_channels()
        &&& self.bit_depth() == other.bit_depth()
        &&& self.frame_index() == other.frame_index()
        &&& self.channel_assignment() == other.channel_assignment()
    }

    /// The first four bytes of the header: the sync code, a zero bit, the
    /// blocking strategy, the codes of block size, sample rate, channel
    /// assignment and bit depth, and a zero bit.
    pub open spec fn code_bits(&self) -> Seq<bool> {
        bits_of(FRAME_SYNC as int, 14) + seq![false] + seq![self.is_variable_blocksize()] + bits_of(
            block_size_code(self.block_size() as nat) as int,
            4,
        ) + bits_of(sample_rate_code(self.sample_rate()) as int, 4) + bits_of(
            self.channel_assignment().code(self.num_channels() as nat) as int,
            4,
        ) + bits_of(bit_depth_code(self.bit_depth()) as int, 3) + seq![false]
    }

    /// What of block size and sample rate is spelled out, the block size
    /// first.
    pub open spec fn literal_bits(&self) -> Seq<bool> {
        block_size_literal(self.block_size() as nat) + sample_rate_literal(self.sample_rate())
    }

    /// The bits of the header before its CRC-8: the codes, the frame
    /// number, and what of block size and sample rate is spelled out.
    pub open spec fn header_bits(&self) -> Seq<bool> {
        self.code_bits() + bytes_bits(utf8_encoding(self.frame_index() as nat))
            + self.literal_bits()
    }

    /// The header: its bits in bytes, and the CRC-8 of those bytes.
    pub open spec fn header_bytes(&self) -> Seq<u8> {
        let fields = pack(self.header_bits());
        fields.push(crc8(FRAME_CRC8_POLY, fields))
    }

    /// The channels that the frame stores for the blocks of its channels:
    /// the blocks as they are, or the two channels of the assignment.
    pub open spec fn stored(&self, blocks: Seq<Seq<i64>>) -> Seq<Seq<i64>> {
        if self.channel_assignment() is LeftRight {
            blocks
        } else {
            seq![
                self.channel_assignment().first(blocks[0], blocks[1]),
                self.channel_assignment().second(blocks[0], blocks[1]),
            ]
        }
    }

    /// The bit depth at which channel `ch` is stored.
    pub open spec fn depth_of(&self, ch: int) -> nat {
        stored_depth(self.channel_assignment(), self.bit_depth().held() as nat, ch)
    }

    /// The frame before its CRC-16: the header, and the subframes filled up
    /// to a byte boundary with zero bits.
    pub open spec fn body_bytes(&self, blocks: Seq<Seq<i64>>) -> Seq<u8> {
        self.header_bytes() + pack(
            subframes_bits(self.subframes(), self.stored(blocks), self.num_channels() as nat),
        )
    }

    /// The frame: header, subframes, and the CRC-16 of both.
    pub open spec fn frame_bytes(&self, blocks: Seq<Seq<i64>>) -> Seq<u8> {
        let body = self.body_bytes(blocks);
        body + crc16_bytes(crc16(FRAME_CRC16_POLY, body))
    }

    /// The header bits fill whole bytes.
    pub proof fn lemma_header_is_aligned(&self)
        ensures
            self.header_bits().len() % 8 == 0,
    {
        lemma_bits_of_len(FRAME_SYNC as int, 14);
        lemma_bits_of_len(block_size_code(self.block_size() as nat) as int, 4);
        lemma_bits_of_len(sample_rate_code(self.sample_rate()) as int, 4);
        lemma_bits_of_len(self.channel_assignment().code(self.num_channels() as nat) as int, 4);
        lemma_bits_of_len(bit_depth_code(self.bit_depth()) as int, 3);
        lemma_bytes_bits_len(utf8_encoding(self.frame_index() as nat));
        lemma_bits_of_len(self.block_size() - 1, 8);
        lemma_bits_of_len(self.block_size() - 1, 16);
        lemma_bits_of_len(self.sample_rate().held() as int / 1000, 8);
        lemma_bits_of_len(self.sample_rate().held() as int, 16);
        lemma_bits_of_len(self.sample_rate().held() as int / 10, 16);
    }

    /// A frame of a stream of fixed block size that stores its channels as
    /// they are, with no subframes yet.
    pub fn new(
        block_size: u16,
        sample_rate: FlacFrameHeaderValueOption<u64>,
        num_channels: u8,
        bit_depth: FlacFrameHeaderValueOption<u8>,
        frame_index: u64,
    ) -> (frame: FlacFrame)
        ensures
            !frame.is_variable_blocksize(),
            frame.block_size() == block_size,
            frame.sample_rate() == sample_rate,
            frame.num_channels() == num_channels,
            frame.bit_depth() == bit_depth,
            frame.frame_index() == frame_index,
            frame.subframes().len() == 0,
            frame.channel_assignment() is LeftRight,
    {
        FlacFrame {
            is_variable_blocksize: false,
            block_size,
            sample_rate,
            num_channels,
            bit_depth,
            frame_index,
            subframes: Vec::new(),
            channel_assignment: ChannelAssignment::LeftRight,
        }
    }

    /// The number of samples of each channel.
    pub fn block_size_of(&self) -> (size: u16)
        ensures
            size == self.block_size(),
    {
        self.block_size
    }

    /// The frame as one of a stream of varying block size: its number is
    /// then the number of its first sample.
    pub fn with_variable_blocksize(self) -> (frame: FlacFrame)
        ensures
            frame.is_variable_blocksize(),
            frame.channel_assignment() == self.channel_assignment(),
            frame.block_size() == self.block_size(),
            frame.sample_rate() == self.sample_rate(),
            frame.num_channels() == self.num_channels(),
            frame.bit_depth() == self.bit_depth(),
            frame.frame_index() == self.frame_index(),
            frame.subframes() == self.subframes(),
    {
        FlacFrame {
            is_variable_blocksize: true,
            block_size: self.block_size,
            sample_rate: self.sample_rate,
            num_channels: self.num_channels,
            bit_depth: self.bit_depth,
            frame_index: self.frame_index,
            subframes: self.subframes,
            channel_assignment: self.channel_assignment,
        }
    }

    /// The frame with its channels stored the given way.
    pub fn with_channel_assignment(self, assignment: ChannelAssignment) -> (frame: FlacFrame)
        ensures
            frame.channel_assignment() == assignment,
            frame.is_variable_blocksize() == self.is_variable_blocksize(),
            frame.block_size() == self.block_size(),
            frame.sample_rate() == self.sample_rate(),
            frame.num_channels() == self.num_channels(),
            frame.bit_depth() == self.bit_depth(),
            frame.frame_index() == self.frame_index(),
            frame.subframes() == self.subframes(),
    {
        FlacFrame {
            is_variable_blocksize: self.is_variable_blocksize,
            block_size: self.block_size,
            sample_rate: self.sample_rate,
            num_channels: self.num_channels,
            bit_depth: self.bit_depth,
            frame_index: self.frame_index,
            subframes: self.subframes,
            channel_assignment: assignment,
        }
    }

    /// The four bits that stand for the block size.
    pub fn block_size_type(&self) -> (code: u8)
        ensures
            code == block_size_code(self.block_size() as nat),
            code < 16,
    {
        let size = self.block_size;
        if size == 192 {
            1
        } else if size == 576 {
            2
        } else if size == 1152 {
            3
        } else if size == 2304 {
            4
        } else if size == 4608 {
            5
        } else if size == 256 {
            8
        } else if size == 512 {
            9
        } else if size == 1024 {
            10
        } else if size == 2048 {
            11
        } else if size == 4096 {
            12
        } else if size == 8192 {
            13
        } else if size == 16384 {
            14
        } else if size == 32768 {
            15
        } else if size <= 256 {
            6
        } else {
            7
        }
    }

    /// The four bits that stand for the sample rate.
    pub fn sample_rate_type(&self) -> (code: u8)
        ensures
            code == sample_rate_code(self.sample_rate()),
            code < 16,
    {
        match self.sample_rate {
            FlacFrameHeaderValueOption::Streaminfo(_) => 0,
            FlacFrameHeaderValueOption::InFrame(hz) => {
                if hz == 88200 {
                    1
                } else if hz == 176400 {
                    2
                } else if hz == 192000 {
                    3
                } else if hz == 8000 {
                    4
                } else if hz == 16000 {
                    5
                } else if hz == 22050 {
                    6
                } else if hz == 24000 {
                    7
                } else if hz == 32000 {
                    8
                } else if hz == 44100 {
                    9
                } else if hz == 48000 {
                    10
                } else if hz == 96000 {
                    11
                } else if hz % 1000 == 0 && hz / 1000 < 256 {
                    12
                } else if hz < 65536 {
                    13
                } else if hz % 10 == 0 && hz / 10 < 65536 {
                    14
                } else {
                    15
                }
            },
        }
    }

    /// The three bits that stand for the bit depth.
    pub fn bit_depth_type(&self) -> (code: u8)
        ensures
            code == bit_depth_code(self.bit_depth()),
            code < 8,
    {
        match self.bit_depth {
            FlacFrameHeaderValueOption::Streaminfo(_) => 0,
            FlacFrameHeaderValueOption::InFrame(bits) => {
                if bits == 8 {
                    1
                } else if bits == 12 {
                    2
                } else if bits == 16 {
                    4
                } else if bits == 20 {
                    5
                } else if bits == 24 {
                    6
                } else if bits == 32 {
                    7
                } else {
                    3
                }
            },
        }
    }

    /// Whether a header can hold what the frame says.
    pub fn is_valid(&self) -> (valid: bool)
        ensures
            valid == self.wf(),
    {
        let depth: u8 = *self.bit_depth.value();
        self.block_size >= 1 && 1 <= self.num_channels && self.num_channels <= MAX_CHANNELS && (
        self.channel_assignment.is_left_right() || self.num_channels == 2)
            && self.sample_rate_type() != 15 && self.bit_depth_type() != 3 && 4 <= depth && depth
            <= 32 && self.frame_index < UTF8_LIMIT
    }

    /// Appends the first four bytes of the header to `writer`.
    fn write_codes(&self, writer: &mut BitstreamWriter)
        requires
            old(writer).wf(),
            self.num_channels() >= 1,
        ensures
            final(writer).wf(),
            final(writer)@ == old(writer)@ + self.code_bits(),
    {
        writer.write_bits(FRAME_SYNC, 14);
        writer.write_bit(false);
        writer.write_bit(self.is_variable_blocksize);
        let ghost strategy = writer@;
        writer.write_bits(self.block_size_type() as u64, 4);
        writer.write_bits(self.sample_rate_type() as u64, 4);
        let ghost rate = writer@;
        writer.write_bits(self.channel_assignment.code_of(self.num_channels) as u64, 4);
        writer.write_bits(self.bit_depth_type() as u64, 3);
        writer.write_bit(false);
        proof {
            assert(strategy =~= old(writer)@ + (bits_of(FRAME_SYNC as int, 14) + seq![false]
                + seq![self.is_variable_blocksize()]));
            assert(rate =~= strategy + (bits_of(
                block_size_code(self.block_size() as nat) as int,
                4,
            ) + bits_of(sample_rate_code(self.sample_rate()) as int, 4)));
            assert(writer@ =~= rate + (bits_of(
                self.channel_assignment().code(self.num_channels() as nat) as int,
                4,
            ) + bits_of(bit_depth_code(self.bit_depth()) as int, 3) + seq![false]));
            assert(writer@ =~= old(writer)@ + self.code_bits());
        }
    }

    /// Appends to `writer` what of block size and sample rate is spelled
    /// out.
    fn write_literals(&self, writer: &mut BitstreamWriter)
        requires
            old(writer).wf(),
            self.block_size() >= 1,
        ensures
            final(writer).wf(),
            final(writer)@ == old(writer)@ + self.literal_bits(),
    {
        let size_code = self.block_size_type();
        if size_code == 6 {
            writer.write_bits((self.block_size - 1) as u64, 8);
        } else if size_code == 7 {
            writer.write_bits((self.block_size - 1) as u64, 16);
        }
        let ghost size = writer@;
        proof {
            assert(size =~= old(writer)@ + block_size_literal(self.block_size() as nat));
        }
        let rate_code = self.sample_rate_type();
        let hz: u64 = *self.sample_rate.value();
        if rate_code == 12 {
            writer.write_bits(hz / 1000, 8);
        } else if rate_code == 13 {
            writer.write_bits(hz, 16);
        } else if rate_code == 14 {
            writer.write_bits(hz / 10, 16);
        }
        proof {
            assert(writer@ =~= size + sample_rate_literal(self.sample_rate()));
            assert(writer@ =~= old(writer)@ + self.literal_bits());
        }
    }

    /// The header of the frame, CRC-8 and all.
    pub fn build_header_bytes(&self) -> (header: Vec<u8>)
        requires
            self.wf(),
        ensures
            header@ == self.header_bytes(),
    {
        let mut writer = BitstreamWriter::new();
        self.write_codes(&mut writer);
        let number = Utf8Encoder::encode(self.frame_index);
        writer.write_stream(&number, 0);
        proof {
            lemma_bytes_bits_len(number@);
            assert(unpack(number@, 0) =~= bytes_bits(number@));
        }
        self.write_literals(&mut writer);
        proof {
            assert(writer@ =~= self.header_bits());
        }
        let mut header = writer.bytes();
        let crc = crc8_of_bytes(FRAME_CRC8_POLY, &header);
        header.push(crc);
        header
    }

    /// Every frame carries its checksums: the header ends in the CRC-8 of
    /// the header bytes before it, the frame opens with that header, and
    /// the frame ends in the CRC-16 of all the frame bytes before it.
    pub proof fn lemma_frame_checksums(&self, blocks: Seq<Seq<i64>>)
        ensures
            crc8_closes(self.header_bytes()),
            self.frame_bytes(blocks).take(self.header_bytes().len() as int) == self.header_bytes(),
            crc16_closes(self.frame_bytes(blocks)),
    {
        let fields = pack(self.header_bits());
        assert(self.header_bytes().drop_last() =~= fields);
        let body = self.body_bytes(blocks);
        let frame = self.frame_bytes(blocks);
        assert(frame.take(self.header_bytes().len() as int) =~= self.header_bytes());
        assert(frame.take(frame.len() - 2) =~= body);
        let crc = crc16(FRAME_CRC16_POLY, body);
        assert(frame[frame.len() - 2] == (crc / 256) as u8);
        assert(frame[frame.len() - 1] == (crc % 256) as u8);
    }

    /// Whether `blocks` holds one block for each channel of the frame, each
    /// of the frame's block size and bit depth.
    pub open spec fn takes(&self, blocks: Seq<Seq<i64>>) -> bool {
        &&& blocks.len() == self.num_channels()
        &&& forall|ch: int|
            0 <= ch < blocks.len() ==> (#[trigger] blocks[ch]).len() == self.block_size()
                && legal_block(blocks[ch], self.bit_depth().held() as nat)
    }

    /// The frame that stores `sample_block`, one block for each channel.
    /// The channels are stored as the assignment says: a channel whose
    /// samples are all the same as a constant, any other the way that takes
    /// the fewest bits, `predictors` naming for each stored channel the
    /// quantized linear predictors to weigh. The subframes chosen are kept
    /// in the frame.
    #[verifier::rlimit(40)]
    pub fn build_bytes(
        &mut self,
        sample_block: &Vec<Vec<i64>>,
        predictors: &Vec<Vec<(Vec<i64>, u8, u8)>>,
    ) -> (bytes: Vec<u8>)
        requires
            old(self).wf(),
            old(self).takes(views(sample_block@)),
            predictors@.len() == old(self).num_channels(),
        ensures
            final(self).same_header(*old(self)),
            final(self).subframes().len() == final(self).num_channels(),
            forall|ch: int|
                0 <= ch < final(self).num_channels() ==> {
                    &&& (#[trigger] final(self).subframes()[ch]).depth() == final(self).depth_of(
                        ch,
                    )
                    &&& final(self).subframes()[ch].is_best_choice(
                        final(self).stored(views(sample_block@))[ch],
                        predictors@[ch]@,
                    )
                },
            bytes@ == final(self).frame_bytes(views(sample_block@)),
            crc16_closes(bytes@),
    {
        let mut frame = self.build_header_bytes();
        let depth: u8 = *self.bit_depth.value();
        let (subframes, mut body) = if self.channel_assignment.is_left_right() {
            proof {
                assert forall|ch: int| 0 <= ch < sample_block@.len() implies legal_block(
                    #[trigger] views(sample_block@)[ch],
                    stored_depth(self.channel_assignment(), depth as nat, ch),
                ) by {
                    assert(legal_block(views(sample_block@)[ch], depth as nat));
                }
            }
            encode_channels(sample_block, predictors, depth, self.channel_assignment)
        } else {
            proof {
                assert(legal_block(views(sample_block@)[0], depth as nat));
                assert(legal_block(views(sample_block@)[1], depth as nat));
            }
            let (first, second) = self.channel_assignment.decorrelate(
                &sample_block[0],
                &sample_block[1],
                depth,
            );
            let mut stored: Vec<Vec<i64>> = Vec::new();
            stored.push(first);
            stored.push(second);
            proof {
                assert(views(stored@) =~= self.stored(views(sample_block@)));
            }
            encode_channels(&stored, predictors, depth, self.channel_assignment)
        };
        frame.append(&mut body);
        let crc = crc16_of_bytes(FRAME_CRC16_POLY, &frame);
        let ghost covered = frame@;
        frame.push((crc / 256) as u8);
        frame.push((crc % 256) as u8);
        self.subframes = subframes;
        proof {
            assert(covered =~= self.body_bytes(views(sample_block@)));
            assert(frame@ =~= self.frame_bytes(views(sample_block@)));
            self.lemma_frame_checksums(views(sample_block@));
        }
        frame
    }
}

/// The bit depth at which channel `ch` is stored under an assignment.
fn stored_depth_of(assignment: ChannelAssignment, depth: u8, ch: usize) -> (stored: u8)
    requires
        depth <= 32,
    ensures
        stored == stored_depth(assignment, depth as nat, ch as int),
{
    match assignment {
        ChannelAssignment::LeftRight => depth,
        ChannelAssignment::LeftSide => if ch == 1 {
            depth + 1
        } else {
            depth
        },
        ChannelAssignment::SideRight => if ch == 0 {
            depth + 1
        } else {
            depth
        },
        ChannelAssignment::MidSide => if ch == 1 {
            depth + 1
        } else {
            depth
        },
    }
}

/// The subframe chosen for each stored channel, and the subframes one
/// after another, filled up to a byte boundary with zero bits.
fn encode_channels(
    channels: &Vec<Vec<i64>>,
    predictors: &Vec<Vec<(Vec<i64>, u8, u8)>>,
    depth: u8,
    assignment: ChannelAssignment,
) -> (encoded: (Vec<FlacSubframe>, Vec<u8>))
    requires
        depth <= 32,
        predictors@.len() == channels@.len(),
        forall|ch: int|
            0 <= ch < channels@.len() ==> legal_block(
                #[trigger] views(channels@)[ch],
                stored_depth(assignment, depth as nat, ch),
            ),
    ensures
        encoded.0@.len() == channels@.len(),
        forall|ch: int|
            0 <= ch < channels@.len() ==> {
                &&& (#[trigger] encoded.0@[ch]).depth() == stored_depth(
                    assignment,
                    depth as nat,
                    ch,
                )
                &&& encoded.0@[ch].is_best_choice(views(channels@)[ch], predictors@[ch]@)
            },
        encoded.1@ == pack(subframes_bits(encoded.0@, views(channels@), channels@.len())),
{
    let mut writer = BitstreamWriter::new();
    let mut subframes: Vec<FlacSubframe> = Vec::new();
    let mut ch: usize = 0;
    while ch < channels.len()
        invariant
            ch <= channels@.len(),
            depth <= 32,
            predictors@.len() == channels@.len(),
            forall|c: int|
                0 <= c < channels@.len() ==> legal_block(
                    #[trigger] views(channels@)[c],
                    stored_depth(assignment, depth as nat, c),
                ),
            writer.wf(),
            subframes@.len() == ch,
            writer@ == subframes_bits(subframes@, views(channels@), ch as nat),
            forall|c: int|
                0 <= c < ch ==> {
                    &&& (#[trigger] subframes@[c]).depth() == stored_depth(
                        assignment,
                        depth as nat,
                        c,
                    )
                    &&& subframes@[c].is_best_choice(views(channels@)[c], predictors@[c]@)
                },
        decreases channels@.len() - ch,
    {
        let block = &channels[ch];
        proof {
            assert(legal_block(
                views(channels@)[ch as int],
                stored_depth(assignment, depth as nat, ch as int),
            ));
        }
        let subframe = FlacSubframe::new_best(
            stored_depth_of(assignment, depth, ch),
            block,
            &predictors[ch],
        );
        subframe.write_to(&mut writer, block);
        let ghost before = subframes@;
        subframes.push(subframe);
        proof {
            lemma_subframes_bits_prefix(before, subframes@, views(channels@), ch as nat);
        }
        ch = ch + 1;
    }
    (subframes, writer.bytes())
}

/// The bits of the first `count` subframes do not depend on the subframes
/// after them.
pub proof fn lemma_subframes_bits_prefix(
    a: Seq<FlacSubframe>,
    b: Seq<FlacSubframe>,
    blocks: Seq<Seq<i64>>,
    count: nat,
)
    requires
        count <= a.len() <= b.len(),
        forall|i: int| 0 <= i < count ==> a[i] == b[i],
    ensures
        subframes_bits(a, blocks, count) == subframes_bits(b, blocks, count),
    decreases count,
{
    if count > 0 {
        lemma_subframes_bits_prefix(a, b, blocks, (count - 1) as nat);
    }
}

} // verus!
