//! The stream around the frames: the marker, the STREAMINFO block, and the
//! choices that hold for a whole stream.

use crate::flac::bitstream::{bits_of, bytes_bits, lemma_bytes_bits_len, pack, unpack, BitstreamWriter};
use crate::flac::digest::{block_bytes, interleaved_bytes, is_pcm_block, md5_digest, md5_of};
use vstd::prelude::*;
use vstd::string::StringExecFns;

verus! {

/// The block size of a stream that uses linear prediction.
pub const DEFAULT_BLOCK_SIZE: u16 = 4096;

/// The block size of a stream that uses no linear prediction.
pub const PLAIN_BLOCK_SIZE: u16 = 1152;

/// The length of a STREAMINFO block in bytes.
pub const STREAMINFO_LEN: u64 = 34;

/// What can go wrong when a stream is written.
#[derive(Debug)]
pub enum FlacWriterError {
    InvalidFormatError,
    DataAlignmentError,
    WriteError,
    ReadError,
}

impl FlacWriterError {
    /// The error in words.
    pub fn describe(&self) -> (text: String)
        ensures
            text@ == match *self {
                FlacWriterError::InvalidFormatError => "Error: InvalidFormatError"@,
                FlacWriterError::DataAlignmentError => "Error: DataAlignmentError"@,
                FlacWriterError::WriteError => "Error: WriteError"@,
                FlacWriterError::ReadError => "Error: ReadError"@,
            },
    {
        match self {
            FlacWriterError::InvalidFormatError => String::from_str("Error: InvalidFormatError"),
            FlacWriterError::DataAlignmentError => String::from_str("Error: DataAlignmentError"),
            FlacWriterError::WriteError => String::from_str("Error: WriteError"),
            FlacWriterError::ReadError => String::from_str("Error: ReadError"),
        }
    }
}

/// The samples of a channel from `start` on, `size` of them or as many as
/// are left.
pub open spec fn block_of(channel: Seq<i64>, start: int, size: int) -> Seq<i64> {
    let from = if start < channel.len() {
        start
    } else {
        channel.len() as int
    };
    let to = if channel.len() - from > size {
        from + size
    } else {
        channel.len() as int
    };
    channel.subrange(from, to)
}

/// The marker that opens a stream: `fLaC`.
pub open spec fn stream_marker() -> Seq<u8> {
    seq![0x66u8, 0x4Cu8, 0x61u8, 0x43u8]
}

/// What a STREAMINFO block tells of a stream.
pub struct StreamInfo {
    pub min_block_size: u16,
    pub max_block_size: u16,
    pub min_frame_size: u32,
    pub max_frame_size: u32,
    pub sample_rate: u32,
    pub num_channels: u8,
    pub bit_depth: u8,
    pub total_samples: u64,
    pub md5: Vec<u8>,
}

impl StreamInfo {
    /// The bits of the block: the least and the greatest block size in
    /// sixteen bits each, the least and the greatest frame size in
    /// twenty-four each, the sample rate in twenty, the channel count less
    /// one in three, the bit depth less one in five, the number of samples
    /// in thirty-six, and the MD5 signature.
    pub open spec fn bits(&self) -> Seq<bool> {
        bits_of(self.min_block_size as int, 16) + bits_of(self.max_block_size as int, 16) + bits_of(
            self.min_frame_size as int,
            24,
        ) + bits_of(self.max_frame_size as int, 24) + bits_of(self.sample_rate as int, 20)
            + bits_of(self.num_channels - 1, 3) + bits_of(self.bit_depth - 1, 5) + bits_of(
            self.total_samples as int,
            36,
        ) + bytes_bits(self.md5@)
    }

    /// Whether the fields fit their places in the block.
    pub open spec fn wf(&self) -> bool {
        &&& self.min_frame_size < 0x100_0000
        &&& self.max_frame_size < 0x100_0000
        &&& 0 < self.sample_rate < 0x10_0000
        &&& 1 <= self.num_channels <= 8
        &&& 4 <= self.bit_depth <= 32
        &&& self.total_samples < 0x10_0000_0000
        &&& self.md5@.len() == 16
    }

    /// The block in bytes.
    pub fn build_bytes(&self) -> (bytes: Vec<u8>)
        requires
            self.wf(),
        ensures
            bytes@ == pack(self.bits()),
            bytes@.len() == STREAMINFO_LEN,
    {
        let mut writer = BitstreamWriter::new();
        writer.write_bits(self.min_block_size as u64, 16);
        writer.write_bits(self.max_block_size as u64, 16);
        writer.write_bits(self.min_frame_size as u64, 24);
        writer.write_bits(self.max_frame_size as u64, 24);
        writer.write_bits(self.sample_rate as u64, 20);
        writer.write_bits((self.num_channels - 1) as u64, 3);
        writer.write_bits((self.bit_depth - 1) as u64, 5);
        writer.write_bits(self.total_samples, 36);
        writer.write_stream(&self.md5, 0);
        proof {
            lemma_bytes_bits_len(self.md5@);
            assert(unpack(self.md5@, 0) =~= bytes_bits(self.md5@));
            assert(writer@ =~= self.bits());
            crate::flac::bitstream::lemma_bits_of_len(self.min_block_size as int, 16);
            crate::flac::bitstream::lemma_bits_of_len(self.max_block_size as int, 16);
            crate::flac::bitstream::lemma_bits_of_len(self.min_frame_size as int, 24);
            crate::flac::bitstream::lemma_bits_of_len(self.max_frame_size as int, 24);
            crate::flac::bitstream::lemma_bits_of_len(self.sample_rate as int, 20);
            crate::flac::bitstream::lemma_bits_of_len(self.num_channels - 1, 3);
            crate::flac::bitstream::lemma_bits_of_len(self.bit_depth - 1, 5);
            crate::flac::bitstream::lemma_bits_of_len(self.total_samples as int, 36);
            crate::flac::bitstream::lemma_pack_len(self.bits());
        }
        writer.bytes()
    }
}

/// The largest frame whose size a STREAMINFO block can tell, in bytes.
pub const MAX_TOLD_FRAME_SIZE: u64 = 0xFF_FFFF;

/// What has been seen of a stream so far: the number of its frames and of
/// its samples, the least and the greatest block and frame, and its
/// samples, interleaved and in bytes.
pub struct StreamTally {
    frames: u64,
    total_samples: u64,
    min_block_size: u16,
    max_block_size: u16,
    min_frame_size: u64,
    max_frame_size: u64,
    pcm: Vec<u8>,
}

impl StreamTally {
    /// The number of frames seen, which is the number of the next frame.
    pub closed spec fn frames(&self) -> u64 {
        self.frames
    }

    /// The number of samples that each channel has had so far.
    pub closed spec fn total_samples(&self) -> u64 {
        self.total_samples
    }

    /// The least block size seen, 0 before any frame.
    pub closed spec fn min_block_size(&self) -> u16 {
        self.min_block_size
    }

    /// The greatest block size seen, 0 before any frame.
    pub closed spec fn max_block_size(&self) -> u16 {
        self.max_block_size
    }

    /// The least frame size seen in bytes, 0 before any frame.
    pub closed spec fn min_frame_size(&self) -> u64 {
        self.min_frame_size
    }

    /// The greatest frame size seen in bytes, 0 before any frame.
    pub closed spec fn max_frame_size(&self) -> u64 {
        self.max_frame_size
    }

    /// The samples seen, interleaved and in bytes.
    pub closed spec fn pcm(&self) -> Seq<u8> {
        self.pcm@
    }

    /// The tally of a stream of which nothing has been seen.
    pub fn new() -> (tally: Self)
        ensures
            tally.frames() == 0,
            tally.total_samples() == 0,
            tally.min_block_size() == 0,
            tally.max_block_size() == 0,
            tally.min_frame_size() == 0,
            tally.max_frame_size() == 0,
            tally.pcm() == Seq::<u8>::empty(),
    {
        StreamTally {
            frames: 0,
            total_samples: 0,
            min_block_size: 0,
            max_block_size: 0,
            min_frame_size: 0,
            max_frame_size: 0,
            pcm: Vec::new(),
        }
    }

    /// The number of the next frame.
    pub fn next_frame_index(&self) -> (index: u64)
        ensures
            index == self.frames(),
    {
        self.frames
    }

    /// Takes note of one frame: of the size of its block, of its length in
    /// bytes, and of the samples of its block, which join the samples seen,
    /// interleaved and in bytes.
    pub fn record(&mut self, blocks: &Vec<Vec<i64>>, bps: u8, block_size: u16, frame_len: usize)
        requires
            old(self).frames() < u64::MAX,
            old(self).total_samples() + block_size <= u64::MAX,
            is_pcm_block(blocks@, bps as nat, block_size as nat),
        ensures
            final(self).frames() == old(self).frames() + 1,
            final(self).total_samples() == old(self).total_samples() + block_size,
            final(self).pcm() == old(self).pcm() + interleaved_bytes(
                blocks@,
                bps as nat,
                block_size as nat,
            ),
            final(self).min_block_size() == if old(self).frames() == 0 || block_size < old(
                self,
            ).min_block_size() {
                block_size
            } else {
                old(self).min_block_size()
            },
            final(self).max_block_size() == if old(self).frames() == 0 || block_size > old(
                self,
            ).max_block_size() {
                block_size
            } else {
                old(self).max_block_size()
            },
            final(self).min_frame_size() == if old(self).frames() == 0 || frame_len < old(
                self,
            ).min_frame_size() {
                frame_len as u64
            } else {
                old(self).min_frame_size()
            },
            final(self).max_frame_size() == if old(self).frames() == 0 || frame_len > old(
                self,
            ).max_frame_size() {
                frame_len as u64
            } else {
                old(self).max_frame_size()
            },
    {
        let first = self.frames == 0;
        let len = frame_len as u64;
        if first || block_size < self.min_block_size {
            self.min_block_size = block_size;
        }
        if first || block_size > self.max_block_size {
            self.max_block_size = block_size;
        }
        if first || len < self.min_frame_size {
            self.min_frame_size = len;
        }
        if first || len > self.max_frame_size {
            self.max_frame_size = len;
        }
        self.frames = self.frames + 1;
        self.total_samples = self.total_samples + block_size as u64;
        let mut more = block_bytes(blocks, bps, block_size as usize);
        self.pcm.append(&mut more);
    }

    /// The frame size as STREAMINFO tells it: the size, or 0 for a size
    /// that twenty-four bits do not hold.
    pub open spec fn told_frame_size(size: u64) -> u32 {
        if size <= MAX_TOLD_FRAME_SIZE {
            size as u32
        } else {
            0
        }
    }

    /// The STREAMINFO block of the stream seen, signed with the MD5 of its
    /// samples.
    pub fn finish(self, sample_rate: u32, num_channels: u8, bit_depth: u8) -> (info: StreamInfo)
        ensures
            info.min_block_size == self.min_block_size(),
            info.max_block_size == self.max_block_size(),
            info.min_frame_size == Self::told_frame_size(self.min_frame_size()),
            info.max_frame_size == Self::told_frame_size(self.max_frame_size()),
            info.sample_rate == sample_rate,
            info.num_channels == num_channels,
            info.bit_depth == bit_depth,
            info.total_samples == self.total_samples(),
            info.md5@ == md5_of(self.pcm()),
            info.md5@.len() == 16,
    {
        let min_frame_size: u32 = if self.min_frame_size <= MAX_TOLD_FRAME_SIZE {
            self.min_frame_size as u32
        } else {
            0
        };
        let max_frame_size: u32 = if self.max_frame_size <= MAX_TOLD_FRAME_SIZE {
            self.max_frame_size as u32
        } else {
            0
        };
        StreamInfo {
            min_block_size: self.min_block_size,
            max_block_size: self.max_block_size,
            min_frame_size,
            max_frame_size,
            sample_rate,
            num_channels,
            bit_depth,
            total_samples: self.total_samples,
            md5: md5_digest(&self.pcm),
        }
    }
}

/// A STREAMINFO block whose fields fit their places takes 34 bytes, and the
/// head of its stream 42.
pub proof fn lemma_streaminfo_len(info: StreamInfo)
    requires
        info.wf(),
    ensures
        info.bits().len() == 8 * STREAMINFO_LEN,
        pack(info.bits()).len() == STREAMINFO_LEN,
        stream_head(info).len() == 8 + STREAMINFO_LEN,
{
    lemma_bytes_bits_len(info.md5@);
    crate::flac::bitstream::lemma_bits_of_len(info.min_block_size as int, 16);
    crate::flac::bitstream::lemma_bits_of_len(info.max_block_size as int, 16);
    crate::flac::bitstream::lemma_bits_of_len(info.min_frame_size as int, 24);
    crate::flac::bitstream::lemma_bits_of_len(info.max_frame_size as int, 24);
    crate::flac::bitstream::lemma_bits_of_len(info.sample_rate as int, 20);
    crate::flac::bitstream::lemma_bits_of_len(info.num_channels - 1, 3);
    crate::flac::bitstream::lemma_bits_of_len(info.bit_depth - 1, 5);
    crate::flac::bitstream::lemma_bits_of_len(info.total_samples as int, 36);
    crate::flac::bitstream::lemma_pack_len(info.bits());
}

/// The head of a stream: the marker, then the STREAMINFO block as the last
/// metadata block: a one bit, seven zero bits of type, and the length of the
/// block in twenty-four bits before the block itself.
pub open spec fn stream_head(info: StreamInfo) -> Seq<u8> {
    stream_marker() + seq![0x80u8, 0u8, 0u8, STREAMINFO_LEN as u8] + pack(info.bits())
}

/// The writer of FLAC streams.
pub struct FlacWriter;

impl FlacWriter {
    /// The block size that suits the highest order of linear prediction in
    /// use: 1152 where there is none, else 4096.
    pub fn best_block_size(max_lpc_order: u64) -> (size: u16)
        ensures
            size == if max_lpc_order == 0 {
                PLAIN_BLOCK_SIZE
            } else {
                DEFAULT_BLOCK_SIZE
            },
    {
        if max_lpc_order == 0 {
            PLAIN_BLOCK_SIZE
        } else {
            DEFAULT_BLOCK_SIZE
        }
    }

    /// Whether a stream can hold PCM of the given shape: one to eight
    /// channels, a sample rate above zero and below 2^20 Hz, and 4 to 32
    /// bits a sample.
    pub open spec fn supports(num_channels: u16, samp_rate: u32, bps: u16) -> bool {
        &&& 1 <= num_channels <= 8
        &&& 0 < samp_rate < 0x10_0000
        &&& 4 <= bps <= 32
    }

    /// Refuses PCM that a stream cannot hold.
    pub fn check_format(num_channels: u16, samp_rate: u32, bps: u16) -> (checked: Result<
        (),
        FlacWriterError,
    >)
        ensures
            checked is Ok <==> Self::supports(num_channels, samp_rate, bps),
            checked matches Err(error) ==> error is InvalidFormatError,
    {
        if 1 <= num_channels && num_channels <= 8 && 0 < samp_rate && samp_rate < 0x10_0000 && 4
            <= bps && bps <= 32 {
            Ok(())
        } else {
            Err(FlacWriterError::InvalidFormatError)
        }
    }

    /// The block of every channel that starts at sample `start`: up to
    /// `block_size` samples, fewer where the channel ends before.
    pub fn slice_block(samples: &Vec<Vec<i64>>, start: usize, block_size: u16) -> (blocks: Vec<
        Vec<i64>,
    >)
        ensures
            blocks@.len() == samples@.len(),
            forall|ch: int|
                0 <= ch < samples@.len() ==> (#[trigger] blocks@[ch])@ == block_of(
                    samples@[ch]@,
                    start as int,
                    block_size as int,
                ),
    {
        let mut blocks: Vec<Vec<i64>> = Vec::new();
        let mut ch: usize = 0;
        while ch < samples.len()
            invariant
                ch <= samples@.len(),
                blocks@.len() == ch,
                forall|c: int|
                    0 <= c < ch ==> (#[trigger] blocks@[c])@ == block_of(
                        samples@[c]@,
                        start as int,
                        block_size as int,
                    ),
            decreases samples@.len() - ch,
        {
            let channel = &samples[ch];
            let len = channel.len();
            let from: usize = if start < len {
                start
            } else {
                len
            };
            let to: usize = if len - from > block_size as usize {
                from + block_size as usize
            } else {
                len
            };
            blocks.push(crate::flac::lpc::copy_range(channel, from, to));
            ch = ch + 1;
        }
        blocks
    }

    /// The STREAMINFO block of a stream, its signature taken of `pcm`, the
    /// samples of the stream interleaved and in bytes.
    pub fn sign(info: StreamInfo, pcm: &Vec<u8>) -> (signed: StreamInfo)
        ensures
            signed.md5@ == md5_of(pcm@),
            signed.md5@.len() == 16,
            signed.min_block_size == info.min_block_size,
            signed.max_block_size == info.max_block_size,
            signed.min_frame_size == info.min_frame_size,
            signed.max_frame_size == info.max_frame_size,
            signed.sample_rate == info.sample_rate,
            signed.num_channels == info.num_channels,
            signed.bit_depth == info.bit_depth,
            signed.total_samples == info.total_samples,
    {
        StreamInfo {
            min_block_size: info.min_block_size,
            max_block_size: info.max_block_size,
            min_frame_size: info.min_frame_size,
            max_frame_size: info.max_frame_size,
            sample_rate: info.sample_rate,
            num_channels: info.num_channels,
            bit_depth: info.bit_depth,
            total_samples: info.total_samples,
            md5: md5_digest(pcm),
        }
    }

    /// The head of a stream: the marker and the STREAMINFO block.
    pub fn stream_header(info: &StreamInfo) -> (head: Vec<u8>)
        requires
            info.wf(),
        ensures
            head@ == stream_head(*info),
    {
        let mut head: Vec<u8> = Vec::new();
        head.push(0x66);
        head.push(0x4C);
        head.push(0x61);
        head.push(0x43);
        head.push(0x80);
        head.push(0);
        head.push(0);
        head.push(STREAMINFO_LEN as u8);
        let mut block = info.build_bytes();
        head.append(&mut block);
        proof {
            assert(head@ =~= stream_head(*info));
        }
        head
    }
}

} // verus!
