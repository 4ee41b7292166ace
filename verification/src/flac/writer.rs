//! Whole streams: the head, and a frame for each block of the samples.

use crate::flac::digest::{
    interleaved_bytes, is_pcm_block, lemma_interleaved_bytes_of_block, md5_of,
};
use crate::flac::frame::{views, FlacFrame, FlacFrameHeaderValueOption};
use crate::flac::lossless::holds_subframes;
use crate::flac::stereo::ChannelAssignment;
use crate::flac::stream::{
    block_of, stream_head, FlacWriter, FlacWriterError, StreamInfo, StreamTally,
};
use crate::flac::subframe::{fits_depth, legal_block};
use vstd::arithmetic::power2::{lemma2_to64, pow2};
use vstd::prelude::*;

verus! {

/// The first number of samples that a stream cannot hold: 2^36.
pub const SAMPLE_LIMIT: u64 = 0x10_0000_0000;

/// Whether `samples` is PCM that a stream can hold: one to eight channels
/// of one length below 2^36, a sample rate above zero and below 2^20 Hz,
/// and samples of 4 to 32 bits.
pub open spec fn is_pcm_stream(samples: Seq<Vec<i64>>, samp_rate: u32, bps: u8) -> bool {
    &&& 1 <= samples.len() <= 8
    &&& 0 < samp_rate < 0x10_0000
    &&& 4 <= bps <= 32
    &&& samples[0]@.len() < SAMPLE_LIMIT
    &&& forall|ch: int|
        0 <= ch < samples.len() ==> (#[trigger] samples[ch])@.len() == samples[0]@.len()
            && fits_depth(samples[ch]@, bps as nat)
}

/// The block of every channel that starts at sample `start`.
pub open spec fn channel_blocks(samples: Seq<Vec<i64>>, start: int, size: int) -> Seq<Seq<i64>> {
    Seq::new(samples.len(), |ch: int| block_of(samples[ch]@, start, size))
}

/// Whether `count` frames of `block_size` samples, the last of them maybe
/// short, hold `total` samples.
pub open spec fn is_frame_count(total: nat, block_size: nat, count: nat) -> bool {
    if total == 0 {
        count == 0
    } else {
        (count - 1) * block_size < total <= count * block_size
    }
}

/// How frame `f` stores its channels: as the plan for the frame says where
/// there is one and the channels are two, else as they are.
pub open spec fn planned_assignment(
    plans: Seq<(ChannelAssignment, Vec<Vec<(Vec<i64>, u8, u8)>>)>,
    f: int,
    channels: nat,
) -> ChannelAssignment {
    if 0 <= f < plans.len() && channels == 2 {
        plans[f].0
    } else {
        ChannelAssignment::LeftRight
    }
}

/// The quantized linear predictors that are weighed for stored channel `ch`
/// of frame `f`: those of the plan for the frame where it names some for
/// every channel, else none.
pub open spec fn planned_predictors(
    plans: Seq<(ChannelAssignment, Vec<Vec<(Vec<i64>, u8, u8)>>)>,
    f: int,
    channels: nat,
    ch: int,
) -> Seq<(Vec<i64>, u8, u8)> {
    if 0 <= f < plans.len() && plans[f].1@.len() == channels {
        plans[f].1@[ch]@
    } else {
        Seq::empty()
    }
}

/// Whether `frame` is frame `f` of the stream of `samples`: a frame of a
/// stream of fixed block size, numbered `f`, that leaves sample rate and
/// bit depth to STREAMINFO, takes the block of every channel from sample
/// `f * block_size` on, stores the channels as planned, and holds for each
/// stored channel the subframe that is chosen for it.
#[verifier::opaque]
pub open spec fn is_stream_frame(
    frame: FlacFrame,
    samples: Seq<Vec<i64>>,
    samp_rate: u32,
    bps: u8,
    block_size: nat,
    plans: Seq<(ChannelAssignment, Vec<Vec<(Vec<i64>, u8, u8)>>)>,
    f: int,
) -> bool {
    let blocks = channel_blocks(samples, f * block_size, block_size as int);
    &&& frame.wf()
    &&& !frame.is_variable_blocksize()
    &&& frame.frame_index() == f
    &&& frame.num_channels() == samples.len()
    &&& frame.sample_rate() == FlacFrameHeaderValueOption::Streaminfo(samp_rate as u64)
    &&& frame.bit_depth() == FlacFrameHeaderValueOption::Streaminfo(bps)
    &&& frame.channel_assignment() == planned_assignment(plans, f, samples.len())
    &&& frame.takes(blocks)
    &&& holds_subframes(frame)
    &&& forall|ch: int|
        0 <= ch < samples.len() ==> (#[trigger] frame.subframes()[ch]).is_best_choice(
            frame.stored(blocks)[ch],
            planned_predictors(plans, f, samples.len(), ch),
        )
}

/// The bytes of frame `f` of a stream.
pub open spec fn frame_bytes_at(
    frames: Seq<FlacFrame>,
    samples: Seq<Vec<i64>>,
    block_size: nat,
    f: int,
) -> Seq<u8> {
    frames[f].frame_bytes(channel_blocks(samples, f * block_size, block_size as int))
}

/// The bytes of the first `count` frames of a stream, one after another.
pub open spec fn frames_bytes(
    frames: Seq<FlacFrame>,
    samples: Seq<Vec<i64>>,
    block_size: nat,
    count: nat,
) -> Seq<u8>
    decreases count,
{
    if count == 0 {
        Seq::empty()
    } else {
        frames_bytes(frames, samples, block_size, (count - 1) as nat) + frame_bytes_at(
            frames,
            samples,
            block_size,
            count - 1,
        )
    }
}

/// The least of some sizes, 0 where there is none.
pub open spec fn least_of(sizes: Seq<int>) -> int
    decreases sizes.len(),
{
    if sizes.len() == 0 {
        0
    } else if sizes.len() == 1 {
        sizes[0]
    } else {
        let before = least_of(sizes.drop_last());
        if sizes.last() < before {
            sizes.last()
        } else {
            before
        }
    }
}

/// The greatest of some sizes, 0 where there is none.
pub open spec fn greatest_of(sizes: Seq<int>) -> int
    decreases sizes.len(),
{
    if sizes.len() == 0 {
        0
    } else if sizes.len() == 1 {
        sizes[0]
    } else {
        let before = greatest_of(sizes.drop_last());
        if sizes.last() > before {
            sizes.last()
        } else {
            before
        }
    }
}

/// The block size of every frame.
pub open spec fn block_sizes(frames: Seq<FlacFrame>) -> Seq<int> {
    Seq::new(frames.len(), |f: int| frames[f].block_size() as int)
}

/// The length in bytes of every frame of a stream.
pub open spec fn frame_sizes(
    frames: Seq<FlacFrame>,
    samples: Seq<Vec<i64>>,
    block_size: nat,
) -> Seq<int> {
    Seq::new(frames.len(), |f: int| frame_bytes_at(frames, samples, block_size, f).len() as int)
}

/// A stream in bytes, with what its STREAMINFO block tells and the frames
/// that it is made of.
pub struct EncodedStream {
    pub bytes: Vec<u8>,
    pub info: StreamInfo,
    pub frames: Vec<FlacFrame>,
}

impl EncodedStream {
    /// Whether this is the stream of `samples`: the head with its
    /// STREAMINFO block, then a frame for each block of `block_size`
    /// samples, the last block maybe short. STREAMINFO tells the shape of
    /// the PCM, the number of samples, the least and the greatest block and
    /// frame, and the MD5 of all the samples, interleaved and in bytes.
    pub open spec fn is_stream_of(
        &self,
        samples: Seq<Vec<i64>>,
        samp_rate: u32,
        bps: u8,
        block_size: nat,
        plans: Seq<(ChannelAssignment, Vec<Vec<(Vec<i64>, u8, u8)>>)>,
    ) -> bool {
        let total = samples[0]@.len();
        let frames = self.frames@;
        &&& is_frame_count(total, block_size, frames.len())
        &&& forall|f: int|
            0 <= f < frames.len() ==> is_stream_frame(
                #[trigger] frames[f],
                samples,
                samp_rate,
                bps,
                block_size,
                plans,
                f,
            )
        &&& self.bytes@ == stream_head(self.info) + frames_bytes(
            frames,
            samples,
            block_size,
            frames.len(),
        )
        &&& self.info.wf()
        &&& self.info.sample_rate == samp_rate
        &&& self.info.num_channels == samples.len()
        &&& self.info.bit_depth == bps
        &&& self.info.total_samples == total
        &&& self.info.md5@ == md5_of(interleaved_bytes(samples, bps as nat, total))
        &&& self.info.min_block_size == least_of(block_sizes(frames))
        &&& self.info.max_block_size == greatest_of(block_sizes(frames))
        &&& self.info.min_frame_size == StreamTally::told_frame_size(
            least_of(frame_sizes(frames, samples, block_size)) as u64,
        )
        &&& self.info.max_frame_size == StreamTally::told_frame_size(
            greatest_of(frame_sizes(frames, samples, block_size)) as u64,
        )
    }
}

/// The bytes of the first `count` frames do not depend on the frames after
/// them.
pub proof fn lemma_frames_bytes_prefix(
    a: Seq<FlacFrame>,
    b: Seq<FlacFrame>,
    samples: Seq<Vec<i64>>,
    block_size: nat,
    count: nat,
)
    requires
        count <= a.len() <= b.len(),
        forall|f: int| 0 <= f < count ==> a[f] == b[f],
    ensures
        frames_bytes(a, samples, block_size, count) == frames_bytes(b, samples, block_size, count),
    decreases count,
{
    if count > 0 {
        lemma_frames_bytes_prefix(a, b, samples, block_size, (count - 1) as nat);
    }
}

/// Whether every one of `samples` fits a signed number of `bps` bits.
pub fn samples_fit(samples: &Vec<i64>, bps: u8) -> (fit: bool)
    requires
        1 <= bps <= 32,
    ensures
        fit == fits_depth(samples@, bps as nat),
{
    proof {
        lemma2_to64();
        if bps < 32 {
            vstd::arithmetic::power2::lemma_pow2_strictly_increases((bps - 1) as nat, 31);
        }
        vstd::bits::lemma_u64_shl_is_mul(1, (bps - 1) as u64);
    }
    let bound: i64 = (1u64 << (bps - 1)) as i64;
    let mut i: usize = 0;
    while i < samples.len()
        invariant
            i <= samples@.len(),
            bound == pow2((bps - 1) as nat),
            forall|k: int| 0 <= k < i ==> -bound <= #[trigger] samples@[k] < bound,
        decreases samples@.len() - i,
    {
        let sample: i64 = samples[i];
        if sample < -bound || sample >= bound {
            return false;
        }
        i = i + 1;
    }
    true
}

/// As many empty lists of predictors as there are channels.
fn no_predictors(channels: usize) -> (none: Vec<Vec<(Vec<i64>, u8, u8)>>)
    ensures
        none@.len() == channels,
        forall|ch: int| 0 <= ch < channels ==> (#[trigger] none@[ch])@ == Seq::<
            (Vec<i64>, u8, u8),
        >::empty(),
{
    let mut none: Vec<Vec<(Vec<i64>, u8, u8)>> = Vec::new();
    let mut ch: usize = 0;
    while ch < channels
        invariant
            ch <= channels,
            none@.len() == ch,
            forall|c: int| 0 <= c < ch ==> (#[trigger] none@[c])@ == Seq::<
                (Vec<i64>, u8, u8),
            >::empty(),
        decreases channels - ch,
    {
        let empty: Vec<(Vec<i64>, u8, u8)> = Vec::new();
        none.push(empty);
        ch = ch + 1;
    }
    none
}

impl FlacWriter {
    /// Whether `samples` is PCM that a stream can hold.
    pub fn is_stream(samples: &Vec<Vec<i64>>, samp_rate: u32, bps: u8) -> (legal: bool)
        ensures
            legal == is_pcm_stream(samples@, samp_rate, bps),
    {
        if samples.len() < 1 || samples.len() > 8 || samp_rate == 0 || samp_rate >= 0x10_0000
            || bps < 4 || bps > 32 {
            return false;
        }
        let total = samples[0].len();
        if total as u64 >= SAMPLE_LIMIT {
            return false;
        }
        let mut ch: usize = 0;
        while ch < samples.len()
            invariant
                ch <= samples@.len(),
                1 <= samples@.len() <= 8,
                4 <= bps <= 32,
                total == samples@[0]@.len(),
                forall|c: int|
                    0 <= c < ch ==> (#[trigger] samples@[c])@.len() == total && fits_depth(
                        samples@[c]@,
                        bps as nat,
                    ),
            decreases samples@.len() - ch,
        {
            if samples[ch].len() != total || !samples_fit(&samples[ch], bps) {
                return false;
            }
            ch = ch + 1;
        }
        true
    }

    /// Frame `f` of the stream of `samples`, its bytes, and the blocks that
    /// it stores.
    fn encode_frame(
        samples: &Vec<Vec<i64>>,
        samp_rate: u32,
        bps: u8,
        block_size: u16,
        plans: &Vec<(ChannelAssignment, Vec<Vec<(Vec<i64>, u8, u8)>>)>,
        none: &Vec<Vec<(Vec<i64>, u8, u8)>>,
        f: usize,
        start: usize,
    ) -> (encoded: (FlacFrame, Vec<u8>, Vec<Vec<i64>>))
        requires
            is_pcm_stream(samples@, samp_rate, bps),
            block_size >= 1,
            start == f * block_size,
            f <= start,
            start < samples@[0]@.len(),
            none@.len() == samples@.len(),
            forall|ch: int| 0 <= ch < none@.len() ==> (#[trigger] none@[ch])@ == Seq::<
                (Vec<i64>, u8, u8),
            >::empty(),
        ensures
            is_stream_frame(encoded.0, samples@, samp_rate, bps, block_size as nat, plans@, f as int),
            encoded.1@ == encoded.0.frame_bytes(
                channel_blocks(samples@, start as int, block_size as int),
            ),
            views(encoded.2@) == channel_blocks(samples@, start as int, block_size as int),
            is_pcm_block(encoded.2@, bps as nat, encoded.0.block_size() as nat),
            encoded.0.block_size() == if samples@[0]@.len() - start > block_size {
                block_size as int
            } else {
                samples@[0]@.len() - start
            },
    {
        proof {
            reveal(is_stream_frame);
        }
        let channels = samples.len();
        let blocks = Self::slice_block(samples, start, block_size);
        let len = blocks[0].len();
        let ghost stored = channel_blocks(samples@, start as int, block_size as int);
        proof {
            assert(views(blocks@) =~= stored);
            assert forall|ch: int| 0 <= ch < channels implies (#[trigger] views(blocks@)[ch]).len()
                == len && legal_block(views(blocks@)[ch], bps as nat) && fits_depth(
                blocks@[ch]@,
                bps as nat,
            ) by {
                assert(samples@[ch]@.len() == samples@[0]@.len());
                assert(fits_depth(samples@[ch]@, bps as nat));
                assert(blocks@[ch]@ == block_of(samples@[ch]@, start as int, block_size as int));
                assert(blocks@[0]@ == block_of(samples@[0]@, start as int, block_size as int));
                assert forall|i: int| 0 <= i < blocks@[ch]@.len() implies -pow2(
                    (bps - 1) as nat,
                ) <= #[trigger] blocks@[ch]@[i] < pow2((bps - 1) as nat) by {
                    assert(blocks@[ch]@[i] == samples@[ch]@[start + i]);
                }
            }
            assert(views(blocks@)[0].len() == len);
            assert(1 <= len <= 65535);
        }
        let assignment = if f < plans.len() && channels == 2 {
            plans[f].0
        } else {
            ChannelAssignment::LeftRight
        };
        let frame = FlacFrame::new(
            len as u16,
            FlacFrameHeaderValueOption::Streaminfo(samp_rate as u64),
            channels as u8,
            FlacFrameHeaderValueOption::Streaminfo(bps),
            f as u64,
        );
        let mut frame = frame.with_channel_assignment(assignment);
        let bytes = if f < plans.len() && plans[f].1.len() == channels {
            frame.build_bytes(&blocks, &plans[f].1)
        } else {
            frame.build_bytes(&blocks, none)
        };
        proof {
            assert(forall|ch: int|
                0 <= ch < channels ==> (#[trigger] frame.subframes()[ch]).is_best_choice(
                    frame.stored(stored)[ch],
                    planned_predictors(plans@, f as int, channels as nat, ch),
                ));
        }
        (frame, bytes, blocks)
    }

    /// The stream of `samples`: the head with its STREAMINFO block, then a
    /// frame for each block of `block_size` samples. `plans` names for each
    /// frame how its channels are stored and the quantized linear
    /// predictors to weigh for each stored channel; a frame without a plan
    /// stores its channels as they are and weighs no linear predictor.
    /// Refused is what no stream can hold, and a block size of 0.
    #[verifier::rlimit(60)]
    pub fn encode_stream(
        samples: &Vec<Vec<i64>>,
        samp_rate: u32,
        bps: u8,
        block_size: u16,
        plans: &Vec<(ChannelAssignment, Vec<Vec<(Vec<i64>, u8, u8)>>)>,
    ) -> (encoded: Result<EncodedStream, FlacWriterError>)
        ensures
            encoded is Ok <==> is_pcm_stream(samples@, samp_rate, bps) && block_size >= 1,
            encoded matches Err(error) ==> error is InvalidFormatError,
            encoded matches Ok(stream) ==> stream.is_stream_of(
                samples@,
                samp_rate,
                bps,
                block_size as nat,
                plans@,
            ),
    {
        if block_size < 1 || !Self::is_stream(samples, samp_rate, bps) {
            return Err(FlacWriterError::InvalidFormatError);
        }
        let channels = samples.len();
        let total = samples[0].len();
        let none = no_predictors(channels);
        let mut tally = StreamTally::new();
        let mut frames: Vec<FlacFrame> = Vec::new();
        let mut body: Vec<u8> = Vec::new();
        let mut f: usize = 0;
        let mut start: u64 = 0;
        while start < total as u64
            invariant
                is_pcm_stream(samples@, samp_rate, bps),
                block_size >= 1,
                channels == samples@.len(),
                total == samples@[0]@.len(),
                none@.len() == channels,
                forall|ch: int| 0 <= ch < none@.len() ==> (#[trigger] none@[ch])@ == Seq::<
                    (Vec<i64>, u8, u8),
                >::empty(),
                start == f * block_size,
                f <= start,
                f > 0 ==> (f - 1) * block_size < total,
                frames@.len() == f,
                forall|k: int|
                    0 <= k < f ==> is_stream_frame(
                        #[trigger] frames@[k],
                        samples@,
                        samp_rate,
                        bps,
                        block_size as nat,
                        plans@,
                        k,
                    ),
                body@ == frames_bytes(frames@, samples@, block_size as nat, f as nat),
                tally.frames() == f,
                tally.total_samples() == if start <= total {
                    start as int
                } else {
                    total as int
                },
                tally.pcm() == interleaved_bytes(
                    samples@,
                    bps as nat,
                    tally.total_samples() as nat,
                ),
                tally.min_block_size() == least_of(block_sizes(frames@)),
                tally.max_block_size() == greatest_of(block_sizes(frames@)),
                tally.min_frame_size() == least_of(
                    frame_sizes(frames@, samples@, block_size as nat),
                ),
                tally.max_frame_size() == greatest_of(
                    frame_sizes(frames@, samples@, block_size as nat),
                ),
            decreases total - f,
        {
            let (frame, mut bytes, blocks) = Self::encode_frame(
                samples,
                samp_rate,
                bps,
                block_size,
                plans,
                &none,
                f,
                start as usize,
            );
            let ghost before = frames@;
            let ghost size = frame.block_size();
            proof {
                reveal(is_stream_frame);
                assert forall|ch: int| 0 <= ch < samples@.len() implies size <= (
                #[trigger] blocks@[ch])@.len() && start + blocks@[ch]@.len() <= samples@[ch]@.len()
                    && blocks@[ch]@ == samples@[ch]@.subrange(
                    start as int,
                    (start + blocks@[ch]@.len()) as int,
                ) by {
                    assert(samples@[ch]@.len() == samples@[0]@.len());
                    assert(views(blocks@)[ch] == block_of(
                        samples@[ch]@,
                        start as int,
                        block_size as int,
                    ));
                }
                lemma_interleaved_bytes_of_block(
                    samples@,
                    blocks@,
                    bps as nat,
                    start as nat,
                    size as nat,
                );
            }
            tally.record(&blocks, bps, frame.block_size_of(), bytes.len());
            body.append(&mut bytes);
            frames.push(frame);
            proof {
                lemma_frames_bytes_prefix(before, frames@, samples@, block_size as nat, f as nat);
                assert(block_sizes(frames@).drop_last() =~= block_sizes(before));
                assert(frame_sizes(frames@, samples@, block_size as nat).drop_last()
                    =~= frame_sizes(before, samples@, block_size as nat));
                assert((f + 1) * block_size == f * block_size + block_size) by (nonlinear_arith);
            }
            f = f + 1;
            start = start + block_size as u64;
        }
        let info = tally.finish(samp_rate, channels as u8, bps);
        let mut bytes = Self::stream_header(&info);
        bytes.append(&mut body);
        Ok(EncodedStream { bytes, info, frames })
    }
}

} // verus!
