//! The MD5 signature of the unencoded samples: the samples of all channels
//! interleaved, each in whole bytes, least significant byte first.

use crate::flac::subframe::fits_depth;
use vstd::arithmetic::power2::{lemma2_to64, lemma_pow2_strictly_increases, pow2};
use vstd::prelude::*;

verus! {

/// The MD5 digest of a message, as the `md5` crate computes it.
pub uninterp spec fn md5_of(message: Seq<u8>) -> Seq<u8>;

/// The `n` low bytes of `value`, least significant first. A negative value
/// gives its two's complement.
pub open spec fn le_bytes(value: int, n: nat) -> Seq<u8>
    decreases n,
{
    if n == 0 {
        Seq::empty()
    } else {
        seq![(value % 256) as u8] + le_bytes(value / 256, (n - 1) as nat)
    }
}

/// The number of bytes that hold a sample of `bps` bits.
pub open spec fn bytes_per_sample(bps: nat) -> nat {
    (bps + 7) / 8
}

/// Sample `i` of each of the first `channels` channels, in bytes.
pub open spec fn sample_frame_bytes(blocks: Seq<Vec<i64>>, bps: nat, i: int, channels: nat) -> Seq<
    u8,
>
    decreases channels,
{
    if channels == 0 {
        Seq::empty()
    } else {
        sample_frame_bytes(blocks, bps, i, (channels - 1) as nat) + le_bytes(
            blocks[channels - 1]@[i] as int,
            bytes_per_sample(bps),
        )
    }
}

/// The first `count` samples of every channel, interleaved, in bytes.
pub open spec fn interleaved_bytes(blocks: Seq<Vec<i64>>, bps: nat, count: nat) -> Seq<u8>
    decreases count,
{
    if count == 0 {
        Seq::empty()
    } else {
        interleaved_bytes(blocks, bps, (count - 1) as nat) + sample_frame_bytes(
            blocks,
            bps,
            count - 1,
            blocks.len(),
        )
    }
}

/// Whether `blocks` holds one block for each channel, all of `size` samples
/// that fit `bps` bits.
pub open spec fn is_pcm_block(blocks: Seq<Vec<i64>>, bps: nat, size: nat) -> bool {
    &&& 4 <= bps <= 32
    &&& forall|ch: int|
        0 <= ch < blocks.len() ==> (#[trigger] blocks[ch])@.len() == size && fits_depth(
            blocks[ch]@,
            bps,
        )
}

/// Calls `byteorder::LittleEndian::write_int` on a fresh buffer of `nbytes`
/// bytes. Claimed of it: for a value that `nbytes` bytes can hold, the
/// buffer then holds the value's two's complement, least significant byte
/// first.
#[verifier::external_body]
fn le_bytes_of(value: i64, nbytes: usize) -> (bytes: Vec<u8>)
    requires
        1 <= nbytes <= 8,
        -pow2((8 * nbytes - 1) as nat) <= value < pow2((8 * nbytes - 1) as nat),
    ensures
        bytes@ == le_bytes(value as int, nbytes as nat),
{
    let mut buffer = vec![0u8; nbytes];
    <byteorder::LittleEndian as byteorder::ByteOrder>::write_int(&mut buffer, value, nbytes);
    buffer
}

/// Calls `md5::Md5::digest`, the one-shot form of the hasher. Claimed of
/// it: the result is a function of the message alone, and has 16 bytes.
#[verifier::external_body]
pub(crate) fn md5_digest(message: &Vec<u8>) -> (digest: Vec<u8>)
    ensures
        digest@ == md5_of(message@),
        digest@.len() == 16,
{
    <md5::Md5 as md5::Digest>::digest(message.as_slice()).to_vec()
}

/// The samples of one block of every channel, interleaved, in bytes.
pub fn block_bytes(blocks: &Vec<Vec<i64>>, bps: u8, size: usize) -> (bytes: Vec<u8>)
    requires
        is_pcm_block(blocks@, bps as nat, size as nat),
    ensures
        bytes@ == interleaved_bytes(blocks@, bps as nat, size as nat),
{
    let nbytes: usize = (bps as usize + 7) / 8;
    let mut bytes: Vec<u8> = Vec::new();
    let mut i: usize = 0;
    while i < size
        invariant
            i <= size,
            nbytes == bytes_per_sample(bps as nat),
            is_pcm_block(blocks@, bps as nat, size as nat),
            bytes@ == interleaved_bytes(blocks@, bps as nat, i as nat),
        decreases size - i,
    {
        let ghost before = bytes@;
        let mut ch: usize = 0;
        while ch < blocks.len()
            invariant
                ch <= blocks@.len(),
                i < size,
                nbytes == bytes_per_sample(bps as nat),
                is_pcm_block(blocks@, bps as nat, size as nat),
                bytes@ == before + sample_frame_bytes(blocks@, bps as nat, i as int, ch as nat),
            decreases blocks@.len() - ch,
        {
            let sample: i64 = blocks[ch][i];
            proof {
                lemma2_to64();
                let block = blocks@[ch as int]@;
                assert(-pow2((bps - 1) as nat) <= block[i as int] < pow2((bps - 1) as nat));
                if bps - 1 < 8 * nbytes - 1 {
                    lemma_pow2_strictly_increases((bps - 1) as nat, (8 * nbytes - 1) as nat);
                }
            }
            let mut sample_bytes = le_bytes_of(sample, nbytes);
            bytes.append(&mut sample_bytes);
            ch = ch + 1;
            proof {
                assert(bytes@ =~= before + sample_frame_bytes(
                    blocks@,
                    bps as nat,
                    i as int,
                    ch as nat,
                ));
            }
        }
        i = i + 1;
    }
    bytes
}

/// One sample of every channel of a block is in bytes what the sample at
/// the same place of the stream is.
pub proof fn lemma_sample_frame_of_block(
    samples: Seq<Vec<i64>>,
    block: Seq<Vec<i64>>,
    bps: nat,
    start: int,
    i: int,
    channels: nat,
)
    requires
        channels <= samples.len(),
        channels <= block.len(),
        0 <= start,
        0 <= i,
        forall|ch: int|
            0 <= ch < channels ==> i < (#[trigger] block[ch])@.len() && start + i
                < samples[ch]@.len() && block[ch]@[i] == samples[ch]@[start + i],
    ensures
        sample_frame_bytes(block, bps, i, channels) == sample_frame_bytes(
            samples,
            bps,
            start + i,
            channels,
        ),
    decreases channels,
{
    if channels > 0 {
        lemma_sample_frame_of_block(samples, block, bps, start, i, (channels - 1) as nat);
        assert(block[channels - 1]@[i] == samples[channels - 1]@[start + i]);
    }
}

/// The samples of a stream up to the end of a block are in bytes the
/// samples before the block and then the samples of the block.
pub proof fn lemma_interleaved_bytes_of_block(
    samples: Seq<Vec<i64>>,
    block: Seq<Vec<i64>>,
    bps: nat,
    start: nat,
    count: nat,
)
    requires
        block.len() == samples.len(),
        forall|ch: int|
            0 <= ch < samples.len() ==> count <= (#[trigger] block[ch])@.len() && start
                + block[ch]@.len() <= samples[ch]@.len() && block[ch]@ == samples[ch]@.subrange(
                start as int,
                (start + block[ch]@.len()) as int,
            ),
    ensures
        interleaved_bytes(samples, bps, start + count) == interleaved_bytes(samples, bps, start)
            + interleaved_bytes(block, bps, count),
    decreases count,
{
    if count > 0 {
        lemma_interleaved_bytes_of_block(samples, block, bps, start, (count - 1) as nat);
        assert forall|ch: int| 0 <= ch < samples.len() implies count - 1 < (#[trigger] block[ch])@.len()
            && start + (count - 1) < samples[ch]@.len() && block[ch]@[count - 1]
            == samples[ch]@[start + (count - 1)] by {
            assert(block[ch]@ == samples[ch]@.subrange(
                start as int,
                (start + block[ch]@.len()) as int,
            ));
        }
        lemma_sample_frame_of_block(samples, block, bps, start as int, count - 1, samples.len());
        assert(interleaved_bytes(samples, bps, start + count) =~= interleaved_bytes(
            samples,
            bps,
            start,
        ) + interleaved_bytes(block, bps, count));
    } else {
        assert(interleaved_bytes(samples, bps, start + count) =~= interleaved_bytes(
            samples,
            bps,
            start,
        ) + interleaved_bytes(block, bps, count));
    }
}

} // verus!
