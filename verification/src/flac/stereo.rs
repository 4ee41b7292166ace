//! Stereo decorrelation: a pair of channels stored as they are, or one of
//! them or their mean beside their difference.

use crate::flac::bitstream::lemma_i64_low_bit;
use crate::flac::encoder::rice::MAX_BLOCK_SIZE;
use crate::flac::subframe::{chosen_len, fits_depth, legal_block, FlacSubframe};
use vstd::arithmetic::power2::{lemma2_to64, lemma_pow2_unfold, pow2};
use vstd::prelude::*;

verus! {

/// How the two channels of a stereo frame are stored.
#[derive(Clone, Copy, Debug)]
pub enum ChannelAssignment {
    /// Every channel as it is. The only way for other than two channels.
    LeftRight,
    /// The left channel, then the side channel.
    LeftSide,
    /// The side channel, then the right channel.
    SideRight,
    /// The mid channel, then the side channel.
    MidSide,
}

/// The side channel: left less right.
pub open spec fn side_channel(left: Seq<i64>, right: Seq<i64>) -> Seq<i64> {
    Seq::new(left.len(), |i: int| (left[i] - right[i]) as i64)
}

/// The mid channel: the sum of left and right, shifted right by one.
pub open spec fn mid_channel(left: Seq<i64>, right: Seq<i64>) -> Seq<i64> {
    Seq::new(left.len(), |i: int| ((left[i] + right[i]) / 2) as i64)
}

impl ChannelAssignment {
    /// The first channel that is stored.
    pub open spec fn first(self, left: Seq<i64>, right: Seq<i64>) -> Seq<i64> {
        match self {
            ChannelAssignment::LeftRight => left,
            ChannelAssignment::LeftSide => left,
            ChannelAssignment::SideRight => side_channel(left, right),
            ChannelAssignment::MidSide => mid_channel(left, right),
        }
    }

    /// The second channel that is stored.
    pub open spec fn second(self, left: Seq<i64>, right: Seq<i64>) -> Seq<i64> {
        match self {
            ChannelAssignment::LeftRight => right,
            ChannelAssignment::LeftSide => side_channel(left, right),
            ChannelAssignment::SideRight => right,
            ChannelAssignment::MidSide => side_channel(left, right),
        }
    }

    /// The bit depth of the first channel that is stored: a side channel
    /// takes one bit more than the channels it comes from.
    pub open spec fn first_depth(self, depth: nat) -> nat {
        match self {
            ChannelAssignment::SideRight => depth + 1,
            _ => depth,
        }
    }

    /// The bit depth of the second channel that is stored.
    pub open spec fn second_depth(self, depth: nat) -> nat {
        match self {
            ChannelAssignment::LeftSide => depth + 1,
            ChannelAssignment::MidSide => depth + 1,
            _ => depth,
        }
    }

    /// The four bits that stand for the assignment in a frame of
    /// `channels` channels.
    pub open spec fn code(self, channels: nat) -> nat {
        match self {
            ChannelAssignment::LeftRight => (channels - 1) as nat,
            ChannelAssignment::LeftSide => 8,
            ChannelAssignment::SideRight => 9,
            ChannelAssignment::MidSide => 10,
        }
    }

    /// The place of the assignment among the four.
    pub open spec fn rank(self) -> nat {
        match self {
            ChannelAssignment::LeftRight => 0,
            ChannelAssignment::LeftSide => 1,
            ChannelAssignment::SideRight => 2,
            ChannelAssignment::MidSide => 3,
        }
    }

    /// Which of left, right, mid and side, counted from 0, the first stored
    /// channel is.
    pub open spec fn first_source(self) -> int {
        match self {
            ChannelAssignment::LeftRight => 0,
            ChannelAssignment::LeftSide => 0,
            ChannelAssignment::SideRight => 3,
            ChannelAssignment::MidSide => 2,
        }
    }

    /// Which of left, right, mid and side, counted from 0, the second
    /// stored channel is.
    pub open spec fn second_source(self) -> int {
        match self {
            ChannelAssignment::LeftRight => 1,
            ChannelAssignment::LeftSide => 3,
            ChannelAssignment::SideRight => 1,
            ChannelAssignment::MidSide => 3,
        }
    }

    /// The number of bits that the two stored channels take, each stored
    /// the way that is chosen for it; `predictors` names the quantized
    /// linear predictors to weigh for left, right, mid and side.
    pub open spec fn cost(
        self,
        left: Seq<i64>,
        right: Seq<i64>,
        depth: nat,
        predictors: Seq<Vec<(Vec<i64>, u8, u8)>>,
    ) -> nat {
        chosen_len(
            self.first(left, right),
            self.first_depth(depth),
            predictors[self.first_source()]@,
        ) + chosen_len(
            self.second(left, right),
            self.second_depth(depth),
            predictors[self.second_source()]@,
        )
    }

    /// Whether the assignment comes before `other`: by fewer bits, then by
    /// the earlier place among the four.
    pub open spec fn precedes(
        self,
        other: ChannelAssignment,
        left: Seq<i64>,
        right: Seq<i64>,
        depth: nat,
        predictors: Seq<Vec<(Vec<i64>, u8, u8)>>,
    ) -> bool {
        let mine = self.cost(left, right, depth, predictors);
        let theirs = other.cost(left, right, depth, predictors);
        mine < theirs || (mine == theirs && self.rank() <= other.rank())
    }

    /// The assignment that stores a stereo block in the fewest bits; of
    /// several such the first among left-right, left-side, side-right and
    /// mid-side. `predictors` names the quantized linear predictors to
    /// weigh for left, right, mid and side.
    pub fn best(
        left: &Vec<i64>,
        right: &Vec<i64>,
        depth: u8,
        predictors: &Vec<Vec<(Vec<i64>, u8, u8)>>,
    ) -> (best: ChannelAssignment)
        requires
            4 <= depth <= 32,
            1 <= left@.len() <= MAX_BLOCK_SIZE,
            left@.len() == right@.len(),
            fits_depth(left@, depth as nat),
            fits_depth(right@, depth as nat),
            predictors@.len() == 4,
        ensures
            forall|other: ChannelAssignment|
                best.precedes(other, left@, right@, depth as nat, predictors@),
    {
        let mid = mid_of(left, right, depth);
        let side = side_of(left, right, depth);
        let left_bits = stored_len(left, depth, &predictors[0]);
        let right_bits = stored_len(right, depth, &predictors[1]);
        let mid_bits = stored_len(&mid, depth, &predictors[2]);
        let side_bits = stored_len(&side, depth + 1, &predictors[3]);
        let mut best = ChannelAssignment::LeftRight;
        let mut best_bits: u128 = left_bits + right_bits;
        if left_bits + side_bits < best_bits {
            best = ChannelAssignment::LeftSide;
            best_bits = left_bits + side_bits;
        }
        if side_bits + right_bits < best_bits {
            best = ChannelAssignment::SideRight;
            best_bits = side_bits + right_bits;
        }
        if mid_bits + side_bits < best_bits {
            best = ChannelAssignment::MidSide;
            best_bits = mid_bits + side_bits;
        }
        proof {
            let d = depth as nat;
            let p = predictors@;
            assert(ChannelAssignment::LeftRight.cost(left@, right@, d, p) == left_bits
                + right_bits);
            assert(ChannelAssignment::LeftSide.cost(left@, right@, d, p) == left_bits + side_bits);
            assert(ChannelAssignment::SideRight.cost(left@, right@, d, p) == side_bits
                + right_bits);
            assert(ChannelAssignment::MidSide.cost(left@, right@, d, p) == mid_bits + side_bits);
        }
        best
    }

    /// Which of left, right, mid and side, counted from 0, the two stored
    /// channels are.
    pub fn sources(&self) -> (sources: (usize, usize))
        ensures
            sources.0 == self.first_source(),
            sources.1 == self.second_source(),
    {
        match self {
            ChannelAssignment::LeftRight => (0, 1),
            ChannelAssignment::LeftSide => (0, 3),
            ChannelAssignment::SideRight => (3, 1),
            ChannelAssignment::MidSide => (2, 3),
        }
    }

    /// Whether the assignment stores the channels as they are.
    pub fn is_left_right(&self) -> (plain: bool)
        ensures
            plain == (*self is LeftRight),
    {
        match self {
            ChannelAssignment::LeftRight => true,
            _ => false,
        }
    }

    /// The four bits that stand for the assignment in a frame of
    /// `channels` channels.
    pub fn code_of(&self, channels: u8) -> (code: u8)
        requires
            channels >= 1,
        ensures
            code == self.code(channels as nat),
    {
        match self {
            ChannelAssignment::LeftRight => channels - 1,
            ChannelAssignment::LeftSide => 8,
            ChannelAssignment::SideRight => 9,
            ChannelAssignment::MidSide => 10,
        }
    }

    /// The two channels that are stored for `left` and `right`.
    pub fn decorrelate(&self, left: &Vec<i64>, right: &Vec<i64>, depth: u8) -> (stored: (
        Vec<i64>,
        Vec<i64>,
    ))
        requires
            1 <= depth <= 32,
            left@.len() == right@.len(),
            fits_depth(left@, depth as nat),
            fits_depth(right@, depth as nat),
        ensures
            stored.0@ == self.first(left@, right@),
            stored.1@ == self.second(left@, right@),
            fits_depth(stored.0@, self.first_depth(depth as nat)),
            fits_depth(stored.1@, self.second_depth(depth as nat)),
    {
        match self {
            ChannelAssignment::LeftRight => (copy_channel(left), copy_channel(right)),
            ChannelAssignment::LeftSide => (copy_channel(left), side_of(left, right, depth)),
            ChannelAssignment::SideRight => (side_of(left, right, depth), copy_channel(right)),
            ChannelAssignment::MidSide => (mid_of(left, right, depth), side_of(left, right, depth)),
        }
    }
}

/// The number of bits that the way chosen to store `samples` takes, which
/// is below 2^100.
fn stored_len(samples: &Vec<i64>, depth: u8, candidates: &Vec<(Vec<i64>, u8, u8)>) -> (len: u128)
    requires
        legal_block(samples@, depth as nat),
    ensures
        len == chosen_len(samples@, depth as nat, candidates@),
        len < 0x10_0000_0000_0000_0000_0000_0000,
{
    let best = FlacSubframe::new_best(depth, samples, candidates);
    proof {
        best.lemma_best_choice_len(samples@, candidates@);
    }
    let built = best.build_bytes(samples);
    proof {
        crate::flac::bitstream::lemma_pack_len(best.bits(samples@));
    }
    (built.0.len() as u128) * 8 - built.1 as u128
}

/// A copy of a channel.
fn copy_channel(samples: &Vec<i64>) -> (copy: Vec<i64>)
    ensures
        copy@ == samples@,
{
    let copy = crate::flac::lpc::copy_range(samples, 0, samples.len());
    proof {
        assert(copy@ =~= samples@);
    }
    copy
}

/// The side channel of `left` and `right`.
pub fn side_of(left: &Vec<i64>, right: &Vec<i64>, depth: u8) -> (side: Vec<i64>)
    requires
        1 <= depth <= 32,
        left@.len() == right@.len(),
        fits_depth(left@, depth as nat),
        fits_depth(right@, depth as nat),
    ensures
        side@ == side_channel(left@, right@),
        fits_depth(side@, (depth + 1) as nat),
{
    let mut side: Vec<i64> = Vec::new();
    let mut i: usize = 0;
    proof {
        lemma2_to64();
        lemma_pow2_unfold(depth as nat);
        vstd::arithmetic::power2::lemma_pow2_strictly_increases(depth as nat, 33);
        vstd::arithmetic::power2::lemma2_to64_rest();
    }
    while i < left.len()
        invariant
            i <= left@.len(),
            left@.len() == right@.len(),
            1 <= depth <= 32,
            fits_depth(left@, depth as nat),
            fits_depth(right@, depth as nat),
            pow2(depth as nat) == 2 * pow2((depth - 1) as nat),
            pow2(depth as nat) < 0x2_0000_0000,
            side@.len() == i,
            forall|k: int|
                0 <= k < i ==> #[trigger] side@[k] == left@[k] - right@[k] && -pow2(depth as nat)
                    <= side@[k] < pow2(depth as nat),
        decreases left@.len() - i,
    {
        proof {
            assert(-pow2((depth - 1) as nat) <= left@[i as int] < pow2((depth - 1) as nat));
            assert(-pow2((depth - 1) as nat) <= right@[i as int] < pow2((depth - 1) as nat));
        }
        side.push(left[i] - right[i]);
        i = i + 1;
    }
    proof {
        assert(side@ =~= side_channel(left@, right@));
    }
    side
}

/// The mid channel of `left` and `right`.
pub fn mid_of(left: &Vec<i64>, right: &Vec<i64>, depth: u8) -> (mid: Vec<i64>)
    requires
        1 <= depth <= 32,
        left@.len() == right@.len(),
        fits_depth(left@, depth as nat),
        fits_depth(right@, depth as nat),
    ensures
        mid@ == mid_channel(left@, right@),
        fits_depth(mid@, depth as nat),
{
    let mut mid: Vec<i64> = Vec::new();
    let mut i: usize = 0;
    proof {
        lemma2_to64();
        lemma_pow2_unfold(depth as nat);
        vstd::arithmetic::power2::lemma_pow2_strictly_increases(depth as nat, 33);
        vstd::arithmetic::power2::lemma2_to64_rest();
    }
    while i < left.len()
        invariant
            i <= left@.len(),
            left@.len() == right@.len(),
            1 <= depth <= 32,
            fits_depth(left@, depth as nat),
            fits_depth(right@, depth as nat),
            pow2(depth as nat) == 2 * pow2((depth - 1) as nat),
            pow2(depth as nat) < 0x2_0000_0000,
            mid@.len() == i,
            forall|k: int|
                0 <= k < i ==> #[trigger] mid@[k] == (left@[k] + right@[k]) / 2 && -pow2(
                    (depth - 1) as nat,
                ) <= mid@[k] < pow2((depth - 1) as nat),
        decreases left@.len() - i,
    {
        proof {
            assert(-pow2((depth - 1) as nat) <= left@[i as int] < pow2((depth - 1) as nat));
            assert(-pow2((depth - 1) as nat) <= right@[i as int] < pow2((depth - 1) as nat));
        }
        let sum: i64 = left[i] + right[i];
        proof {
            lemma_i64_low_bit(sum);
        }
        mid.push(sum >> 1);
        i = i + 1;
    }
    proof {
        assert(mid@ =~= mid_channel(left@, right@));
    }
    mid
}

/// The two channels that are stored determine left and right: two pairs of
/// channels that are stored alike under one assignment are one pair.
pub proof fn lemma_assignment_loses_nothing(
    assignment: ChannelAssignment,
    left: Seq<i64>,
    right: Seq<i64>,
    other_left: Seq<i64>,
    other_right: Seq<i64>,
)
    requires
        left.len() == right.len(),
        other_left.len() == other_right.len(),
        left.len() == other_left.len(),
        forall|i: int|
            0 <= i < left.len() ==> -0x1_0000_0000 <= #[trigger] left[i] < 0x1_0000_0000,
        forall|i: int|
            0 <= i < left.len() ==> -0x1_0000_0000 <= #[trigger] right[i] < 0x1_0000_0000,
        forall|i: int|
            0 <= i < left.len() ==> -0x1_0000_0000 <= #[trigger] other_left[i] < 0x1_0000_0000,
        forall|i: int|
            0 <= i < left.len() ==> -0x1_0000_0000 <= #[trigger] other_right[i] < 0x1_0000_0000,
        assignment.first(left, right) == assignment.first(other_left, other_right),
        assignment.second(left, right) == assignment.second(other_left, other_right),
    ensures
        left == other_left,
        right == other_right,
{
    assert forall|i: int| 0 <= i < left.len() implies left[i] == other_left[i] && right[i]
        == other_right[i] by {
        assert(-0x1_0000_0000 <= left[i] < 0x1_0000_0000);
        assert(-0x1_0000_0000 <= right[i] < 0x1_0000_0000);
        assert(-0x1_0000_0000 <= other_left[i] < 0x1_0000_0000);
        assert(-0x1_0000_0000 <= other_right[i] < 0x1_0000_0000);
        assert(assignment.first(left, right)[i] == assignment.first(other_left, other_right)[i]);
        assert(assignment.second(left, right)[i] == assignment.second(
            other_left,
            other_right,
        )[i]);
        let side = left[i] - right[i];
        let other_side = other_left[i] - other_right[i];
        let sum = left[i] + right[i];
        let other_sum = other_left[i] + other_right[i];
        assert(side_channel(left, right)[i] == side);
        assert(side_channel(other_left, other_right)[i] == other_side);
        assert(mid_channel(left, right)[i] == sum / 2);
        assert(mid_channel(other_left, other_right)[i] == other_sum / 2);
        match assignment {
            ChannelAssignment::LeftRight => {},
            ChannelAssignment::LeftSide => {},
            ChannelAssignment::SideRight => {},
            ChannelAssignment::MidSide => {
                assert(side == other_side);
                assert(sum / 2 == other_sum / 2);
                assert((sum - side) % 2 == 0);
                assert((other_sum - other_side) % 2 == 0);
            },
        }
    }
    assert(left =~= other_left);
    assert(right =~= other_right);
}

} // verus!
