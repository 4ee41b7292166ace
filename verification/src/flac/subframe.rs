//! Subframes: one channel of one block, stored as a constant, verbatim,
//! under a fixed predictor or under a linear one.

use crate::flac::bitstream::{
    bits_of, lemma_i64_low_bit, pack, pad_len, unary, BitstreamWriter,
};
use crate::flac::encoder::rice::partition::{
    chosen_count, is_chosen_order, is_partition_stream, partition, raw_codes, residual_section,
    write_raw_codes,
};
use crate::flac::encoder::rice::{RiceEncodedStream, RiceEncoderOptions, MAX_BLOCK_SIZE};
use crate::flac::lpc::fixed::{
    fixed_residuals, is_best_fixed_order, lemma_best_fixed_order_unique, FixedPredictor,
    MAX_FIXED_ORDER,
};
use crate::flac::lpc::var::{
    is_best_lpc, lemma_best_lpc_unique, lemma_coefs_fit_widest, lemma_div_keeps_bound,
    lemma_i64_shr_is_div, lpc_residuals, lpc_usable, predictor_usable, VarPredictor,
};
use crate::flac::lpc::{as_i64s, as_ints, copy_range, in_sample_range, MAX_SAMPLE_BITS};
use vstd::arithmetic::power2::{lemma2_to64, lemma_pow2_pos, lemma_pow2_unfold, pow2};
use vstd::prelude::*;

verus! {

/// The number of zero bits at the low end of `v`, counting at most `limit`.
pub open spec fn zero_run(v: int, limit: nat) -> nat
    decreases limit,
{
    if limit == 0 || v % 2 != 0 {
        0
    } else {
        1 + zero_run(v / 2, (limit - 1) as nat)
    }
}

/// The number of zero bits that every sample has at its low end, counting
/// at most 64.
pub open spec fn shared_zero_run(samples: Seq<i64>) -> nat
    decreases samples.len(),
{
    if samples.len() == 0 {
        64
    } else {
        let before = shared_zero_run(samples.drop_last());
        let last = zero_run(samples.last() as int, 64);
        if last < before {
            last
        } else {
            before
        }
    }
}

/// The wasted bits of a block: the zero bits that every sample has at its
/// low end, or 0 where the block is silent.
pub open spec fn wasted_bits(samples: Seq<i64>) -> nat {
    if shared_zero_run(samples) >= 64 {
        0
    } else {
        shared_zero_run(samples)
    }
}

/// The samples without their `wasted` lowest bits.
pub open spec fn shifted(samples: Seq<i64>, wasted: nat) -> Seq<i64> {
    Seq::new(samples.len(), |i: int| (samples[i] as int / (pow2(wasted) as int)) as i64)
}

/// Whether every sample fits a signed number of `depth` bits.
pub open spec fn fits_depth(samples: Seq<i64>, depth: nat) -> bool {
    forall|i: int|
        0 <= i < samples.len() ==> -pow2((depth - 1) as nat) <= #[trigger] samples[i] < pow2(
            (depth - 1) as nat,
        )
}

/// Whether `samples` is one channel of a block of the given bit depth:
/// between 1 and 65535 samples of between 4 and 33 bits.
pub open spec fn legal_block(samples: Seq<i64>, depth: nat) -> bool {
    &&& 4 <= depth <= MAX_SAMPLE_BITS
    &&& 1 <= samples.len() <= MAX_BLOCK_SIZE
    &&& fits_depth(samples, depth)
}

/// Whether every sample is `value`.
pub open spec fn all_equal(samples: Seq<i64>, value: i64) -> bool {
    forall|i: int| 0 <= i < samples.len() ==> #[trigger] samples[i] == value
}

/// Whether every sample of the block is the same as the first.
pub open spec fn is_flat(samples: Seq<i64>) -> bool {
    all_equal(samples, samples[0])
}

/// The header of a subframe: a zero bit, six bits of type, and the wasted
/// bits: a zero bit for none, else a one bit and their count less one in
/// unary.
pub open spec fn subframe_header(code: nat, wasted: nat) -> Seq<bool> {
    seq![false] + bits_of(code as int, 6) + if wasted == 0 {
        seq![false]
    } else {
        seq![true] + unary((wasted - 1) as nat)
    }
}

/// The body of a fixed-predictor subframe: the warm-up samples, then the
/// residual section.
pub open spec fn fixed_body(e: Seq<i64>, depth: nat, order: nat) -> Seq<bool> {
    raw_codes(e.take(order as int), depth) + residual_section(
        as_i64s(fixed_residuals(e, order)),
        e.len(),
        order,
        depth,
    )
}

/// The body of a linear-predictor subframe: the warm-up samples, the
/// precision less one in four bits, the shift in five, the coefficients,
/// then the residual section.
pub open spec fn lpc_body(
    e: Seq<i64>,
    depth: nat,
    coefs: Seq<i64>,
    precision: nat,
    shift: nat,
) -> Seq<bool> {
    raw_codes(e.take(coefs.len() as int), depth) + bits_of(precision - 1, 4) + bits_of(
        shift as int,
        5,
    ) + raw_codes(coefs, precision) + residual_section(
        as_i64s(lpc_residuals(e, coefs, shift)),
        e.len(),
        coefs.len(),
        depth,
    )
}

/// Zero has as many low zero bits as one cares to count.
pub proof fn lemma_zero_run_of_zero(limit: nat)
    ensures
        zero_run(0, limit) == limit,
    decreases limit,
{
    if limit > 0 {
        lemma_zero_run_of_zero((limit - 1) as nat);
    }
}

/// A number other than zero has fewer low zero bits than it has bits.
pub proof fn lemma_zero_run_below_depth(v: int, depth: nat, limit: nat)
    requires
        v != 0,
        depth >= 1,
        -pow2((depth - 1) as nat) <= v < pow2((depth - 1) as nat),
    ensures
        zero_run(v, limit) < depth,
    decreases limit,
{
    lemma2_to64();
    if limit > 0 && v % 2 == 0 {
        if depth == 1 {
            assert(false);
        } else {
            lemma_pow2_unfold((depth - 1) as nat);
            lemma_zero_run_below_depth(v / 2, (depth - 1) as nat, (limit - 1) as nat);
        }
    }
}

/// The wasted bits of a block are fewer than its bit depth, and no sample
/// has fewer low zero bits.
pub proof fn lemma_wasted_bits_below_depth(samples: Seq<i64>, depth: nat)
    requires
        depth >= 1,
        fits_depth(samples, depth),
    ensures
        shared_zero_run(samples) >= 64 || shared_zero_run(samples) < depth,
        wasted_bits(samples) < depth || wasted_bits(samples) == 0,
    decreases samples.len(),
{
    if samples.len() > 0 {
        lemma_wasted_bits_below_depth(samples.drop_last(), depth);
        let last = samples.last() as int;
        if last == 0 {
            lemma_zero_run_of_zero(64);
        } else {
            lemma_zero_run_below_depth(last, depth, 64);
        }
    }
}

/// Samples that fit a depth of at most 33 bits lie in the range that the
/// predictors take, and so do they without their low bits.
pub proof fn lemma_legal_in_sample_range(samples: Seq<i64>, depth: nat, wasted: nat)
    requires
        1 <= depth <= MAX_SAMPLE_BITS,
        fits_depth(samples, depth),
    ensures
        in_sample_range(samples),
        in_sample_range(shifted(samples, wasted)),
{
    lemma2_to64();
    vstd::arithmetic::power2::lemma2_to64_rest();
    if depth < 33 {
        vstd::arithmetic::power2::lemma_pow2_strictly_increases((depth - 1) as nat, 32);
    }
    assert forall|i: int| 0 <= i < samples.len() implies -0x1_0000_0000 <= #[trigger] samples[i]
        < 0x1_0000_0000 by {
        assert(-pow2((depth - 1) as nat) <= samples[i] < pow2((depth - 1) as nat));
    }
    let e = shifted(samples, wasted);
    assert forall|i: int| 0 <= i < e.len() implies -0x1_0000_0000 <= #[trigger] e[i]
        < 0x1_0000_0000 by {
        assert(-0x1_0000_0000 <= samples[i] < 0x1_0000_0000);
        lemma_pow2_pos(wasted);
        lemma_div_keeps_bound(samples[i] as int, pow2(wasted) as int, 0x1_0000_0000);
        vstd::arithmetic::div_mod::lemma_fundamental_div_mod(samples[i] as int, pow2(wasted) as int);
    }
}

/// A number with `run` low zero bits is a multiple of `2^run`.
pub proof fn lemma_zero_run_divides(v: int, limit: nat, run: nat)
    requires
        run <= zero_run(v, limit),
    ensures
        v % (pow2(run) as int) == 0,
    decreases run,
{
    lemma2_to64();
    if run > 0 {
        lemma_zero_run_divides(v / 2, (limit - 1) as nat, (run - 1) as nat);
        lemma_pow2_unfold(run);
        lemma_pow2_pos((run - 1) as nat);
        let half = pow2((run - 1) as nat) as int;
        vstd::arithmetic::div_mod::lemma_fundamental_div_mod(v / 2, half);
        let q = (v / 2) / half;
        assert(v == (2 * half) * q) by (nonlinear_arith)
            requires
                v == 2 * (v / 2),
                v / 2 == half * q,
        ;
        vstd::arithmetic::div_mod::lemma_mod_multiples_basic(q, 2 * half);
        assert((2 * half) * q == q * (2 * half)) by (nonlinear_arith);
    }
}

/// No sample has fewer low zero bits than the block shares.
pub proof fn lemma_shared_zero_run_is_shared(samples: Seq<i64>, i: int)
    requires
        0 <= i < samples.len(),
    ensures
        shared_zero_run(samples) <= zero_run(samples[i] as int, 64),
    decreases samples.len(),
{
    if i < samples.len() - 1 {
        lemma_shared_zero_run_is_shared(samples.drop_last(), i);
    }
}

/// Dropping the wasted bits loses nothing: every sample is its shifted
/// self times two to the wasted bits.
pub proof fn lemma_wasted_bits_are_zero(samples: Seq<i64>, i: int)
    requires
        0 <= i < samples.len(),
    ensures
        samples[i] == (samples[i] as int / (pow2(wasted_bits(samples)) as int)) * pow2(
            wasted_bits(samples),
        ),
{
    let wasted = wasted_bits(samples);
    lemma_shared_zero_run_is_shared(samples, i);
    lemma_zero_run_divides(samples[i] as int, 64, wasted);
    lemma_pow2_pos(wasted);
    vstd::arithmetic::div_mod::lemma_fundamental_div_mod(samples[i] as int, pow2(wasted) as int);
    assert(pow2(wasted) * (samples[i] as int / (pow2(wasted) as int)) == (samples[i] as int / (
    pow2(wasted) as int)) * pow2(wasted)) by (nonlinear_arith);
}

/// The number of bits that the way chosen to store a block takes.
pub open spec fn chosen_len(
    samples: Seq<i64>,
    depth: nat,
    candidates: Seq<(Vec<i64>, u8, u8)>,
) -> nat {
    let best = choose|best: FlacSubframe|
        best.depth() == depth && best.is_best_choice(samples, candidates);
    best.bits(samples).len()
}

/// Samples without their wasted bits fit a depth less by as much.
pub proof fn lemma_shifted_fits(samples: Seq<i64>, depth: nat)
    requires
        depth >= 1,
        fits_depth(samples, depth),
    ensures
        wasted_bits(samples) < depth,
        fits_depth(shifted(samples, wasted_bits(samples)), (depth - wasted_bits(samples)) as nat),
{
    let wasted = wasted_bits(samples);
    let e = shifted(samples, wasted);
    let left = (depth - wasted) as nat;
    lemma_wasted_bits_below_depth(samples, depth);
    lemma_pow2_pos(wasted);
    vstd::arithmetic::power2::lemma_pow2_adds((left - 1) as nat, wasted);
    assert forall|i: int| 0 <= i < e.len() implies -pow2((left - 1) as nat) <= #[trigger] e[i]
        < pow2((left - 1) as nat) by {
        let s = samples[i] as int;
        let unit = pow2(wasted) as int;
        let bound = pow2((left - 1) as nat) as int;
        assert(-pow2((depth - 1) as nat) <= samples[i] < pow2((depth - 1) as nat));
        lemma_wasted_bits_are_zero(samples, i);
        let q = s / unit;
        assert(-bound <= q < bound) by (nonlinear_arith)
            requires
                s == q * unit,
                unit > 0,
                -(bound * unit) <= s < bound * unit,
        ;
    }
}

/// The ways to store one channel of a block.
pub enum FlacSubframeType {
    Unset,
    Constant { value: i64 },
    Fixed { order: u8 },
    Lpc { order: u8, precision: u8, shift: u8, qlp_coefs: Option<Vec<i64>> },
    Verbatim,
}

/// One channel of a block, and how to store it.
pub struct FlacSubframe {
    subframe_type: FlacSubframeType,
    bit_depth: u8,
}

impl FlacSubframe {
    /// How the subframe is to be stored.
    pub closed spec fn kind(&self) -> FlacSubframeType {
        self.subframe_type
    }

    /// The bit depth of the channel.
    pub closed spec fn depth(&self) -> u8 {
        self.bit_depth
    }

    /// Whether `samples` can be stored the way the subframe says. Where
    /// they cannot, they are stored verbatim.
    pub open spec fn encodes(&self, samples: Seq<i64>) -> bool {
        match self.kind() {
            FlacSubframeType::Unset => false,
            FlacSubframeType::Constant { value } => all_equal(samples, value),
            FlacSubframeType::Fixed { order } => order <= MAX_FIXED_ORDER && order < samples.len(),
            FlacSubframeType::Lpc { order, precision, shift, qlp_coefs } => {
                &&& qlp_coefs matches Some(coefs)
                &&& coefs@.len() == order
                &&& predictor_usable(coefs@, precision as nat, shift as nat, samples.len())
            },
            FlacSubframeType::Verbatim => true,
        }
    }

    /// The six bits of type in the header.
    pub open spec fn type_code(&self, samples: Seq<i64>) -> nat {
        if !self.encodes(samples) {
            1
        } else {
            match self.kind() {
                FlacSubframeType::Constant { value } => 0,
                FlacSubframeType::Fixed { order } => (8 + order) as nat,
                FlacSubframeType::Lpc { order, precision, shift, qlp_coefs } => (31 + order) as nat,
                _ => 1,
            }
        }
    }

    /// The bits of the subframe after its header. The samples are stored
    /// without their wasted bits, at a depth less by as much.
    pub open spec fn body(&self, samples: Seq<i64>) -> Seq<bool> {
        let e = shifted(samples, wasted_bits(samples));
        let depth = self.coding_depth(samples);
        if !self.encodes(samples) {
            raw_codes(e, depth)
        } else {
            match self.kind() {
                FlacSubframeType::Constant { value } => bits_of(e[0] as int, depth),
                FlacSubframeType::Fixed { order } => fixed_body(e, depth, order as nat),
                FlacSubframeType::Lpc { order, precision, shift, qlp_coefs } => lpc_body(
                    e,
                    depth,
                    qlp_coefs->0@,
                    precision as nat,
                    shift as nat,
                ),
                _ => raw_codes(e, depth),
            }
        }
    }

    /// The header of the subframe.
    pub open spec fn header(&self, samples: Seq<i64>) -> Seq<bool> {
        subframe_header(self.type_code(samples), wasted_bits(samples))
    }

    /// The bits of the subframe.
    pub open spec fn bits(&self, samples: Seq<i64>) -> Seq<bool> {
        self.header(samples) + self.body(samples)
    }

    /// A subframe that stores its samples as they are.
    pub fn new_verbatim(bit_depth: u8) -> (subframe: Self)
        ensures
            subframe.kind() is Verbatim,
            subframe.depth() == bit_depth,
    {
        FlacSubframe { subframe_type: FlacSubframeType::Verbatim, bit_depth }
    }

    /// A subframe that stores one value for the whole block.
    pub fn new_constant(bit_depth: u8, sample_value: i64) -> (subframe: Self)
        ensures
            subframe.kind() == (FlacSubframeType::Constant { value: sample_value }),
            subframe.depth() == bit_depth,
    {
        FlacSubframe { subframe_type: FlacSubframeType::Constant { value: sample_value }, bit_depth }
    }

    /// A subframe under the fixed predictor of the given order.
    pub fn new_fixed_by_order(bit_depth: u8, order: u8) -> (subframe: Self)
        ensures
            subframe.kind() == (FlacSubframeType::Fixed { order }),
            subframe.depth() == bit_depth,
    {
        FlacSubframe { subframe_type: FlacSubframeType::Fixed { order }, bit_depth }
    }

    /// A subframe under the linear predictor with the given coefficients,
    /// precision and shift.
    pub fn new_variable_by_order(
        bit_depth: u8,
        order: u8,
        qlp_coefs: Vec<i64>,
        precision: u8,
        shift: u8,
    ) -> (subframe: Self)
        ensures
            subframe.depth() == bit_depth,
            subframe.kind() matches FlacSubframeType::Lpc {
                order: stored_order,
                precision: stored_precision,
                shift: stored_shift,
                qlp_coefs: stored_coefs,
            } && stored_order == order && stored_precision == precision && stored_shift == shift
                && stored_coefs == Some(qlp_coefs),
    {
        FlacSubframe {
            subframe_type: FlacSubframeType::Lpc {
                order,
                precision,
                shift,
                qlp_coefs: Some(qlp_coefs),
            },
            bit_depth,
        }
    }

    /// The order of the subframe's predictor, 0 where it has none.
    pub open spec fn predictor_order(&self) -> nat {
        match self.kind() {
            FlacSubframeType::Fixed { order } => order as nat,
            FlacSubframeType::Lpc { order, precision, shift, qlp_coefs } => order as nat,
            _ => 0,
        }
    }

    /// Whether the subframe stores `samples` as warm-up and residuals.
    pub open spec fn has_residuals(&self, samples: Seq<i64>) -> bool {
        self.encodes(samples) && (self.kind() is Fixed || self.kind() is Lpc)
    }

    /// The residuals that the subframe's predictor leaves of `samples`
    /// without their wasted bits.
    pub open spec fn residuals(&self, samples: Seq<i64>) -> Seq<i64> {
        let e = shifted(samples, wasted_bits(samples));
        match self.kind() {
            FlacSubframeType::Fixed { order } => as_i64s(fixed_residuals(e, order as nat)),
            FlacSubframeType::Lpc { order, precision, shift, qlp_coefs } => as_i64s(
                lpc_residuals(e, qlp_coefs->0@, shift as nat),
            ),
            _ => Seq::empty(),
        }
    }

    /// The depth at which the samples are stored: the bit depth less the
    /// wasted bits.
    pub open spec fn coding_depth(&self, samples: Seq<i64>) -> nat {
        (self.depth() - wasted_bits(samples)) as nat
    }

    /// Whether `samples` can be stored the way the subframe says.
    pub fn can_encode(&self, samples: &Vec<i64>) -> (able: bool)
        ensures
            able == self.encodes(samples@),
    {
        match &self.subframe_type {
            FlacSubframeType::Unset => false,
            FlacSubframeType::Constant { value } => all_samples_equal(samples, *value),
            FlacSubframeType::Fixed { order } => *order <= MAX_FIXED_ORDER && (*order as usize)
                < samples.len(),
            FlacSubframeType::Lpc { order, precision, shift, qlp_coefs } => match qlp_coefs {
                Some(coefs) => coefs.len() == *order as usize && VarPredictor::predictor_is_usable(
                    coefs,
                    *precision,
                    *shift,
                    samples.len(),
                ),
                None => false,
            },
            FlacSubframeType::Verbatim => true,
        }
    }

    /// The six bits of type in the header.
    pub fn code_of(&self, samples: &Vec<i64>) -> (code: u8)
        ensures
            code == self.type_code(samples@),
            code < 64,
    {
        if !self.can_encode(samples) {
            return 1;
        }
        match &self.subframe_type {
            FlacSubframeType::Constant { value } => 0,
            FlacSubframeType::Fixed { order } => 8 + *order,
            FlacSubframeType::Lpc { order, precision, shift, qlp_coefs } => 31 + *order,
            _ => 1,
        }
    }

    /// Appends a subframe header to `writer`.
    fn write_header(writer: &mut BitstreamWriter, code: u8, wasted: u8)
        requires
            old(writer).wf(),
        ensures
            final(writer).wf(),
            final(writer)@ == old(writer)@ + subframe_header(code as nat, wasted as nat),
    {
        writer.write_bit(false);
        writer.write_bits(code as u64, 6);
        if wasted == 0 {
            writer.write_bit(false);
        } else {
            writer.write_bit(true);
            writer.write_unary((wasted - 1) as u64);
        }
        proof {
            assert(writer@ =~= old(writer)@ + subframe_header(code as nat, wasted as nat));
        }
    }

    /// The residuals that the subframe's predictor leaves of `effective`,
    /// the samples without their wasted bits.
    fn residuals_of(&self, samples: &Vec<i64>, effective: &Vec<i64>) -> (residuals: Vec<i64>)
        requires
            legal_block(samples@, self.depth() as nat),
            self.has_residuals(samples@),
            effective@ == shifted(samples@, wasted_bits(samples@)),
        ensures
            residuals@ == self.residuals(samples@),
            residuals@.len() == samples@.len() - self.predictor_order(),
    {
        proof {
            lemma_legal_in_sample_range(
                samples@,
                self.depth() as nat,
                wasted_bits(samples@),
            );
        }
        match &self.subframe_type {
            FlacSubframeType::Fixed { order } => {
                match FixedPredictor::get_residuals(effective, *order) {
                    Some(residuals) => {
                        proof {
                            assert(residuals@ =~= as_i64s(as_ints(residuals@)));
                        }
                        residuals
                    },
                    None => Vec::new(),
                }
            },
            FlacSubframeType::Lpc { order, precision, shift, qlp_coefs } => {
                match qlp_coefs {
                    Some(coefs) => {
                        proof {
                            lemma_coefs_fit_widest(coefs@, *precision as nat);
                            assert(coefs@.take(*order as int) =~= coefs@);
                        }
                        let residuals = VarPredictor::get_residuals(
                            effective,
                            coefs,
                            *order,
                            *shift,
                        );
                        proof {
                            assert(residuals@ =~= as_i64s(as_ints(residuals@)));
                        }
                        residuals
                    },
                    None => Vec::new(),
                }
            },
            _ => Vec::new(),
        }
    }

    /// The residuals of the subframe, cut at the best partition order and
    /// each partition encoded on its own, with the order; `None` where the
    /// subframe stores no residuals.
    pub fn get_encoded_residuals(&self, samples: &Vec<i64>) -> (encoded: Option<
        (Vec<RiceEncodedStream>, u8),
    >)
        requires
            legal_block(samples@, self.depth() as nat),
        ensures
            encoded is Some <==> self.has_residuals(samples@),
            encoded matches Some((streams, order)) ==> {
                &&& is_chosen_order(
                    self.residuals(samples@),
                    samples@.len(),
                    self.predictor_order(),
                    self.coding_depth(samples@),
                    order as nat,
                )
                &&& streams@.len() == chosen_count(
                    samples@.len(),
                    self.predictor_order(),
                    order as nat,
                )
                &&& forall|k: nat|
                    k < streams@.len() ==> is_partition_stream(
                        #[trigger] streams@[k as int],
                        partition(
                            self.residuals(samples@),
                            samples@.len(),
                            self.predictor_order(),
                            order as nat,
                            k,
                        ),
                        self.coding_depth(samples@),
                    )
            },
    {
        if !self.can_encode(samples) {
            return None;
        }
        let order: u8 = match &self.subframe_type {
            FlacSubframeType::Fixed { order } => *order,
            FlacSubframeType::Lpc { order, precision, shift, qlp_coefs } => *order,
            _ => {
                return None;
            },
        };
        let wasted = self.get_wasted_shift(samples) as u8;
        proof {
            lemma_wasted_bits_below_depth(samples@, self.depth() as nat);
        }
        let effective = shift_samples(samples, wasted);
        let residuals = self.residuals_of(samples, &effective);
        let coder = RiceEncoderOptions::for_depth(
            samples.len() as u64,
            order,
            self.bit_depth - wasted,
        );
        let encoded = coder.encode_by_partition(&residuals);
        Some(encoded)
    }

    /// Appends the subframe that stores `samples` to `writer`.
    #[verifier::rlimit(40)]
    pub fn write_to(&self, writer: &mut BitstreamWriter, samples: &Vec<i64>)
        requires
            old(writer).wf(),
            legal_block(samples@, self.depth() as nat),
        ensures
            final(writer).wf(),
            final(writer)@ == old(writer)@ + self.bits(samples@),
    {
        let wasted = self.get_wasted_shift(samples) as u8;
        proof {
            lemma_wasted_bits_below_depth(samples@, self.depth() as nat);
        }
        let effective = shift_samples(samples, wasted);
        let depth: u8 = self.bit_depth - wasted;
        let code = self.code_of(samples);
        Self::write_header(writer, code, wasted);
        if !self.can_encode(samples) {
            write_raw_codes(writer, depth, &effective);
            proof {
                assert(writer@ =~= old(writer)@ + self.bits(samples@));
            }
            return ;
        }
        match &self.subframe_type {
            FlacSubframeType::Constant { value } => {
                writer.write_signed(effective[0], depth);
                proof {
                    assert(writer@ =~= old(writer)@ + self.bits(samples@));
                }
            },
            FlacSubframeType::Fixed { order } => {
                let warmup = copy_range(&effective, 0, *order as usize);
                write_raw_codes(writer, depth, &warmup);
                let residuals = self.residuals_of(samples, &effective);
                let coder = RiceEncoderOptions::for_depth(samples.len() as u64, *order, depth);
                coder.write_residual_section(writer, &residuals);
                proof {
                    assert(effective@.subrange(0, *order as int) =~= effective@.take(*order as int));
                    assert(writer@ =~= old(writer)@ + self.bits(samples@));
                }
            },
            FlacSubframeType::Lpc { order, precision, shift, qlp_coefs } => {
                match qlp_coefs {
                    Some(coefs) => {
                        let warmup = copy_range(&effective, 0, *order as usize);
                        write_raw_codes(writer, depth, &warmup);
                        writer.write_bits((*precision - 1) as u64, 4);
                        writer.write_bits(*shift as u64, 5);
                        write_raw_codes(writer, *precision, coefs);
                        let residuals = self.residuals_of(samples, &effective);
                        let coder = RiceEncoderOptions::for_depth(
                            samples.len() as u64,
                            *order,
                            depth,
                        );
                        coder.write_residual_section(writer, &residuals);
                        proof {
                            assert(effective@.subrange(0, *order as int) =~= effective@.take(
                                *order as int,
                            ));
                            assert(writer@ =~= old(writer)@ + self.bits(samples@));
                        }
                    },
                    None => {},
                }
            },
            _ => {
                write_raw_codes(writer, depth, &effective);
                proof {
                    assert(writer@ =~= old(writer)@ + self.bits(samples@));
                }
            },
        }
    }

    /// The header of the subframe that stores `samples`, packed into bytes,
    /// and the number of filler bits in the last byte.
    pub fn build_header_bytes(&self, samples: &Vec<i64>) -> (built: (Vec<u8>, u8))
        ensures
            built.0@ == pack(self.header(samples@)),
            built.1 == pad_len(self.header(samples@).len()),
    {
        let mut writer = BitstreamWriter::new();
        let wasted = self.get_wasted_shift(samples) as u8;
        let code = self.code_of(samples);
        Self::write_header(&mut writer, code, wasted);
        proof {
            assert(writer@ =~= self.header(samples@));
        }
        (writer.bytes(), writer.unused_bits())
    }

    /// The subframe that stores `samples`, packed into bytes, and the number
    /// of filler bits in the last byte.
    pub fn build_bytes(&self, samples: &Vec<i64>) -> (built: (Vec<u8>, u8))
        requires
            legal_block(samples@, self.depth() as nat),
        ensures
            built.0@ == pack(self.bits(samples@)),
            built.1 == pad_len(self.bits(samples@).len()),
    {
        let mut writer = BitstreamWriter::new();
        self.write_to(&mut writer, samples);
        proof {
            assert(writer@ =~= self.bits(samples@));
        }
        (writer.bytes(), writer.unused_bits())
    }

    /// A subframe under the fixed predictor of the best order for
    /// `samples`; `None` where the best order leaves no residuals, the
    /// block being no longer than the order.
    pub fn new_fixed(bit_depth: u8, samples: &Vec<i64>) -> (subframe: Option<Self>)
        requires
            legal_block(samples@, bit_depth as nat),
        ensures
            subframe matches Some(fixed) ==> {
                &&& fixed.depth() == bit_depth
                &&& fixed.kind() matches FlacSubframeType::Fixed { order }
                &&& is_best_fixed_order(shifted(samples@, wasted_bits(samples@)), order as nat)
                &&& order < samples@.len()
            },
            subframe is None ==> is_best_fixed_order(
                shifted(samples@, wasted_bits(samples@)),
                samples@.len(),
            ),
    {
        let wasted = count_wasted_bits(samples);
        proof {
            lemma_legal_in_sample_range(samples@, bit_depth as nat, wasted as nat);
        }
        let effective = shift_samples(samples, wasted);
        match FixedPredictor::best_predictor_order(&effective) {
            Some(order) => {
                if (order as usize) < samples.len() {
                    Some(Self::new_fixed_by_order(bit_depth, order))
                } else {
                    None
                }
            },
            None => None,
        }
    }

    /// A subframe under the best usable predictor among `candidates`, each
    /// of them coefficients, precision and shift; `None` where none is
    /// usable.
    pub fn new_variable(
        bit_depth: u8,
        samples: &Vec<i64>,
        candidates: &Vec<(Vec<i64>, u8, u8)>,
    ) -> (subframe: Option<Self>)
        requires
            legal_block(samples@, bit_depth as nat),
        ensures
            subframe matches Some(linear) ==> linear.depth() == bit_depth && exists|k: int|
                linear.holds_candidate(samples@, candidates@, k),
            subframe is None ==> forall|j: int|
                0 <= j < candidates@.len() ==> !lpc_usable(#[trigger] candidates@[j], samples@.len()),
    {
        let wasted = count_wasted_bits(samples);
        proof {
            lemma_legal_in_sample_range(samples@, bit_depth as nat, wasted as nat);
        }
        let effective = shift_samples(samples, wasted);
        match VarPredictor::best_lpc_index(&effective, candidates) {
            Some(k) => {
                let candidate = &candidates[k];
                let coefs = copy_range(&candidate.0, 0, candidate.0.len());
                proof {
                    assert(coefs@ =~= candidates@[k as int].0@);
                }
                let linear = Self::new_variable_by_order(
                    bit_depth,
                    coefs.len() as u8,
                    coefs,
                    candidate.1,
                    candidate.2,
                );
                proof {
                    assert(linear.holds_candidate(samples@, candidates@, k as int));
                }
                Some(linear)
            },
            None => None,
        }
    }

    /// Whether the subframe is under candidate `k`, and candidate `k` is the
    /// best predictor for `samples` without their wasted bits.
    pub open spec fn holds_candidate(
        &self,
        samples: Seq<i64>,
        candidates: Seq<(Vec<i64>, u8, u8)>,
        k: int,
    ) -> bool {
        &&& is_best_lpc(shifted(samples, wasted_bits(samples)), candidates, k)
        &&& self.kind() matches FlacSubframeType::Lpc { order, precision, shift, qlp_coefs }
        &&& qlp_coefs matches Some(coefs)
        &&& coefs@ == candidates[k].0@
        &&& order == coefs@.len()
        &&& precision == candidates[k].1
        &&& shift == candidates[k].2
    }

    /// The place of the subframe's kind among the ways to store a block:
    /// constant, fixed, linear, verbatim.
    pub open spec fn rank(&self) -> nat {
        match self.kind() {
            FlacSubframeType::Constant { value } => 0,
            FlacSubframeType::Fixed { order } => 1,
            FlacSubframeType::Lpc { order, precision, shift, qlp_coefs } => 2,
            _ => 3,
        }
    }

    /// Whether the subframe is one of the ways that are weighed to store
    /// `samples`. A block whose samples are all the same, silence among
    /// them, has one way only: the constant. For any other block the ways
    /// are the fixed predictor of the best order, the best usable predictor
    /// among `candidates`, and verbatim.
    pub open spec fn is_option(&self, samples: Seq<i64>, candidates: Seq<(Vec<i64>, u8, u8)>) -> bool {
        &&& self.encodes(samples)
        &&& if is_flat(samples) {
            self.kind() is Constant
        } else {
            match self.kind() {
                FlacSubframeType::Unset => false,
                FlacSubframeType::Constant { value } => false,
                FlacSubframeType::Fixed { order } => is_best_fixed_order(
                    shifted(samples, wasted_bits(samples)),
                    order as nat,
                ),
                FlacSubframeType::Lpc { order, precision, shift, qlp_coefs } => exists|k: int|
                    self.holds_candidate(samples, candidates, k),
                FlacSubframeType::Verbatim => true,
            }
        }
    }

    /// Whether the subframe comes before `other`: by fewer bits, then by
    /// the earlier kind.
    pub open spec fn precedes(&self, other: FlacSubframe, samples: Seq<i64>) -> bool {
        let mine = self.bits(samples).len();
        let theirs = other.bits(samples).len();
        mine < theirs || (mine == theirs && self.rank() <= other.rank())
    }

    /// Whether the subframe is the way to store `samples`: one of the ways
    /// that are weighed, and before every other of them.
    pub open spec fn is_best_choice(
        &self,
        samples: Seq<i64>,
        candidates: Seq<(Vec<i64>, u8, u8)>,
    ) -> bool {
        &&& self.is_option(samples, candidates)
        &&& forall|other: FlacSubframe|
            other.depth() == self.depth() && #[trigger] other.is_option(samples, candidates)
                ==> self.precedes(other, samples)
    }

    /// Two subframes of one kind, one depth and, where they are linear, the
    /// same predictor store a block in the same bits.
    pub proof fn lemma_same_plan_same_bits(&self, other: FlacSubframe, samples: Seq<i64>)
        requires
            self.depth() == other.depth(),
            match (self.kind(), other.kind()) {
                (FlacSubframeType::Unset, FlacSubframeType::Unset) => true,
                (FlacSubframeType::Verbatim, FlacSubframeType::Verbatim) => true,
                (
                    FlacSubframeType::Constant { value: a },
                    FlacSubframeType::Constant { value: b },
                ) => a == b,
                (FlacSubframeType::Fixed { order: a }, FlacSubframeType::Fixed { order: b }) => a
                    == b,
                (
                    FlacSubframeType::Lpc {
                        order: order1,
                        precision: precision1,
                        shift: shift1,
                        qlp_coefs: coefs1,
                    },
                    FlacSubframeType::Lpc {
                        order: order2,
                        precision: precision2,
                        shift: shift2,
                        qlp_coefs: coefs2,
                    },
                ) => order1 == order2 && precision1 == precision2 && shift1 == shift2 && coefs1
                    is Some && coefs2 is Some && coefs1->0@ == coefs2->0@,
                _ => false,
            },
        ensures
            self.encodes(samples) == other.encodes(samples),
            self.bits(samples) == other.bits(samples),
            self.rank() == other.rank(),
    {
    }

    /// The way to store `samples`. A block whose samples are all the same
    /// is stored as a constant, whatever the bits that other ways would
    /// take. Of any other block the fixed predictor of the best order, the
    /// best usable predictor among `candidates` and verbatim are weighed,
    /// and the one that takes the fewest bits is chosen; of several such
    /// the first in that order.
    #[verifier::rlimit(40)]
    pub fn new_best(bit_depth: u8, samples: &Vec<i64>, candidates: &Vec<(Vec<i64>, u8, u8)>) -> (best:
        Self)
        requires
            legal_block(samples@, bit_depth as nat),
        ensures
            best.depth() == bit_depth,
            best.is_best_choice(samples@, candidates@),
            is_flat(samples@) <==> best.kind() is Constant,
            is_flat(samples@) ==> best.type_code(samples@) == 0,
    {
        let ghost e = shifted(samples@, wasted_bits(samples@));
        let constant = Self::new_constant(bit_depth, samples[0]);
        if constant.can_encode(samples) {
            proof {
                assert forall|other: FlacSubframe|
                    other.depth() == constant.depth() && #[trigger] other.is_option(
                        samples@,
                        candidates@,
                    ) implies constant.precedes(other, samples@) by {
                    match other.kind() {
                        FlacSubframeType::Constant { value } => {
                            assert(samples@[0] == value);
                            constant.lemma_same_plan_same_bits(other, samples@);
                        },
                        _ => {},
                    }
                }
            }
            return constant;
        }
        let verbatim = Self::new_verbatim(bit_depth);
        let ghost verbatim_copy = verbatim;
        let mut best_len = verbatim.bit_len(samples);
        let mut best = verbatim;
        let linear = Self::new_variable(bit_depth, samples, candidates);
        let ghost linear_copy = linear;
        match linear {
            Some(linear) => {
                proof {
                    let k = choose|k: int| linear.holds_candidate(samples@, candidates@, k);
                    assert(linear.holds_candidate(samples@, candidates@, k));
                    assert(linear.is_option(samples@, candidates@));
                }
                let len = linear.bit_len(samples);
                if len <= best_len {
                    best = linear;
                    best_len = len;
                }
            },
            None => {},
        }
        let fixed = Self::new_fixed(bit_depth, samples);
        let ghost fixed_copy = fixed;
        match fixed {
            Some(fixed) => {
                let len = fixed.bit_len(samples);
                if len <= best_len {
                    best = fixed;
                    best_len = len;
                }
            },
            None => {},
        }
        proof {
            assert(best.is_option(samples@, candidates@));
            assert forall|other: FlacSubframe|
                other.depth() == best.depth() && #[trigger] other.is_option(
                    samples@,
                    candidates@,
                ) implies best.precedes(other, samples@) by {
                match other.kind() {
                    FlacSubframeType::Unset => {},
                    FlacSubframeType::Verbatim => {
                        verbatim_copy.lemma_same_plan_same_bits(other, samples@);
                    },
                    FlacSubframeType::Constant { value } => {},
                    FlacSubframeType::Fixed { order } => {
                        match fixed_copy {
                            Some(ours) => {
                                lemma_best_fixed_order_unique(
                                    e,
                                    order as nat,
                                    ours.predictor_order(),
                                );
                                ours.lemma_same_plan_same_bits(other, samples@);
                            },
                            None => {
                                lemma_best_fixed_order_unique(e, order as nat, samples@.len());
                            },
                        }
                    },
                    FlacSubframeType::Lpc { order, precision, shift, qlp_coefs } => {
                        let theirs = choose|k: int|
                            other.holds_candidate(samples@, candidates@, k);
                        assert(other.holds_candidate(samples@, candidates@, theirs));
                        match linear_copy {
                            Some(ours) => {
                                let k = choose|k: int|
                                    ours.holds_candidate(samples@, candidates@, k);
                                assert(ours.holds_candidate(samples@, candidates@, k));
                                lemma_best_lpc_unique(e, candidates@, k, theirs);
                                ours.lemma_same_plan_same_bits(other, samples@);
                            },
                            None => {
                                assert(lpc_usable(candidates@[theirs], samples@.len()));
                            },
                        }
                    },
                }
            }
        }
        best
    }

    /// Every coefficient of a subframe that is stored under a linear
    /// predictor, its type from 32 on, fits the precision that the subframe
    /// states.
    pub proof fn lemma_stored_coefficients_fit(&self, samples: Seq<i64>)
        requires
            self.type_code(samples) >= 32,
        ensures
            self.kind() matches FlacSubframeType::Lpc { order, precision, shift, qlp_coefs }
                && forall|j: int|
                0 <= j < qlp_coefs->0@.len() ==> -pow2((precision - 1) as nat)
                    <= #[trigger] qlp_coefs->0@[j] < pow2((precision - 1) as nat),
    {
    }

    /// Every choice of the way to store a block takes the same number of
    /// bits.
    pub proof fn lemma_best_choice_len(
        &self,
        samples: Seq<i64>,
        candidates: Seq<(Vec<i64>, u8, u8)>,
    )
        requires
            self.is_best_choice(samples, candidates),
        ensures
            self.bits(samples).len() == chosen_len(samples, self.depth() as nat, candidates),
    {
        let depth = self.depth() as nat;
        let other = choose|other: FlacSubframe|
            other.depth() == depth && other.is_best_choice(samples, candidates);
        assert(self.depth() == depth && self.is_best_choice(samples, candidates));
        assert(self.precedes(other, samples));
        assert(other.precedes(*self, samples));
    }

    /// The number of bits of the subframe that stores `samples`.
    pub fn bit_len(&self, samples: &Vec<i64>) -> (len: u128)
        requires
            legal_block(samples@, self.depth() as nat),
        ensures
            len == self.bits(samples@).len(),
    {
        let built = self.build_bytes(samples);
        proof {
            crate::flac::bitstream::lemma_pack_len(self.bits(samples@));
        }
        (built.0.len() as u128) * 8 - built.1 as u128
    }

    /// The wasted bits of a block: the zero bits that every sample has at
    /// its low end, or 0 where the block is silent.
    pub fn get_wasted_shift(&self, samples: &Vec<i64>) -> (wasted: u64)
        ensures
            wasted == wasted_bits(samples@),
            wasted < 64,
    {
        count_wasted_bits(samples) as u64
    }
}

/// The number of zero bits at the low end of `value`, counting at most 64.
fn low_zero_bits(value: i64) -> (run: u8)
    ensures
        run == zero_run(value as int, 64),
        run <= 64,
{
    let mut run: u8 = 0;
    let mut rest: i64 = value;
    while run < 64 && (rest & 1) == 0
        invariant
            run <= 64,
            run + zero_run(rest as int, (64 - run) as nat) == zero_run(value as int, 64),
        decreases 64 - run,
    {
        proof {
            lemma_i64_low_bit(rest);
        }
        rest = rest >> 1;
        run = run + 1;
    }
    proof {
        lemma_i64_low_bit(rest);
    }
    run
}

/// The wasted bits of a block: the zero bits that every sample has at its
/// low end, or 0 where the block is silent.
pub fn count_wasted_bits(samples: &Vec<i64>) -> (wasted: u8)
    ensures
        wasted == wasted_bits(samples@),
        wasted < 64,
{
    let mut run: u8 = 64;
    let mut i: usize = 0;
    while i < samples.len()
        invariant
            i <= samples@.len(),
            run <= 64,
            run == shared_zero_run(samples@.take(i as int)),
        decreases samples@.len() - i,
    {
        proof {
            assert(samples@.take(i + 1).drop_last() =~= samples@.take(i as int));
        }
        let low = low_zero_bits(samples[i]);
        if low < run {
            run = low;
        }
        i = i + 1;
    }
    proof {
        assert(samples@.take(i as int) =~= samples@);
    }
    if run >= 64 {
        0
    } else {
        run
    }
}

/// The samples without their `wasted` lowest bits.
pub fn shift_samples(samples: &Vec<i64>, wasted: u8) -> (out: Vec<i64>)
    requires
        wasted < 64,
    ensures
        out@ == shifted(samples@, wasted as nat),
{
    let mut out: Vec<i64> = Vec::new();
    let mut i: usize = 0;
    while i < samples.len()
        invariant
            i <= samples@.len(),
            wasted < 64,
            out@.len() == i,
            forall|k: int| 0 <= k < i ==> #[trigger] out@[k] == shifted(samples@, wasted as nat)[k],
        decreases samples@.len() - i,
    {
        proof {
            lemma_i64_shr_is_div(samples@[i as int], wasted);
        }
        out.push(samples[i] >> wasted);
        i = i + 1;
    }
    proof {
        assert(out@ =~= shifted(samples@, wasted as nat));
    }
    out
}

/// Whether every one of `samples` is `value`.
pub fn all_samples_equal(samples: &Vec<i64>, value: i64) -> (equal: bool)
    ensures
        equal == all_equal(samples@, value),
{
    let mut i: usize = 0;
    while i < samples.len()
        invariant
            i <= samples@.len(),
            forall|k: int| 0 <= k < i ==> #[trigger] samples@[k] == value,
        decreases samples@.len() - i,
    {
        if samples[i] != value {
            return false;
        }
        i = i + 1;
    }
    true
}

} // verus!
