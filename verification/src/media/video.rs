//! Video: which frames to sample, and how the payloads read from several
//! frames are reconciled by a weighted vote.
use vstd::prelude::*;
use vstd::string::StringExecFns;
use vstd::string::StringSliceAdditionalSpecFns;
use vstd::utf8::{decode_utf8, encode_utf8, valid_utf8};
use crate::error::WatermarkError;
use crate::layout::lemma_tile_position;
use crate::watermark::utils::{bit_of, lossy_text, pack, unpack, utf8_to_string_lossy, WatermarkUtils};

verus! {

/// Frames skipped at the start of a video before sampling begins.
pub const SKIP_FRAMES: usize = 5;

/// Number of frames sampled unless the caller asks otherwise.
pub const DEFAULT_SAMPLE_FRAMES: usize = 7;

/// Confidence, in parts per million, below which a result is reported as
/// doubtful unless the caller asks otherwise.
pub const DEFAULT_CONFIDENCE_PPM: u32 = 600_000;

/// The scale of a confidence: one million stands for full agreement.
pub const FULL_CONFIDENCE_PPM: u32 = 1_000_000;

/// One observation: the bits read from a frame, and the weight of the frame.
pub type Sample = (Vec<u8>, u32);

/// Total weight of the samples that vote for 1 (`one`) or for 0 at
/// `position`. A sample votes at the positions it has a bit for; a bit other
/// than 0 counts as 1.
pub open spec fn weight_of(samples: Seq<Sample>, position: int, one: bool) -> nat
    decreases samples.len(),
{
    if samples.len() == 0 {
        0
    } else {
        let last = samples.last();
        let rest = weight_of(samples.drop_last(), position, one);
        if position < last.0@.len() && (last.0@[position] != 0) == one {
            rest + last.1 as nat
        } else {
            rest
        }
    }
}

/// The bit that wins with the given weights: 1 needs the larger weight, a
/// tie goes to 0.
pub open spec fn winner(zero: nat, one: nat) -> u8 {
    if one > zero {
        1
    } else {
        0
    }
}

/// Share of the winning side in the total weight, in parts per million,
/// rounded down; 0 where no weight was cast.
pub open spec fn share_ppm(zero: nat, one: nat) -> nat {
    if zero + one == 0 {
        0
    } else if one > zero {
        one * 1_000_000 / (zero + one)
    } else {
        zero * 1_000_000 / (zero + one)
    }
}

/// Sum of the shares of the first `positions` positions.
pub open spec fn share_sum(samples: Seq<Sample>, positions: nat) -> nat
    decreases positions,
{
    if positions == 0 {
        0
    } else {
        share_sum(samples, (positions - 1) as nat) + share_ppm(
            weight_of(samples, positions - 1, false),
            weight_of(samples, positions - 1, true),
        )
    }
}

/// Mean share over all positions, in parts per million, rounded down.
pub open spec fn confidence_ppm(samples: Seq<Sample>, positions: nat) -> nat {
    if positions == 0 {
        0
    } else {
        share_sum(samples, positions) / positions
    }
}

/// The share of the winning side is at least half and at most all.
pub proof fn lemma_share_bounds(zero: nat, one: nat)
    ensures
        share_ppm(zero, one) <= 1_000_000,
        zero + one > 0 ==> share_ppm(zero, one) >= 500_000,
{
    if zero + one > 0 {
        let total = zero + one;
        let win = if one > zero {
            one
        } else {
            zero
        };
        assert(win * 1_000_000 / total <= 1_000_000 && win * 1_000_000 / total >= 500_000)
            by (nonlinear_arith)
            requires
                win <= total,
                2 * win >= total,
                total > 0,
        ;
    }
}

/// The sum of the shares is at most one million per position.
pub proof fn lemma_share_sum_bound(samples: Seq<Sample>, positions: nat)
    ensures
        share_sum(samples, positions) <= positions * 1_000_000,
        confidence_ppm(samples, positions) <= 1_000_000,
    decreases positions,
{
    if positions > 0 {
        lemma_share_sum_bound(samples, (positions - 1) as nat);
        lemma_share_bounds(
            weight_of(samples, positions - 1, false),
            weight_of(samples, positions - 1, true),
        );
        let s = share_sum(samples, positions);
        assert(s / positions <= 1_000_000) by (nonlinear_arith)
            requires
                s <= positions * 1_000_000,
                positions > 0,
        ;
    }
}

/// The weight cast at a position is bounded by the number of samples.
pub proof fn lemma_weight_bound(samples: Seq<Sample>, position: int, one: bool)
    ensures
        weight_of(samples, position, one) <= samples.len() * 0xffff_ffff,
    decreases samples.len(),
{
    if samples.len() > 0 {
        lemma_weight_bound(samples.drop_last(), position, one);
    }
}

/// Length of the longest sample.
pub open spec fn longest(samples: Seq<Sample>) -> nat
    decreases samples.len(),
{
    if samples.len() == 0 {
        0
    } else {
        let rest = longest(samples.drop_last());
        if samples.last().0@.len() > rest {
            samples.last().0@.len()
        } else {
            rest
        }
    }
}

/// Number of positions, out of the first `limit`, at which at least one
/// sample votes.
pub open spec fn voted_positions(samples: Seq<Sample>, limit: nat) -> nat {
    if longest(samples) < limit {
        longest(samples)
    } else {
        limit
    }
}

/// The winning bit of each of the first `len` positions.
pub open spec fn voted_bits(samples: Seq<Sample>, len: nat) -> Seq<u8> {
    Seq::new(
        len,
        |p: int| winner(weight_of(samples, p, false), weight_of(samples, p, true)),
    )
}

/// No weight is cast at a position that no sample reaches.
pub proof fn lemma_silent_position(samples: Seq<Sample>, position: int, one: bool)
    requires
        position >= longest(samples),
    ensures
        weight_of(samples, position, one) == 0,
    decreases samples.len(),
{
    if samples.len() > 0 {
        lemma_silent_position(samples.drop_last(), position, one);
    }
}

/// Result of a vote.
pub struct VoteOutcome {
    /// The winning bit of every position.
    pub bits: Vec<u8>,
    /// The weight cast for 0 at every position.
    pub zero_weights: Vec<u128>,
    /// The weight cast for 1 at every position.
    pub one_weights: Vec<u128>,
    /// Mean share of the winning side, in parts per million.
    pub confidence_ppm: u32,
}

/// Weight cast for 0 and for 1 at `position`.
fn tally(samples: &Vec<Sample>, position: usize) -> (w: (u128, u128))
    ensures
        w.0 == weight_of(samples@, position as int, false),
        w.1 == weight_of(samples@, position as int, true),
{
    let mut zero: u128 = 0;
    let mut one: u128 = 0;
    let mut i: usize = 0;
    while i < samples.len()
        invariant
            i <= samples@.len(),
            zero == weight_of(samples@.take(i as int), position as int, false),
            one == weight_of(samples@.take(i as int), position as int, true),
            zero <= i * 0xffff_ffff,
            one <= i * 0xffff_ffff,
        decreases samples@.len() - i,
    {
        proof {
            assert(samples@.take(i + 1).drop_last() =~= samples@.take(i as int));
            assert(samples@.take(i + 1).last() == samples@[i as int]);
        }
        let sample = &samples[i];
        if position < sample.0.len() {
            if sample.0[position] != 0 {
                one = one + sample.1 as u128;
            } else {
                zero = zero + sample.1 as u128;
            }
        }
        i += 1;
    }
    assert(samples@.take(samples@.len() as int) =~= samples@);
    (zero, one)
}

/// Reconciles the samples bit by bit. At every position the weights of the
/// samples are summed on either side; the side with the larger sum wins, a
/// tie going to 0. The confidence is the mean, over all positions, of the
/// winning side's share of the weight cast there.
pub fn vote(samples: &Vec<Sample>, positions: usize) -> (out: VoteOutcome)
    ensures
        out.bits@.len() == positions,
        out.zero_weights@.len() == positions,
        out.one_weights@.len() == positions,
        forall|p: int|
            0 <= p < positions ==> {
                &&& #[trigger] out.zero_weights@[p] == weight_of(samples@, p, false)
                &&& out.one_weights@[p] == weight_of(samples@, p, true)
            },
        forall|p: int|
            0 <= p < positions ==> #[trigger] out.bits@[p] == winner(
                weight_of(samples@, p, false),
                weight_of(samples@, p, true),
            ),
        out.confidence_ppm == confidence_ppm(samples@, positions as nat),
        out.confidence_ppm <= FULL_CONFIDENCE_PPM,
{
    let mut bits: Vec<u8> = Vec::new();
    let mut zero_weights: Vec<u128> = Vec::new();
    let mut one_weights: Vec<u128> = Vec::new();
    let mut sum: u128 = 0;
    let mut p: usize = 0;
    while p < positions
        invariant
            p <= positions,
            bits@.len() == p,
            zero_weights@.len() == p,
            one_weights@.len() == p,
            forall|q: int|
                0 <= q < p ==> {
                    &&& #[trigger] zero_weights@[q] == weight_of(samples@, q, false)
                    &&& one_weights@[q] == weight_of(samples@, q, true)
                },
            forall|q: int|
                0 <= q < p ==> #[trigger] bits@[q] == winner(
                    weight_of(samples@, q, false),
                    weight_of(samples@, q, true),
                ),
            sum == share_sum(samples@, p as nat),
            sum <= p * 1_000_000,
        decreases positions - p,
    {
        let (zero, one) = tally(samples, p);
        let count = samples.len();
        proof {
            lemma_weight_bound(samples@, p as int, false);
            lemma_weight_bound(samples@, p as int, true);
            lemma_share_bounds(zero as nat, one as nat);
            assert(samples@.len() * 0xffff_ffff <= 0xffff_ffff_ffff_ffff * 0xffff_ffff)
                by (nonlinear_arith)
                requires
                    samples@.len() == count,
                    count <= 0xffff_ffff_ffff_ffff,
            ;
        }
        let total = zero + one;
        let share: u128 = if total == 0 {
            0
        } else if one > zero {
            one * 1_000_000 / total
        } else {
            zero * 1_000_000 / total
        };
        bits.push(if one > zero { 1 } else { 0 });
        zero_weights.push(zero);
        one_weights.push(one);
        sum = sum + share;
        p += 1;
    }
    proof {
        lemma_share_sum_bound(samples@, positions as nat);
    }
    let confidence: u128 = if positions == 0 {
        0
    } else {
        sum / positions as u128
    };
    VoteOutcome { bits, zero_weights, one_weights, confidence_ppm: confidence as u32 }
}

/// The `i`-th of `sample_count` frame numbers spread evenly from
/// `skip` to `max`, kept below `max`.
pub open spec fn frame_index(i: int, sample_count: int, skip: int, max: int) -> int
    recommends
        sample_count >= 2,
        skip < max,
        0 <= i < sample_count,
{
    let raw = skip + (i * (max - skip)) / (sample_count - 1);
    if raw < max - 1 {
        raw
    } else {
        max - 1
    }
}

/// The frame numbers to sample: none for no samples; the first frame after
/// the skipped ones when no frame is left; the middle of the range for a
/// single sample; else `sample_count` numbers spread evenly over the range.
pub open spec fn sample_indices(sample_count: int, skip: int, max: int) -> Seq<int> {
    if sample_count <= 0 {
        Seq::empty()
    } else if max <= skip {
        seq![skip]
    } else if sample_count == 1 {
        seq![skip + (max - skip) / 2]
    } else {
        Seq::new(sample_count as nat, |i: int| frame_index(i, sample_count, skip, max))
    }
}

/// The evenly spread frame numbers as machine numbers.
pub open spec fn spread(sample_count: usize, skip: usize, max: usize) -> Seq<usize> {
    Seq::new(
        sample_indices(sample_count as int, skip as int, max as int).len(),
        |i: int| sample_indices(sample_count as int, skip as int, max as int)[i] as usize,
    )
}

/// Evenly spread frame numbers stay inside the range and never go back.
pub proof fn lemma_frame_index_bounds(i: int, j: int, sample_count: int, skip: int, max: int)
    requires
        sample_count >= 2,
        0 <= skip < max,
        0 <= i <= j < sample_count,
    ensures
        skip <= frame_index(i, sample_count, skip, max) <= max - 1,
        frame_index(i, sample_count, skip, max) <= frame_index(j, sample_count, skip, max),
        (i * (max - skip)) / (sample_count - 1) <= max - skip,
{
    let a = max - skip;
    let d = sample_count - 1;
    assert(0 <= (i * a) / d <= (j * a) / d && (j * a) / d <= a) by (nonlinear_arith)
        requires
            0 <= i <= j,
            j <= d,
            d > 0,
            a > 0,
    ;
}

/// With at least as many frames in the range as samples wanted, successive
/// frame numbers differ: the samples go strictly up.
pub proof fn lemma_frame_index_strict(i: int, sample_count: int, skip: int, max: int)
    requires
        sample_count >= 2,
        0 <= skip,
        max - skip >= sample_count,
        0 <= i < sample_count - 1,
    ensures
        frame_index(i, sample_count, skip, max) < frame_index(i + 1, sample_count, skip, max),
{
    let a = max - skip;
    let d = sample_count - 1;
    let lo = (i * a) / d;
    let hi = ((i + 1) * a) / d;
    assert(hi >= lo + 1 && hi <= a && lo >= 0) by (nonlinear_arith)
        requires
            lo == (i * a) / d,
            hi == ((i + 1) * a) / d,
            0 <= i,
            i + 1 <= d,
            a >= d,
            d > 0,
    ;
    if skip + hi >= max - 1 {
        assert(lo <= a - 2) by (nonlinear_arith)
            requires
                lo == (i * a) / d,
                0 <= i,
                i + 1 <= d,
                a >= d + 1,
                d > 0,
        ;
    }
}

/// The first of the evenly spread frame numbers is the first frame of the
/// range, the last of them its last frame.
pub proof fn lemma_frame_index_ends(sample_count: int, skip: int, max: int)
    requires
        sample_count >= 2,
        0 <= skip < max,
    ensures
        frame_index(0, sample_count, skip, max) == skip,
        frame_index(sample_count - 1, sample_count, skip, max) == max - 1,
{
    let a = max - skip;
    let d = sample_count - 1;
    assert((0 * a) / d == 0 && (d * a) / d == a) by (nonlinear_arith)
        requires
            d > 0,
            a > 0,
    ;
}

/// With as many frames in the range as samples wanted, the samples are the
/// frames of the range, one after the other.
pub proof fn lemma_frame_index_dense(i: int, sample_count: int, skip: int)
    requires
        sample_count >= 2,
        0 <= skip,
        0 <= i < sample_count,
    ensures
        frame_index(i, sample_count, skip, skip + sample_count) == skip + i,
{
    let d = sample_count - 1;
    assert(i * sample_count == i * d + i) by (nonlinear_arith)
        requires
            d == sample_count - 1,
    ;
    if i < d {
        lemma_tile_position(i, i, d);
    } else {
        assert((i * d + i) / d == i + 1) by {
            assert(i * d + i == (i + 1) * d + 0) by (nonlinear_arith)
                requires
                    i == d,
            ;
            lemma_tile_position(i + 1, 0, d);
        }
    }
}

/// The text bytes cut or zero-filled to exactly `len` bytes.
pub open spec fn fit(bytes: Seq<u8>, len: nat) -> Seq<u8> {
    Seq::new(
        len,
        |i: int|
            if i < bytes.len() {
                bytes[i]
            } else {
                0u8
            },
    )
}

/// Index of the first zero byte at or after `from`, or the length when
/// there is none.
pub open spec fn nul_index(bytes: Seq<u8>, from: int) -> int
    decreases bytes.len() - from,
{
    if from < 0 || from >= bytes.len() {
        bytes.len() as int
    } else if bytes[from] == 0 {
        from
    } else {
        nul_index(bytes, from + 1)
    }
}

/// The bytes that spell the text of a voted payload: the packed bits, at
/// most `len` bytes of them, up to the first zero byte.
pub open spec fn voted_bytes(bits: Seq<u8>, len: nat) -> Seq<u8> {
    let packed = pack(bits);
    let clipped = if packed.len() > len {
        packed.take(len as int)
    } else {
        packed
    };
    clipped.take(nul_index(clipped, 0))
}

/// What became of one sampled frame.
pub enum FrameOutcome {
    /// The frame could not be decoded, or its quality not assessed.
    Dropped,
    /// No payload could be read from the frame.
    Unread,
    /// A payload was read: its text, and the quality of the frame.
    Read { text: String, quality: u32 },
}

/// Collects the samples of the frames as they come in.
pub struct FrameTally {
    /// Length in bytes of the expected text.
    pub expected_length: usize,
    /// The samples gathered so far.
    pub samples: Vec<Sample>,
}

/// Frame sampling and voting for video.
pub struct VideoWatermarker;

impl VideoWatermarker {
    /// The frame numbers to sample between `skip_frames` and `max_frames`:
    /// the evenly spread numbers in ascending order, each of them once.
    pub fn generate_sample_frame_indices(
        sample_count: usize,
        skip_frames: usize,
        max_frames: usize,
    ) -> (indices: Vec<usize>)
        ensures
            forall|i: int, j: int|
                0 <= i < j < indices@.len() ==> #[trigger] indices@[i] < #[trigger] indices@[j],
            forall|i: int|
                0 <= i < indices@.len() ==> spread(sample_count, skip_frames, max_frames).contains(
                    #[trigger] indices@[i],
                ),
            forall|k: int|
                0 <= k < spread(sample_count, skip_frames, max_frames).len() ==> indices@.contains(
                    #[trigger] spread(sample_count, skip_frames, max_frames)[k],
                ),
            sample_count == 0 ==> indices@.len() == 0,
            sample_count >= 1 ==> 1 <= indices@.len() <= sample_count,
            forall|i: int|
                0 <= i < indices@.len() && skip_frames < max_frames ==> skip_frames
                    <= #[trigger] indices@[i] < max_frames,
            sample_count >= 2 && skip_frames < max_frames ==> indices@[0] == skip_frames
                && indices@[indices@.len() - 1] == max_frames - 1,
            max_frames - skip_frames >= sample_count ==> indices@ == spread(
                sample_count,
                skip_frames,
                max_frames,
            ),
    {
        let raw = Self::spread_frame_indices(sample_count, skip_frames, max_frames);
        let indices = Self::distinct_ascending(&raw);
        proof {
            assert forall|i: int|
                0 <= i < indices@.len() && skip_frames < max_frames implies skip_frames
                <= #[trigger] indices@[i] < max_frames by {
                assert(raw@.contains(indices@[i]));
            }
            if sample_count >= 1 {
                assert(indices@.contains(raw@[0]));
            }
            if sample_count >= 2 && skip_frames < max_frames {
                let last = raw@.len() - 1;
                assert(indices@.contains(raw@[0]));
                assert(indices@.contains(raw@[last]));
                let a = choose|a: int| 0 <= a < indices@.len() && indices@[a] == raw@[0];
                let b = choose|b: int| 0 <= b < indices@.len() && indices@[b] == raw@[last];
                assert(raw@.contains(indices@[0]));
                assert(raw@.contains(indices@[indices@.len() - 1]));
                if a > 0 {
                    assert(indices@[0] < indices@[a]);
                }
                if b < indices@.len() - 1 {
                    assert(indices@[b] < indices@[indices@.len() - 1]);
                }
            }
        }
        indices
    }

    /// The evenly spread frame numbers between `skip_frames` and
    /// `max_frames`, repeated ones included.
    fn spread_frame_indices(sample_count: usize, skip_frames: usize, max_frames: usize) -> (indices:
        Vec<usize>)
        ensures
            indices@ == spread(sample_count, skip_frames, max_frames),
            indices@.len() == sample_indices(
                sample_count as int,
                skip_frames as int,
                max_frames as int,
            ).len(),
            forall|i: int|
                0 <= i < indices@.len() ==> #[trigger] indices@[i] == sample_indices(
                    sample_count as int,
                    skip_frames as int,
                    max_frames as int,
                )[i],
            forall|i: int|
                0 <= i < indices@.len() && skip_frames < max_frames ==> skip_frames
                    <= #[trigger] indices@[i] < max_frames,
            forall|i: int, j: int|
                0 <= i <= j < indices@.len() ==> #[trigger] indices@[i] <= #[trigger] indices@[j],
            max_frames - skip_frames >= sample_count ==> forall|i: int, j: int|
                0 <= i < j < indices@.len() ==> #[trigger] indices@[i] < #[trigger] indices@[j],
            sample_count >= 2 && skip_frames < max_frames ==> indices@.len() == sample_count
                && indices@[0] == skip_frames && indices@[sample_count - 1] == max_frames - 1,
            sample_count >= 1 ==> 1 <= indices@.len() <= sample_count,
    {
        let mut indices: Vec<usize> = Vec::new();
        if sample_count == 0 {
            assert(indices@ =~= spread(sample_count, skip_frames, max_frames));
            return indices;
        }
        if max_frames <= skip_frames {
            indices.push(skip_frames);
            assert(indices@ =~= spread(sample_count, skip_frames, max_frames));
            return indices;
        }
        let available = max_frames - skip_frames;
        if sample_count == 1 {
            indices.push(skip_frames + available / 2);
            assert(indices@ =~= spread(sample_count, skip_frames, max_frames));
            return indices;
        }
        let mut i: usize = 0;
        while i < sample_count
            invariant
                i <= sample_count,
                sample_count >= 2,
                skip_frames < max_frames,
                available == max_frames - skip_frames,
                indices@.len() == i,
                forall|q: int|
                    0 <= q < i ==> #[trigger] indices@[q] == frame_index(
                        q,
                        sample_count as int,
                        skip_frames as int,
                        max_frames as int,
                    ),
            decreases sample_count - i,
        {
            proof {
                lemma_frame_index_bounds(
                    i as int,
                    i as int,
                    sample_count as int,
                    skip_frames as int,
                    max_frames as int,
                );
                assert(i * available <= u128::MAX) by (nonlinear_arith)
                    requires
                        i <= 0xffff_ffff_ffff_ffff,
                        available <= 0xffff_ffff_ffff_ffff,
                        u128::MAX == 0xffff_ffff_ffff_ffff_ffff_ffff_ffff_ffff,
                ;
            }
            let step = (i as u128 * available as u128) / ((sample_count - 1) as u128);
            let raw = skip_frames + step as usize;
            indices.push(if raw < max_frames - 1 { raw } else { max_frames - 1 });
            i += 1;
        }
        proof {
            assert forall|a: int, b: int| 0 <= a <= b < indices@.len() implies #[trigger] indices@[a]
                <= #[trigger] indices@[b] by {
                lemma_frame_index_bounds(
                    a,
                    b,
                    sample_count as int,
                    skip_frames as int,
                    max_frames as int,
                );
            }
            if max_frames - skip_frames >= sample_count {
                assert forall|a: int, b: int| 0 <= a < b < indices@.len() implies #[trigger] indices@[a]
                    < #[trigger] indices@[b] by {
                    lemma_frame_index_strict(
                        a,
                        sample_count as int,
                        skip_frames as int,
                        max_frames as int,
                    );
                    lemma_frame_index_bounds(
                        a + 1,
                        b,
                        sample_count as int,
                        skip_frames as int,
                        max_frames as int,
                    );
                    assert(indices@[a + 1] <= indices@[b]);
                }
            }
            assert forall|a: int|
                0 <= a < indices@.len() && skip_frames < max_frames implies skip_frames
                <= #[trigger] indices@[a] < max_frames by {
                lemma_frame_index_bounds(
                    a,
                    a,
                    sample_count as int,
                    skip_frames as int,
                    max_frames as int,
                );
            }
            lemma_frame_index_ends(sample_count as int, skip_frames as int, max_frames as int);
            assert(indices@ =~= spread(sample_count, skip_frames, max_frames));
        }
        indices
    }

    /// Drops repeated numbers from a list that never goes back: what is left
    /// goes strictly up and holds the same numbers.
    #[verifier::rlimit(40)]
    pub fn distinct_ascending(sorted: &Vec<usize>) -> (out: Vec<usize>)
        requires
            forall|i: int, j: int|
                0 <= i <= j < sorted@.len() ==> #[trigger] sorted@[i] <= #[trigger] sorted@[j],
        ensures
            forall|i: int, j: int|
                0 <= i < j < out@.len() ==> #[trigger] out@[i] < #[trigger] out@[j],
            forall|i: int| 0 <= i < out@.len() ==> sorted@.contains(#[trigger] out@[i]),
            forall|i: int| 0 <= i < sorted@.len() ==> out@.contains(#[trigger] sorted@[i]),
            out@.len() <= sorted@.len(),
            (forall|i: int, j: int|
                0 <= i < j < sorted@.len() ==> #[trigger] sorted@[i] < #[trigger] sorted@[j])
                ==> out@ == sorted@,
    {
        let mut out: Vec<usize> = Vec::new();
        let mut i: usize = 0;
        while i < sorted.len()
            invariant
                i <= sorted@.len(),
                out@.len() <= i,
                i > 0 ==> out@.len() > 0 && out@[out@.len() - 1] == sorted@[i - 1],
                forall|a: int, b: int|
                    0 <= a <= b < sorted@.len() ==> #[trigger] sorted@[a] <= #[trigger] sorted@[b],
                forall|a: int, b: int|
                    0 <= a < b < out@.len() ==> #[trigger] out@[a] < #[trigger] out@[b],
                forall|a: int| 0 <= a < out@.len() ==> sorted@.contains(#[trigger] out@[a]),
                forall|a: int| 0 <= a < i ==> out@.contains(#[trigger] sorted@[a]),
                (forall|a: int, b: int|
                    0 <= a < b < sorted@.len() ==> #[trigger] sorted@[a] < #[trigger] sorted@[b])
                    ==> out@ == sorted@.take(i as int),
            decreases sorted@.len() - i,
        {
            let value = sorted[i];
            let ghost before = out@;
            if i == 0 || out[out.len() - 1] != value {
                out.push(value);
                proof {
                    assert forall|a: int, b: int| 0 <= a < b < out@.len() implies #[trigger] out@[a]
                        < #[trigger] out@[b] by {
                        if b == out@.len() - 1 {
                            if i > 0 {
                                assert(before[before.len() - 1] == sorted@[i - 1]);
                                assert(sorted@[i - 1] <= sorted@[i as int]);
                                if a < before.len() - 1 {
                                    assert(before[a] < before[before.len() - 1]);
                                }
                            }
                        } else {
                            assert(before[a] < before[b]);
                        }
                    }
                    assert forall|a: int| 0 <= a < out@.len() implies sorted@.contains(
                        #[trigger] out@[a],
                    ) by {
                        if a < before.len() {
                            assert(sorted@.contains(before[a]));
                        } else {
                            assert(sorted@[i as int] == out@[a]);
                        }
                    }
                    assert forall|a: int| 0 <= a < i + 1 implies out@.contains(
                        #[trigger] sorted@[a],
                    ) by {
                        if a < i {
                            assert(before.contains(sorted@[a]));
                            let w = choose|w: int| 0 <= w < before.len() && before[w] == sorted@[a];
                            assert(out@[w] == sorted@[a]);
                        } else {
                            assert(out@[out@.len() - 1] == sorted@[a]);
                        }
                    }
                    if forall|a: int, b: int|
                        0 <= a < b < sorted@.len() ==> #[trigger] sorted@[a] < #[trigger] sorted@[b] {
                        assert(out@ =~= sorted@.take(i + 1));
                    }
                }
            } else {
                proof {
                    assert forall|a: int| 0 <= a < i + 1 implies out@.contains(
                        #[trigger] sorted@[a],
                    ) by {
                        if a == i {
                            assert(out@[out@.len() - 1] == sorted@[a]);
                        }
                    }
                    if forall|a: int, b: int|
                        0 <= a < b < sorted@.len() ==> #[trigger] sorted@[a] < #[trigger] sorted@[b] {
                        assert(sorted@[i - 1] < sorted@[i as int]);
                    }
                }
            }
            i += 1;
        }
        assert(sorted@.take(sorted@.len() as int) =~= sorted@);
        out
    }

    /// The frames to read when `sample_frames` samples are wanted: that many
    /// frames in a row, starting after the skipped ones.
    pub fn select_sample_frames(sample_frames: usize) -> (frames: Vec<usize>)
        requires
            sample_frames + SKIP_FRAMES <= usize::MAX,
        ensures
            frames@.len() == sample_frames,
            forall|i: int| 0 <= i < sample_frames ==> #[trigger] frames@[i] == SKIP_FRAMES + i,
            forall|i: int, j: int|
                0 <= i < j < frames@.len() ==> #[trigger] frames@[i] < #[trigger] frames@[j],
    {
        let frames = Self::generate_sample_frame_indices(
            sample_frames,
            SKIP_FRAMES,
            SKIP_FRAMES + sample_frames,
        );
        proof {
            assert forall|i: int| 0 <= i < frames@.len() implies #[trigger] frames@[i]
                == SKIP_FRAMES + i by {
                if sample_frames >= 2 {
                    lemma_frame_index_dense(i, sample_frames as int, SKIP_FRAMES as int);
                }
            }
        }
        frames
    }

    /// The payload bits of the first `expected_length` bytes of `text`;
    /// a text that is shorter is filled up with zero bytes.
    pub fn string_to_bits(text: &str, expected_length: usize) -> (bits: Vec<u8>)
        ensures
            bits@ == unpack(fit(text.spec_bytes(), expected_length as nat)),
            bits@.len() == 8 * expected_length,
    {
        let bytes = text.as_bytes();
        let ghost want = fit(text.spec_bytes(), expected_length as nat);
        let mut bits: Vec<u8> = Vec::new();
        let mut k: usize = 0;
        while k < expected_length
            invariant
                k <= expected_length,
                bytes@ == text.spec_bytes(),
                want == fit(text.spec_bytes(), expected_length as nat),
                bits@.len() == 8 * k,
                forall|j: int| 0 <= j < 8 * k ==> bits@[j] == bit_of(want[j / 8], j % 8),
            decreases expected_length - k,
        {
            let byte = if k < bytes.len() {
                bytes[k]
            } else {
                0
            };
            let mut i: u8 = 0;
            while i < 8
                invariant
                    i <= 8,
                    k < expected_length,
                    want.len() == expected_length,
                    byte == want[k as int],
                    bits@.len() == 8 * k + i,
                    forall|j: int| 0 <= j < 8 * k + i ==> bits@[j] == bit_of(want[j / 8], j % 8),
                decreases 8 - i,
            {
                let shift: u8 = 7 - i;
                bits.push((byte >> shift) & 1);
                i += 1;
            }
            k += 1;
        }
        assert(bits@ =~= unpack(want));
        bits
    }

    /// The text of a voted payload: its bytes, at most `expected_length` of
    /// them and only up to the first zero byte, decoded with a replacement
    /// character for every invalid sequence.
    pub fn bits_to_string(bits: &[u8], expected_length: usize) -> (text: String)
        ensures
            text@ == lossy_text(voted_bytes(bits@, expected_length as nat)),
            valid_utf8(voted_bytes(bits@, expected_length as nat)) ==> text@ == decode_utf8(
                voted_bytes(bits@, expected_length as nat),
            ),
    {
        let mut bytes = WatermarkUtils::pack_bits(bits);
        if bytes.len() > expected_length {
            bytes.truncate(expected_length);
        }
        let ghost clipped = bytes@;
        let mut i: usize = 0;
        while i < bytes.len() && bytes[i] != 0
            invariant
                i <= bytes@.len(),
                bytes@ == clipped,
                nul_index(clipped, 0) == nul_index(clipped, i as int),
            decreases bytes@.len() - i,
        {
            i += 1;
        }
        bytes.truncate(i);
        utf8_to_string_lossy(&bytes)
    }

    /// Votes on the payloads read from the frames and spells the winner as
    /// text. The text is made of the winning bits of all `8 *
    /// expected_length` positions, a position without votes counting as 0.
    /// The confidence is the mean share of the winning side over the
    /// positions at which samples vote: the first `8 * expected_length`
    /// positions, or fewer when no sample is that long. Without any sample
    /// the text is empty and the confidence 0.
    pub fn vote_watermark_bits(results: &Vec<Sample>, expected_length: usize) -> (out: (
        String,
        u32,
    ))
        requires
            8 * expected_length <= usize::MAX,
        ensures
            results@.len() == 0 ==> out.0@ == Seq::<char>::empty() && out.1 == 0,
            results@.len() > 0 ==> {
                &&& out.1 == confidence_ppm(
                    results@,
                    voted_positions(results@, 8 * expected_length as nat),
                )
                &&& out.0@ == lossy_text(
                    voted_bytes(
                        voted_bits(results@, 8 * expected_length as nat),
                        expected_length as nat,
                    ),
                )
                &&& valid_utf8(
                    voted_bytes(
                        voted_bits(results@, 8 * expected_length as nat),
                        expected_length as nat,
                    ),
                ) ==> out.0@ == decode_utf8(
                    voted_bytes(
                        voted_bits(results@, 8 * expected_length as nat),
                        expected_length as nat,
                    ),
                )
            },
            out.1 <= FULL_CONFIDENCE_PPM,
    {
        if results.len() == 0 {
            return (String::new(), 0);
        }
        let limit = 8 * expected_length;
        let reach = Self::longest_sample(results);
        let voted = if reach < limit {
            reach
        } else {
            limit
        };
        let outcome = vote(results, voted);
        let confidence = outcome.confidence_ppm;
        let mut bits = outcome.bits;
        let mut p: usize = voted;
        while p < limit
            invariant
                voted <= p <= limit,
                voted == voted_positions(results@, limit as nat),
                bits@.len() == p,
                forall|q: int|
                    0 <= q < p ==> #[trigger] bits@[q] == winner(
                        weight_of(results@, q, false),
                        weight_of(results@, q, true),
                    ),
            decreases limit - p,
        {
            proof {
                lemma_silent_position(results@, p as int, false);
                lemma_silent_position(results@, p as int, true);
            }
            bits.push(0);
            p += 1;
        }
        assert(bits@ =~= voted_bits(results@, limit as nat));
        let text = Self::bits_to_string(bits.as_slice(), expected_length);
        (text, confidence)
    }

    /// Length of the longest sample.
    fn longest_sample(samples: &Vec<Sample>) -> (len: usize)
        ensures
            len == longest(samples@),
    {
        let mut len: usize = 0;
        let mut i: usize = 0;
        while i < samples.len()
            invariant
                i <= samples@.len(),
                len == longest(samples@.take(i as int)),
            decreases samples@.len() - i,
        {
            proof {
                assert(samples@.take(i + 1).drop_last() =~= samples@.take(i as int));
                assert(samples@.take(i + 1).last() == samples@[i as int]);
            }
            let sample = &samples[i];
            if sample.0.len() > len {
                len = sample.0.len();
            }
            i += 1;
        }
        assert(samples@.take(samples@.len() as int) =~= samples@);
        len
    }

    /// Picks between what the audio track and what the frames of a video
    /// gave: the audio result where there is one and its confidence is the
    /// higher, the video result otherwise.
    pub fn merge_results(
        audio: Option<(String, u32)>,
        video_text: String,
        video_confidence: u32,
    ) -> (out: (String, u32))
        ensures
            out == (match audio {
                Some((text, confidence)) => if confidence > video_confidence {
                    (text, confidence)
                } else {
                    (video_text, video_confidence)
                },
                None => (video_text, video_confidence),
            }),
    {
        match audio {
            Some((text, confidence)) => {
                if confidence > video_confidence {
                    (text, confidence)
                } else {
                    (video_text, video_confidence)
                }
            },
            None => (video_text, video_confidence),
        }
    }

    /// Tells whether a confidence is below the threshold under which a
    /// result is reported as doubtful. A doubtful result is still a result,
    /// not an error.
    pub fn is_doubtful(confidence_ppm: u32, threshold_ppm: u32) -> (doubtful: bool)
        ensures
            doubtful == (confidence_ppm < threshold_ppm),
    {
        confidence_ppm < threshold_ppm
    }
}

impl FrameTally {
    /// A tally without samples, for texts of `expected_length` bytes.
    pub fn new(expected_length: usize) -> (tally: FrameTally)
        ensures
            tally.expected_length == expected_length,
            tally.samples@.len() == 0,
    {
        FrameTally { expected_length, samples: Vec::new() }
    }

    /// Takes note of one frame: a frame that was read adds a sample with the
    /// bits of its text and its quality as weight, any other frame changes
    /// nothing.
    pub fn record(&mut self, outcome: FrameOutcome)
        ensures
            final(self).expected_length == old(self).expected_length,
            match outcome {
                FrameOutcome::Read { text, quality } => {
                    &&& final(self).samples@.len() == old(self).samples@.len() + 1
                    &&& final(self).samples@.drop_last() == old(self).samples@
                    &&& final(self).samples@.last().1 == quality
                    &&& final(self).samples@.last().0@ == unpack(
                        fit(encode_utf8(text@), old(self).expected_length as nat),
                    )
                },
                _ => final(self).samples@ == old(self).samples@,
            },
    {
        match outcome {
            FrameOutcome::Read { text, quality } => {
                let bits = VideoWatermarker::string_to_bits(text.as_str(), self.expected_length);
                let ghost before = self.samples@;
                self.samples.push((bits, quality));
                assert(self.samples@.drop_last() =~= before);
            },
            _ => {},
        }
    }

    /// The samples for the vote. Fails with `ProcessingError` when not one
    /// frame was read.
    pub fn finish(self) -> (res: Result<Vec<Sample>, WatermarkError>)
        ensures
            self.samples@.len() == 0 ==> (res matches Err(WatermarkError::ProcessingError(text))
                && text@ == "所有采样帧的水印提取都失败"@),
            self.samples@.len() > 0 ==> res == Ok::<Vec<Sample>, WatermarkError>(self.samples),
    {
        if self.samples.len() == 0 {
            Err(WatermarkError::ProcessingError(String::from_str("所有采样帧的水印提取都失败")))
        } else {
            Ok(self.samples)
        }
    }
}

} // verus!
