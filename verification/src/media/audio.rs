//! Audio: how a stream of samples is laid out for the codecs, and the
//! lengths of the windows used to condition the result.
use vstd::prelude::*;
use vstd::string::{StringExecFns, StringSliceAdditionalSpecFns};
use crate::adapter::{
    ceil_sqrt, ceil_sqrt_of, flat_at, flat_of, grid_of, lemma_grow, next_power_of_two,
    next_power_of_two_of, to_grid, PadMode,
};
use crate::capacity::{capacity_of, lemma_block_transform_tag, pad_even, wide_capacity};
use crate::error::WatermarkError;
use crate::grid::{Grid, GridView};
use crate::layout::{
    ceil_div, lemma_padded_len, lemma_position_split, lemma_tile_below, padded_len, tile_count,
};
use crate::text::{contains_text, text_contains};
use crate::watermark::dct::{
    admits, block_count, block_kernel, embedded, extracted, overdrawn_text, overlong_text, sign_kernel,
    DctWatermark, DEFAULT_BLOCK_SIZE,
};

verus! {

/// Length of the window over which loudness is measured for compression.
pub const COMPRESSION_WINDOW: usize = 1024;

/// Distance between the starts of successive compression windows.
pub const COMPRESSION_STEP: usize = 512;

/// The side of the square that holds `len` samples for the algorithm named
/// by `tag`: a multiple of the block size for the block transform, a power
/// of two for the wavelet transform; `None` when the tag names neither.
pub open spec fn audio_side(len: nat, tag: Seq<char>) -> Option<nat> {
    if contains_text(tag, "DCT"@) {
        Some(padded_len(ceil_sqrt_of(len), DEFAULT_BLOCK_SIZE as nat))
    } else if contains_text(tag, "DWT"@) {
        Some(next_power_of_two_of(ceil_sqrt_of(len)))
    } else {
        None
    }
}

/// The number of samples that an audio file is cut or filled to so that it
/// suits the algorithm named by `tag`: the square of a side that is a
/// multiple of the block size for the block transform, and even for the
/// wavelet transform; `None` when the tag names neither.
pub open spec fn adjusted_len_of(len: nat, tag: Seq<char>) -> Option<nat> {
    if contains_text(tag, "DCT"@) {
        Some(prepared_len(len))
    } else if contains_text(tag, "DWT"@) {
        Some(pad_even(ceil_sqrt_of(len)) * pad_even(ceil_sqrt_of(len)))
    } else {
        None
    }
}

/// `samples` cut or filled up to `len` samples.
pub open spec fn resized<T>(samples: Seq<T>, len: nat, fill: T) -> Seq<T> {
    Seq::new(
        len,
        |i: int|
            if i < samples.len() {
                samples[i]
            } else {
                fill
            },
    )
}

/// `value` kept between `low` and `high`.
pub open spec fn clamped(value: int, low: int, high: int) -> int {
    if value < low {
        low
    } else if value > high {
        high
    } else {
        value
    }
}

/// Number of samples handed to the block transform for a stream of `len`
/// samples.
pub open spec fn prepared_len(len: nat) -> nat {
    let side = padded_len(ceil_sqrt_of(len), DEFAULT_BLOCK_SIZE as nat);
    side * side
}

/// Side of the grid in which a stream of `len` samples goes through the
/// block transform: the least multiple of the block size whose square holds
/// the stream.
pub open spec fn audio_grid_side(len: nat) -> nat {
    padded_len(ceil_sqrt_of(len), DEFAULT_BLOCK_SIZE as nat)
}

/// The grid in which a stream of samples goes through the block transform:
/// the samples row by row, and `fill` where they have run out.
pub open spec fn audio_grid<T>(samples: Seq<T>, fill: T) -> GridView<T> {
    grid_of(samples, audio_grid_side(samples.len()), fill)
}

/// A number whose square fits into a machine word is at most half the
/// largest word plus one.
pub proof fn lemma_root_is_small(root: nat, bound: nat)
    requires
        root * root <= bound,
        bound >= 2,
    ensures
        root <= bound / 2 + 1,
{
    let h = bound / 2;
    if root >= h + 2 {
        assert(root * root >= (h + 2) * (h + 2)) by (nonlinear_arith)
            requires
                root >= h + 2,
                h >= 0,
        ;
        assert((h + 2) * (h + 2) > 2 * h + 1) by (nonlinear_arith)
            requires
                h >= 0,
        ;
    }
}

/// Layout and window rules for audio.
pub struct AudioWatermarker;

impl AudioWatermarker {
    /// Cuts or fills `samples` to the number of samples that the algorithm
    /// named by `algorithm` works on; `fill` stands for silence.
    pub fn prepare_samples_for_watermarking<T: Copy>(
        samples: &[T],
        algorithm: &str,
        fill: T,
    ) -> (res: Result<Vec<T>, WatermarkError>)
        requires
            audio_side(samples@.len(), algorithm@) matches Some(side) ==> side * side
                <= usize::MAX,
        ensures
            match audio_side(samples@.len(), algorithm@) {
                Some(side) => res matches Ok(v) && v@ == resized(samples@, side * side, fill),
                None => res matches Err(WatermarkError::UnsupportedFormat(text)) && text@
                    == "未知算法"@,
            },
    {
        let len = samples.len();
        let root = ceil_sqrt(len);
        let side = if text_contains(algorithm, "DCT") {
            proof {
                lemma_padded_len(root as nat, DEFAULT_BLOCK_SIZE as nat);
                let s = padded_len(root as nat, DEFAULT_BLOCK_SIZE as nat);
                assert(s <= s * s) by (nonlinear_arith)
                    requires
                        s >= 0,
                ;
            }
            tile_count(root, DEFAULT_BLOCK_SIZE) * DEFAULT_BLOCK_SIZE
        } else if text_contains(algorithm, "DWT") {
            proof {
                let s = next_power_of_two_of(root as nat);
                lemma_grow(root as nat, 1);
                assert(root * root <= s * s) by (nonlinear_arith)
                    requires
                        0 <= root <= s,
                ;
                lemma_root_is_small(root as nat, usize::MAX as nat);
            }
            next_power_of_two(root)
        } else {
            return Err(WatermarkError::UnsupportedFormat(String::from_str("未知算法")));
        };
        let required = side * side;
        let mut prepared: Vec<T> = Vec::new();
        let mut i: usize = 0;
        while i < required
            invariant
                i <= required,
                len == samples@.len(),
                prepared@.len() == i,
                forall|q: int|
                    0 <= q < i ==> prepared@[q] == (if q < len {
                        samples@[q]
                    } else {
                        fill
                    }),
            decreases required - i,
        {
            let v = if i < len {
                samples[i]
            } else {
                fill
            };
            prepared.push(v);
            i += 1;
        }
        assert(prepared@ =~= resized(samples@, required as nat, fill));
        Ok(prepared)
    }

    /// The number of samples that an audio file is cut or filled to so that
    /// it suits the algorithm named by `algorithm`.
    pub fn adjusted_len(len: usize, algorithm: &str) -> (res: Result<usize, WatermarkError>)
        requires
            adjusted_len_of(len as nat, algorithm@) matches Some(n) ==> n <= usize::MAX,
        ensures
            match adjusted_len_of(len as nat, algorithm@) {
                Some(n) => res == Ok::<usize, WatermarkError>(n as usize),
                None => res matches Err(WatermarkError::UnsupportedFormat(text)) && text@
                    == "未知算法"@,
            },
    {
        let root = ceil_sqrt(len);
        if text_contains(algorithm, "DCT") {
            proof {
                lemma_padded_len(root as nat, DEFAULT_BLOCK_SIZE as nat);
                let s = padded_len(root as nat, DEFAULT_BLOCK_SIZE as nat);
                assert(s <= s * s) by (nonlinear_arith)
                    requires
                        s >= 0,
                ;
            }
            let side = tile_count(root, DEFAULT_BLOCK_SIZE) * DEFAULT_BLOCK_SIZE;
            Ok(side * side)
        } else if text_contains(algorithm, "DWT") {
            proof {
                let s = pad_even(root as nat);
                assert(s <= s * s) by (nonlinear_arith)
                    requires
                        s >= 0,
                ;
            }
            let side = root + root % 2;
            Ok(side * side)
        } else {
            Err(WatermarkError::UnsupportedFormat(String::from_str("未知算法")))
        }
    }

    /// Lays samples out row by row in the smallest square grid that suits
    /// the algorithm named by `algorithm`, and fills the rest with `fill`.
    /// The side is a multiple of the block size for the block transform and
    /// a power of two for the wavelet transform.
    pub fn audio_to_array<T: Copy>(samples: &[T], algorithm: &str, fill: T) -> (res: Result<
        Grid<T>,
        WatermarkError,
    >)
        requires
            audio_side(samples@.len(), algorithm@) matches Some(side) ==> side * side
                <= usize::MAX,
        ensures
            match audio_side(samples@.len(), algorithm@) {
                Some(side) => res matches Ok(g) && g@.wf() && g@ == grid_of(samples@, side, fill)
                    && g@.rows() == side && g@.cols == side,
                None => res matches Err(WatermarkError::UnsupportedFormat(text)) && text@
                    == "未知算法"@,
            },
    {
        if text_contains(algorithm, "DCT") {
            proof {
                let s = padded_len(ceil_sqrt_of(samples@.len()), DEFAULT_BLOCK_SIZE as nat);
                assert(s <= s * s) by (nonlinear_arith)
                    requires
                        s >= 0,
                ;
            }
            Ok(to_grid(samples, DEFAULT_BLOCK_SIZE, PadMode::BlockMultiple, fill))
        } else if text_contains(algorithm, "DWT") {
            proof {
                let root = ceil_sqrt_of(samples@.len());
                let s = next_power_of_two_of(root);
                lemma_grow(root, 1);
                assert(root * root <= s * s) by (nonlinear_arith)
                    requires
                        0 <= root <= s,
                ;
                lemma_root_is_small(root, usize::MAX as nat);
            }
            Ok(to_grid(samples, DEFAULT_BLOCK_SIZE, PadMode::PowerOfTwo, fill))
        } else {
            Err(WatermarkError::UnsupportedFormat(String::from_str("未知算法")))
        }
    }

    /// All samples of a grid, row by row.
    #[verifier::rlimit(40)]
    pub fn array_to_audio<T: Copy>(grid: &Grid<T>) -> (samples: Vec<T>)
        ensures
            samples@.len() == grid@.rows() * grid@.cols,
            forall|fill: T| samples@ == #[trigger] flat_of(grid@, samples@.len(), fill),
    {
        let rows = grid.rows();
        let cols = grid.cols();
        let mut samples: Vec<T> = Vec::new();
        let mut r: usize = 0;
        assert(r * cols == 0) by (nonlinear_arith)
            requires
                r == 0,
        ;
        while r < rows
            invariant
                r <= rows,
                rows == grid@.rows(),
                cols == grid@.cols,
                grid@.wf(),
                samples@.len() == r * cols,
                forall|q: int, p: int|
                    0 <= q < r && 0 <= p < cols ==> samples@[q * cols + p] == #[trigger] grid@.at(
                        q,
                        p,
                    ),
            decreases rows - r,
        {
            let mut c: usize = 0;
            while c < cols
                invariant
                    c <= cols,
                    r < rows,
                    rows == grid@.rows(),
                    cols == grid@.cols,
                    grid@.wf(),
                    samples@.len() == r * cols + c,
                    forall|q: int, p: int|
                        0 <= q < r && 0 <= p < cols ==> samples@[q * cols + p]
                            == #[trigger] grid@.at(q, p),
                    forall|p: int| 0 <= p < c ==> samples@[r * cols + p] == grid@.at(r as int, p),
                decreases cols - c,
            {
                let ghost before = samples@;
                samples.push(grid.get(r, c));
                proof {
                    assert forall|q: int, p: int| 0 <= q < r && 0 <= p < cols implies samples@[q
                        * cols + p] == #[trigger] grid@.at(q, p) by {
                        assert(q * cols + p < r * cols) by (nonlinear_arith)
                            requires
                                0 <= q < r,
                                0 <= p < cols,
                        ;
                        assert(0 <= q * cols + p) by (nonlinear_arith)
                            requires
                                0 <= q,
                                0 <= p,
                                0 <= cols,
                        ;
                        assert(before[q * cols + p] == grid@.at(q, p));
                    }
                }
                c += 1;
            }
            proof {
                assert(r * cols + cols == (r + 1) * cols) by (nonlinear_arith);
            }
            r += 1;
        }
        proof {
            assert forall|fill: T| samples@ == #[trigger] flat_of(grid@, samples@.len(), fill) by {
                assert forall|i: int| 0 <= i < samples@.len() implies samples@[i] == flat_at(grid@, i, fill) by {
                    assert(cols > 0) by (nonlinear_arith)
                        requires
                            0 <= i < rows * cols,
                    ;
                    lemma_position_split(i, cols as int);
                    lemma_tile_below(i, rows as int, cols as int);
                    assert(samples@[(i / (cols as int)) * cols + i % (cols as int)] == grid@.at(
                        i / (cols as int),
                        i % (cols as int),
                    ));
                }
                assert(samples@ =~= flat_of(grid@, samples@.len(), fill));
            }
        }
        samples
    }

    /// Tells whether the payload of `watermark_text` fits a stream of
    /// `total_samples` samples under the algorithm named by `algorithm`.
    pub fn check_watermark_capacity(
        total_samples: usize,
        watermark_text: &str,
        algorithm: &str,
    ) -> (res: Result<bool, WatermarkError>)
        ensures
            match capacity_of(
                ceil_sqrt_of(total_samples as nat),
                ceil_sqrt_of(total_samples as nat),
                algorithm@,
            ) {
                Some(c) => res == Ok::<bool, WatermarkError>(
                    8 * watermark_text.spec_bytes().len() <= c,
                ),
                None => res matches Err(WatermarkError::UnsupportedFormat(text)) && text@
                    == "未知算法"@,
            },
    {
        let side = ceil_sqrt(total_samples);
        match wide_capacity(side, side, algorithm) {
            Ok(c) => Ok(watermark_text.as_bytes().len() as u128 * 8 <= c),
            Err(e) => Err(e),
        }
    }

    /// Length of the short fade at either end of a gently marked stream.
    pub fn light_fade_length(len: usize) -> (fade: usize)
        ensures
            fade == clamped(len as int / 500, 16, 128),
    {
        let raw = len / 500;
        if raw < 16 {
            16
        } else if raw > 128 {
            128
        } else {
            raw
        }
    }

    /// Length of the fade at either end of a stream that went through the
    /// stronger conditioning.
    pub fn boundary_fade_length(len: usize) -> (fade: usize)
        ensures
            fade == clamped(len as int / 200, 32, 512),
    {
        let raw = len / 200;
        if raw < 32 {
            32
        } else if raw > 512 {
            512
        } else {
            raw
        }
    }

    /// Length of the smoothed start of a stream whose peaks had to be
    /// limited.
    pub fn smooth_start_length(len: usize) -> (fade: usize)
        ensures
            fade == clamped(len as int / 100, 64, 2048),
    {
        let raw = len / 100;
        if raw < 64 {
            64
        } else if raw > 2048 {
            2048
        } else {
            raw
        }
    }

    /// The windows over which loudness is measured: one every
    /// `COMPRESSION_STEP` samples, each `COMPRESSION_WINDOW` samples long or
    /// cut at the end of the stream.
    pub fn compression_windows(len: usize) -> (windows: Vec<(usize, usize)>)
        ensures
            windows@.len() == ceil_div(len as nat, COMPRESSION_STEP as nat),
            forall|k: int|
                0 <= k < windows@.len() ==> {
                    &&& (#[trigger] windows@[k]).0 == k * COMPRESSION_STEP
                    &&& windows@[k].1 == (if k * COMPRESSION_STEP + COMPRESSION_WINDOW < len {
                        k * COMPRESSION_STEP + COMPRESSION_WINDOW
                    } else {
                        len as int
                    })
                },
    {
        let count = tile_count(len, COMPRESSION_STEP);
        let mut windows: Vec<(usize, usize)> = Vec::new();
        let mut k: usize = 0;
        while k < count
            invariant
                k <= count,
                count == ceil_div(len as nat, COMPRESSION_STEP as nat),
                windows@.len() == k,
                forall|q: int|
                    0 <= q < k ==> {
                        &&& (#[trigger] windows@[q]).0 == q * COMPRESSION_STEP
                        &&& windows@[q].1 == (if q * COMPRESSION_STEP + COMPRESSION_WINDOW < len {
                            q * COMPRESSION_STEP + COMPRESSION_WINDOW
                        } else {
                            len as int
                        })
                    },
            decreases count - k,
        {
            let start = k * COMPRESSION_STEP;
            let end = if len - start > COMPRESSION_WINDOW {
                start + COMPRESSION_WINDOW
            } else {
                len
            };
            windows.push((start, end));
            k += 1;
        }
        windows
    }

    /// Embeds a payload into a stream of samples with the block transform:
    /// the stream is filled up with `fill`, laid out in a square grid, marked
    /// with the kernel, and handed back as all samples of the grid, row by
    /// row. The caller conditions the result and cuts it to length.
    pub fn embed_in_samples<T: Copy, K: Fn(Grid<T>, Option<(usize, usize)>, bool) -> Grid<T>>(
        samples: &[T],
        watermark_bits: &[u8],
        fill: T,
        kernel: K,
    ) -> (res: Result<Vec<T>, WatermarkError>)
        requires
            prepared_len(samples@.len()) <= usize::MAX,
            block_kernel(kernel, DEFAULT_BLOCK_SIZE as nat),
        ensures
            res is Ok <==> admits(
                audio_grid(samples@, fill),
                watermark_bits@.len(),
                DEFAULT_BLOCK_SIZE as nat,
            ),
            res matches Err(e) ==> e matches WatermarkError::InvalidArgument(text) && text@
                == overlong_text(
                block_count(audio_grid(samples@, fill), DEFAULT_BLOCK_SIZE as nat),
                watermark_bits@.len(),
            ),
            res matches Ok(v) ==> exists|out: GridView<T>|
                {
                    &&& out.wf()
                    &&& out.same_shape(audio_grid(samples@, fill))
                    &&& #[trigger] embedded(
                        audio_grid(samples@, fill),
                        watermark_bits@,
                        DEFAULT_BLOCK_SIZE as nat,
                        kernel,
                        out,
                    )
                    &&& v@ == flat_of(out, out.rows() * out.cols, fill)
                },
    {
        proof {
            lemma_block_transform_tag();
        }
        let grid = Self::grid_for_block_transform(samples, fill);
        let codec = DctWatermark::new();
        match codec.embed_audio_optimized(&grid, watermark_bits, kernel) {
            Ok(out) => {
                let v = Self::array_to_audio(&out);
                Ok(v)
            },
            Err(e) => Err(e),
        }
    }

    /// Extracts `bit_count` bits from a stream of samples with the block
    /// transform, using the layout of `embed_in_samples`.
    pub fn extract_from_samples<T: Copy, S: Fn(Grid<T>, usize, usize) -> bool>(
        samples: &[T],
        bit_count: usize,
        fill: T,
        sign: S,
    ) -> (res: Result<Vec<u8>, WatermarkError>)
        requires
            prepared_len(samples@.len()) <= usize::MAX,
            sign_kernel(sign, DEFAULT_BLOCK_SIZE as nat),
        ensures
            res is Ok <==> admits(
                audio_grid(samples@, fill),
                bit_count as nat,
                DEFAULT_BLOCK_SIZE as nat,
            ),
            res matches Err(e) ==> e matches WatermarkError::InvalidArgument(text) && text@
                == overdrawn_text(
                bit_count as nat,
                block_count(audio_grid(samples@, fill), DEFAULT_BLOCK_SIZE as nat),
            ),
            res matches Ok(bits) ==> extracted(
                audio_grid(samples@, fill),
                bit_count as nat,
                DEFAULT_BLOCK_SIZE as nat,
                sign,
                bits@,
            ),
    {
        let grid = Self::grid_for_block_transform(samples, fill);
        let codec = DctWatermark::new();
        codec.extract(&grid, bit_count, sign)
    }

    /// The grid in which a stream goes through the block transform.
    fn grid_for_block_transform<T: Copy>(samples: &[T], fill: T) -> (g: Grid<T>)
        requires
            prepared_len(samples@.len()) <= usize::MAX,
        ensures
            g@.wf(),
            g@ == audio_grid(samples@, fill),
            g@.rows() == audio_grid_side(samples@.len()),
            g@.cols == g@.rows(),
            g@.rows() <= usize::MAX,
            padded_len(g@.rows(), DEFAULT_BLOCK_SIZE as nat) == g@.rows(),
    {
        proof {
            let side = audio_grid_side(samples@.len());
            lemma_padded_len(ceil_sqrt_of(samples@.len()), DEFAULT_BLOCK_SIZE as nat);
            lemma_padded_len(side, DEFAULT_BLOCK_SIZE as nat);
            assert(side <= side * side) by (nonlinear_arith)
                requires
                    side >= 0,
            ;
        }
        to_grid(samples, DEFAULT_BLOCK_SIZE, PadMode::BlockMultiple, fill)
    }
}

} // verus!
