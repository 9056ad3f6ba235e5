//! Payload capacity of a grid under each algorithm.
use vstd::prelude::*;
use vstd::string::StringExecFns;
use crate::error::WatermarkError;
use crate::grid::GridView;
use crate::layout::{ceil_div, lemma_ceil_div_monotonic, tile_count};
use crate::text::{contains_text, occurs_at, text_contains};
use crate::watermark::dct::{admits, block_count, DEFAULT_BLOCK_SIZE};
use crate::watermark::dwt::{high_freq_positions, is_power_of_two, least, wavelet_admits, window};

verus! {

/// `len` rounded up to an even number.
pub open spec fn pad_even(len: nat) -> nat {
    if len % 2 == 0 {
        len
    } else {
        len + 1
    }
}

/// Capacity in bits of a `width` by `height` grid under the block transform
/// with the default block size: one bit per block.
pub open spec fn block_capacity(width: nat, height: nat) -> nat {
    ceil_div(width, DEFAULT_BLOCK_SIZE as nat) * ceil_div(height, DEFAULT_BLOCK_SIZE as nat)
}

/// Capacity in bits of a `width` by `height` grid under the wavelet
/// transform: one bit per coefficient of a quarter of the evenly padded grid.
pub open spec fn wavelet_capacity(width: nat, height: nat) -> nat {
    pad_even(width) * pad_even(height) / 4
}

/// Capacity in bits of a `width` by `height` grid under the algorithm named
/// by `tag`; `None` when the tag names no algorithm. A tag names the block
/// transform when it contains `DCT`, else the wavelet transform when it
/// contains `DWT`.
pub open spec fn capacity_of(width: nat, height: nat, tag: Seq<char>) -> Option<nat> {
    if contains_text(tag, "DCT"@) {
        Some(block_capacity(width, height))
    } else if contains_text(tag, "DWT"@) {
        Some(wavelet_capacity(width, height))
    } else {
        None
    }
}

/// Half of `len` rounded up to an even number.
fn half_of_even(len: usize) -> (h: usize)
    ensures
        2 * h == pad_even(len as nat),
{
    len / 2 + len % 2
}

/// The quarter of a product of two even numbers is the product of their
/// halves.
pub proof fn lemma_quarter(a: nat, b: nat)
    ensures
        (2 * a) * (2 * b) / 4 == a * b,
{
    assert((2 * a) * (2 * b) == 4 * (a * b)) by (nonlinear_arith);
}

/// Capacity under the block transform, in a width that cannot overflow.
pub(crate) fn wide_block_capacity(width: usize, height: usize) -> (bits: u128)
    ensures
        bits == block_capacity(width as nat, height as nat),
{
    let across = tile_count(width, DEFAULT_BLOCK_SIZE);
    let down = tile_count(height, DEFAULT_BLOCK_SIZE);
    assert(across * down <= u128::MAX) by (nonlinear_arith)
        requires
            across <= usize::MAX,
            down <= usize::MAX,
            usize::MAX <= 0xffff_ffff_ffff_ffff,
            u128::MAX == 0xffff_ffff_ffff_ffff_ffff_ffff_ffff_ffff,
    ;
    across as u128 * down as u128
}

/// Capacity under the wavelet transform, in a width that cannot overflow.
pub(crate) fn wide_wavelet_capacity(width: usize, height: usize) -> (bits: u128)
    ensures
        bits == wavelet_capacity(width as nat, height as nat),
{
    let half_w = half_of_even(width);
    let half_h = half_of_even(height);
    proof {
        lemma_quarter(half_w as nat, half_h as nat);
    }
    assert(half_w * half_h <= u128::MAX) by (nonlinear_arith)
        requires
            half_w <= usize::MAX,
            half_h <= usize::MAX,
            usize::MAX <= 0xffff_ffff_ffff_ffff,
            u128::MAX == 0xffff_ffff_ffff_ffff_ffff_ffff_ffff_ffff,
    ;
    half_w as u128 * half_h as u128
}

/// Capacity under the algorithm named by `algorithm`, in a width that cannot
/// overflow.
pub(crate) fn wide_capacity(width: usize, height: usize, algorithm: &str) -> (res: Result<
    u128,
    WatermarkError,
>)
    ensures
        match capacity_of(width as nat, height as nat, algorithm@) {
            Some(c) => res == Ok::<u128, WatermarkError>(c as u128) && c <= u128::MAX,
            None => res matches Err(WatermarkError::UnsupportedFormat(text)) && text@
                == "未知算法"@,
        },
{
    if text_contains(algorithm, "DCT") {
        Ok(wide_block_capacity(width, height))
    } else if text_contains(algorithm, "DWT") {
        Ok(wide_wavelet_capacity(width, height))
    } else {
        Err(WatermarkError::UnsupportedFormat(String::from_str("未知算法")))
    }
}

/// Maximum payload, in bits, of a `width` by `height` grid under the
/// algorithm named by `algorithm`. An unrecognized name is rejected.
pub fn capacity(width: usize, height: usize, algorithm: &str) -> (res: Result<
    usize,
    WatermarkError,
>)
    requires
        capacity_of(width as nat, height as nat, algorithm@) matches Some(c) ==> c <= usize::MAX,
    ensures
        match capacity_of(width as nat, height as nat, algorithm@) {
            Some(c) => res == Ok::<usize, WatermarkError>(c as usize),
            None => res matches Err(WatermarkError::UnsupportedFormat(text)) && text@
                == "未知算法"@,
        },
{
    match wide_capacity(width, height, algorithm) {
        Ok(bits) => Ok(bits as usize),
        Err(e) => Err(e),
    }
}

/// Capacity never shrinks when a grid grows: it is non-decreasing in the
/// width and in the height, for every algorithm.
pub proof fn lemma_capacity_monotonic(w1: nat, h1: nat, w2: nat, h2: nat, tag: Seq<char>)
    requires
        w1 <= w2,
        h1 <= h2,
    ensures
        capacity_of(w1, h1, tag) is Some <==> capacity_of(w2, h2, tag) is Some,
        capacity_of(w1, h1, tag) matches Some(small) ==> small <= capacity_of(w2, h2, tag)->0,
        block_capacity(w1, h1) <= block_capacity(w2, h2),
        wavelet_capacity(w1, h1) <= wavelet_capacity(w2, h2),
{
    let bs = DEFAULT_BLOCK_SIZE as nat;
    lemma_ceil_div_monotonic(w1, w2, bs);
    lemma_ceil_div_monotonic(h1, h2, bs);
    assert(ceil_div(w1, bs) * ceil_div(h1, bs) <= ceil_div(w2, bs) * ceil_div(h2, bs))
        by (nonlinear_arith)
        requires
            ceil_div(w1, bs) <= ceil_div(w2, bs),
            ceil_div(h1, bs) <= ceil_div(h2, bs),
    ;
    assert(pad_even(w1) * pad_even(h1) <= pad_even(w2) * pad_even(h2)) by (nonlinear_arith)
        requires
            pad_even(w1) <= pad_even(w2),
            pad_even(h1) <= pad_even(h2),
    ;
}

/// The tag `DCT` names the block transform.
pub proof fn lemma_block_transform_tag()
    ensures
        contains_text("DCT"@, "DCT"@),
        forall|w: nat, h: nat| #[trigger] capacity_of(w, h, "DCT"@) == Some(block_capacity(w, h)),
{
    assert("DCT"@.subrange(0, "DCT"@.len() as int) =~= "DCT"@);
    assert(occurs_at("DCT"@, "DCT"@, 0));
}

/// A payload as long as the capacity of a grid under the block transform is
/// accepted for embedding with the default block size, and a payload one bit
/// longer is refused.
pub proof fn lemma_capacity_is_limit<T>(g: GridView<T>)
    ensures
        capacity_of(g.cols, g.rows(), "DCT"@) == Some(block_capacity(g.cols, g.rows())),
        block_capacity(g.cols, g.rows()) == block_count(g, DEFAULT_BLOCK_SIZE as nat),
        admits(g, block_capacity(g.cols, g.rows()), DEFAULT_BLOCK_SIZE as nat),
        !admits(g, block_capacity(g.cols, g.rows()) + 1, DEFAULT_BLOCK_SIZE as nat),
{
    lemma_block_transform_tag();
    let bs = DEFAULT_BLOCK_SIZE as nat;
    assert(ceil_div(g.cols, bs) * ceil_div(g.rows(), bs) == ceil_div(g.rows(), bs) * ceil_div(
        g.cols,
        bs,
    )) by (nonlinear_arith);
}

/// The tag `DWT` names the wavelet transform.
pub proof fn lemma_wavelet_tag()
    ensures
        !contains_text("DWT"@, "DCT"@),
        contains_text("DWT"@, "DWT"@),
        forall|w: nat, h: nat| #[trigger] capacity_of(w, h, "DWT"@) == Some(wavelet_capacity(w, h)),
{
    reveal_strlit("DWT");
    reveal_strlit("DCT");
    assert("DWT"@.subrange(0, 3) =~= "DWT"@);
    assert(occurs_at("DWT"@, "DWT"@, 0));
    assert forall|i: int| !occurs_at("DWT"@, "DCT"@, i) by {
        if occurs_at("DWT"@, "DCT"@, i) {
            assert(i == 0);
            assert("DWT"@.subrange(0, 3)[1] == 'W');
        }
    }
}

/// The wavelet codec never takes a payload longer than the capacity of the
/// grid: one bit more than the capacity is refused. A payload as long as the
/// capacity is accepted where both sides of the grid are powers of two and
/// the capacity does not exceed the number of coefficient positions.
pub proof fn lemma_wavelet_capacity_is_limit<T>(g: GridView<T>)
    ensures
        capacity_of(g.cols, g.rows(), "DWT"@) == Some(wavelet_capacity(g.cols, g.rows())),
        !wavelet_admits(g, wavelet_capacity(g.cols, g.rows()) + 1),
        forall|bits: nat| #[trigger]
            wavelet_admits(g, bits) ==> bits <= wavelet_capacity(g.cols, g.rows()),
        is_power_of_two(g.rows()) && is_power_of_two(g.cols) && wavelet_capacity(
            g.cols,
            g.rows(),
        ) <= high_freq_positions(g.rows() as int, g.cols as int).len() ==> wavelet_admits(
            g,
            wavelet_capacity(g.cols, g.rows()),
        ),
{
    lemma_wavelet_tag();
}

/// On a grid with sides up to 8 there is a coefficient position for every
/// bit of the capacity.
pub proof fn lemma_small_grid_has_room(rows: nat, cols: nat)
    requires
        rows <= 8,
        cols <= 8,
    ensures
        wavelet_capacity(cols, rows) <= high_freq_positions(rows as int, cols as int).len(),
{
    let half_rows = rows as int / 2;
    let half_cols = cols as int / 2;
    let tall = rows - half_rows;
    let wide = cols - half_cols;
    assert(pad_even(rows) == 2 * tall);
    assert(pad_even(cols) == 2 * wide);
    lemma_quarter(wide as nat, tall as nat);
    let first = window(half_rows, rows as int, half_cols, cols as int);
    assert(least(rows as int, half_rows + 4) == rows);
    assert(least(cols as int, half_cols + 4) == cols);
    if tall > 0 && wide > 0 {
        assert(first.len() == tall * wide);
        assert(wide * tall == tall * wide) by (nonlinear_arith);
    } else {
        assert(wide * tall == 0) by (nonlinear_arith)
            requires
                tall == 0 || wide == 0,
        ;
    }
}

/// On a grid whose sides are powers of two up to 8, the wavelet codec
/// accepts a payload exactly as long as the capacity and refuses one bit
/// more.
pub proof fn lemma_wavelet_capacity_is_limit_on_small_grids<T>(g: GridView<T>)
    requires
        is_power_of_two(g.rows()),
        is_power_of_two(g.cols),
        g.rows() <= 8,
        g.cols <= 8,
    ensures
        wavelet_admits(g, wavelet_capacity(g.cols, g.rows())),
        !wavelet_admits(g, wavelet_capacity(g.cols, g.rows()) + 1),
{
    lemma_small_grid_has_room(g.rows(), g.cols);
}

} // verus!
