//! Wavelet codec: payload bits carried by the signs of high-frequency Haar
//! coefficients.
//!
//! The codec owns the layout: which samples are paired at every level, which
//! coefficients carry the bits, and the shape and capacity rules. The
//! arithmetic of a pair and the change of a coefficient are done by kernels
//! that the caller supplies.
use vstd::prelude::*;
use vstd::string::StringExecFns;
use crate::capacity::{wavelet_capacity, wide_wavelet_capacity};
use crate::error::WatermarkError;
use crate::grid::{Grid, GridView};
use crate::layout::{lemma_position_split, lemma_tile_below, lemma_tile_position};

verus! {

/// Decomposition levels unless configured otherwise.
pub const DEFAULT_LEVELS: usize = 1;

/// Side of the window of coefficients used in each sub-band.
pub const WINDOW: usize = 4;

/// `n` is 1, 2, 4, 8, ...
pub open spec fn is_power_of_two(n: nat) -> bool
    decreases n,
{
    n == 1 || (n > 1 && n % 2 == 0 && is_power_of_two(n / 2))
}

/// The smaller of two numbers.
pub open spec fn least(a: int, b: int) -> int {
    if a < b {
        a
    } else {
        b
    }
}

/// The positions `(r, c)` with `r0 <= r < r1` and `c0 <= c < c1`, row by row.
pub open spec fn window(r0: int, r1: int, c0: int, c1: int) -> Seq<(usize, usize)> {
    if r1 <= r0 || c1 <= c0 {
        Seq::empty()
    } else {
        Seq::new(
            ((r1 - r0) * (c1 - c0)) as nat,
            |k: int| ((r0 + k / (c1 - c0)) as usize, (c0 + k % (c1 - c0)) as usize),
        )
    }
}

/// The coefficients that carry the payload in a `rows` by `cols` grid: a
/// window at the corner of each high-frequency sub-band next to the
/// low-frequency quadrant, first the diagonal one, then the one to the right
/// of the quadrant, then the one below it.
pub open spec fn high_freq_positions(rows: int, cols: int) -> Seq<(usize, usize)> {
    let half_rows = rows / 2;
    let half_cols = cols / 2;
    let low = least(rows, half_rows + 4);
    let right = least(cols, half_cols + 4);
    window(half_rows, low, half_cols, right) + window(0, least(half_rows, 4), half_cols, right)
        + window(half_rows, low, 0, least(half_cols, 4))
}

/// Every position of a window lies inside its bounds, and a window holds no
/// more than its area.
pub proof fn lemma_window(r0: int, r1: int, c0: int, c1: int, k: int)
    requires
        0 <= r0,
        0 <= c0,
        r1 <= usize::MAX,
        c1 <= usize::MAX,
        0 <= k < window(r0, r1, c0, c1).len(),
    ensures
        r0 <= window(r0, r1, c0, c1)[k].0 < r1,
        c0 <= window(r0, r1, c0, c1)[k].1 < c1,
{
    let w = c1 - c0;
    let h = r1 - r0;
    assert(0 <= k / w < h && 0 <= k % w < w) by (nonlinear_arith)
        requires
            0 <= k < h * w,
            w > 0,
            h > 0,
    ;
}

/// What the codec asks of a pairing kernel: it accepts any two samples.
pub open spec fn pair_kernel<T, P: Fn(T, T) -> (T, T)>(kernel: P) -> bool {
    forall|a: T, b: T| #[trigger] call_requires(kernel, (a, b))
}

/// Pair `i` of a line went through the kernel. Forward, the neighbours
/// `2i` and `2i + 1` of the input give the low coefficient at `i` and the
/// high one at `half + i`; backward, the coefficients at `i` and `half + i`
/// give the neighbours `2i` and `2i + 1`.
pub open spec fn pair_at<T, P: Fn(T, T) -> (T, T)>(
    kernel: P,
    forward: bool,
    input: Seq<T>,
    output: Seq<T>,
    i: int,
) -> bool {
    let half = input.len() / 2;
    if forward {
        call_ensures(kernel, (input[2 * i], input[2 * i + 1]), (output[i], output[half + i]))
    } else {
        call_ensures(kernel, (input[i], input[half + i]), (output[2 * i], output[2 * i + 1]))
    }
}

/// `output` is a one-dimensional Haar step of `input`: every pair went
/// through the kernel. A line whose length is below 2 or no power of two is
/// left as it is.
pub open spec fn line_rel<T, P: Fn(T, T) -> (T, T)>(
    kernel: P,
    forward: bool,
    input: Seq<T>,
    output: Seq<T>,
) -> bool {
    &&& output.len() == input.len()
    &&& if input.len() < 2 || !is_power_of_two(input.len()) {
        output == input
    } else {
        forall|i: int|
            0 <= i < input.len() / 2 ==> #[trigger] pair_at(kernel, forward, input, output, i)
    }
}

/// Row `r` after a step along the rows of the top-left `rows` by `cols`
/// region: inside the region the first `cols` samples are transformed, the
/// rest of the row and the rows below the region are unchanged.
pub open spec fn row_rel<T, P: Fn(T, T) -> (T, T)>(
    kernel: P,
    forward: bool,
    rows: nat,
    cols: nat,
    before: Seq<T>,
    after: Seq<T>,
    r: int,
) -> bool {
    if r < rows {
        &&& after.len() == before.len()
        &&& line_rel(kernel, forward, before.take(cols as int), after.take(cols as int))
        &&& after.skip(cols as int) == before.skip(cols as int)
    } else {
        after == before
    }
}

/// `after` is `before` with a step along every row of the region.
pub open spec fn rows_rel<T, P: Fn(T, T) -> (T, T)>(
    kernel: P,
    forward: bool,
    rows: nat,
    cols: nat,
    before: GridView<T>,
    after: GridView<T>,
) -> bool {
    &&& after.wf()
    &&& after.same_shape(before)
    &&& forall|r: int|
        0 <= r < before.rows() ==> row_rel(
            kernel,
            forward,
            rows,
            cols,
            before.lines[r],
            #[trigger] after.lines[r],
            r,
        )
}

/// The first `rows` samples of column `c`.
pub open spec fn column<T>(g: GridView<T>, c: int, rows: nat) -> Seq<T> {
    Seq::new(rows, |r: int| g.lines[r][c])
}

/// Column `c` of the region went through a step.
pub open spec fn col_rel<T, P: Fn(T, T) -> (T, T)>(
    kernel: P,
    forward: bool,
    rows: nat,
    before: GridView<T>,
    after: GridView<T>,
    c: int,
) -> bool {
    line_rel(kernel, forward, column(before, c, rows), column(after, c, rows))
}

/// `after` is `before` with a step along every column of the region; the
/// samples outside the region are unchanged.
pub open spec fn cols_rel<T, P: Fn(T, T) -> (T, T)>(
    kernel: P,
    forward: bool,
    rows: nat,
    cols: nat,
    before: GridView<T>,
    after: GridView<T>,
) -> bool {
    &&& after.wf()
    &&& after.same_shape(before)
    &&& forall|c: int| 0 <= c < cols ==> #[trigger] col_rel(kernel, forward, rows, before, after, c)
    &&& forall|r: int, c: int|
        0 <= r < before.rows() && 0 <= c < before.cols && (r >= rows || c >= cols)
            ==> #[trigger] after.lines[r][c] == before.lines[r][c]
}

/// One two-dimensional step on the region: forward along the rows and then
/// along the columns, backward along the columns and then along the rows.
pub open spec fn step_rel<T, P: Fn(T, T) -> (T, T)>(
    kernel: P,
    forward: bool,
    rows: nat,
    cols: nat,
    before: GridView<T>,
    after: GridView<T>,
) -> bool {
    exists|mid: GridView<T>|
        {
            &&& mid.wf()
            &&& #[trigger] mid.same_shape(before)
            &&& if forward {
                rows_rel(kernel, forward, rows, cols, before, mid) && cols_rel(
                    kernel,
                    forward,
                    rows,
                    cols,
                    mid,
                    after,
                )
            } else {
                cols_rel(kernel, forward, rows, cols, before, mid) && rows_rel(
                    kernel,
                    forward,
                    rows,
                    cols,
                    mid,
                    after,
                )
            }
        }
}

/// `after` is the decomposition of `before` over `levels` levels: a forward
/// step on the region, then the same on its top-left quarter, until the
/// levels are used up or a side of the region is below 2.
pub open spec fn decomposed<T, P: Fn(T, T) -> (T, T)>(
    pair: P,
    levels: nat,
    rows: nat,
    cols: nat,
    before: GridView<T>,
    after: GridView<T>,
) -> bool
    decreases levels,
{
    if levels == 0 || rows < 2 || cols < 2 {
        after == before
    } else {
        exists|mid: GridView<T>|
            {
                &&& mid.wf()
                &&& mid.same_shape(before)
                &&& #[trigger] step_rel(pair, true, rows, cols, before, mid)
                &&& decomposed(pair, (levels - 1) as nat, rows / 2, cols / 2, mid, after)
            }
    }
}

/// `after` is the reconstruction of `before` over `levels` levels: the
/// deeper levels first, then a backward step on the region unless a side of
/// it is below 2.
pub open spec fn recomposed<T, P: Fn(T, T) -> (T, T)>(
    unpair: P,
    levels: nat,
    rows: nat,
    cols: nat,
    before: GridView<T>,
    after: GridView<T>,
) -> bool
    decreases levels,
{
    if levels == 0 {
        after == before
    } else {
        exists|mid: GridView<T>|
            {
                &&& mid.wf()
                &&& #[trigger] mid.same_shape(before)
                &&& recomposed(unpair, (levels - 1) as nat, rows / 2, cols / 2, before, mid)
                &&& if rows < 2 || cols < 2 {
                    after == mid
                } else {
                    step_rel(unpair, false, rows, cols, mid, after)
                }
            }
    }
}

/// `adjust` may turn the coefficient of `g` at `position` into `value` when
/// asked to write `flag`.
pub open spec fn touched<T, A: Fn(T, bool) -> T>(
    adjust: A,
    g: GridView<T>,
    position: (usize, usize),
    flag: bool,
    value: T,
) -> bool {
    call_ensures(adjust, (g.at(position.0 as int, position.1 as int), flag), value)
}

/// `after` is `before` with the first `count` bits written, one after the
/// other: bit `i` goes to the coefficient at `positions[i]`, which the
/// kernel changes for the flag `bits[i] == 1`.
pub open spec fn adjusted<T, A: Fn(T, bool) -> T>(
    adjust: A,
    positions: Seq<(usize, usize)>,
    bits: Seq<u8>,
    count: nat,
    before: GridView<T>,
    after: GridView<T>,
) -> bool
    decreases count,
{
    if count == 0 {
        after == before
    } else {
        exists|prev: GridView<T>, value: T|
            {
                &&& adjusted(adjust, positions, bits, (count - 1) as nat, before, prev)
                &&& touched(adjust, prev, positions[count - 1], bits[count - 1] == 1, value)
                &&& after == #[trigger] prev.with(
                    positions[count - 1].0 as int,
                    positions[count - 1].1 as int,
                    value,
                )
            }
    }
}

/// `out` is `data` with the payload `bits` embedded: the grid is decomposed,
/// the bits are written to the high-frequency coefficients, and the result
/// is reconstructed.
pub open spec fn wavelet_embedded<
    T,
    P: Fn(T, T) -> (T, T),
    A: Fn(T, bool) -> T,
    U: Fn(T, T) -> (T, T),
>(
    data: GridView<T>,
    bits: Seq<u8>,
    levels: nat,
    pair: P,
    adjust: A,
    unpair: U,
    out: GridView<T>,
) -> bool {
    exists|coeffs: GridView<T>, marked: GridView<T>|
        {
            &&& decomposed(pair, levels, data.rows(), data.cols, data, coeffs)
            &&& #[trigger] adjusted(
                adjust,
                high_freq_positions(data.rows() as int, data.cols as int),
                bits,
                bits.len(),
                coeffs,
                marked,
            )
            &&& recomposed(unpair, levels, data.rows(), data.cols, marked, out)
        }
}

/// `bit` is what reading the coefficient of `g` at `position` may give: 1
/// when the kernel reports it non-negative, 0 otherwise.
pub open spec fn sign_read<T, S: Fn(T) -> bool>(
    sign: S,
    g: GridView<T>,
    position: (usize, usize),
    bit: u8,
) -> bool {
    &&& (bit == 0 || bit == 1)
    &&& call_ensures(sign, (g.at(position.0 as int, position.1 as int),), bit == 1)
}

/// `bits` is what extraction of `count` bits from `data` gives: the grid is
/// decomposed and bit `i` is read from the sign of the coefficient at
/// position `i`.
pub open spec fn wavelet_extracted<T, P: Fn(T, T) -> (T, T), S: Fn(T) -> bool>(
    data: GridView<T>,
    count: nat,
    levels: nat,
    pair: P,
    sign: S,
    bits: Seq<u8>,
) -> bool {
    &&& bits.len() == count
    &&& exists|coeffs: GridView<T>|
        {
            &&& #[trigger] decomposed(pair, levels, data.rows(), data.cols, data, coeffs)
            &&& forall|i: int|
                0 <= i < count ==> sign_read(
                    sign,
                    coeffs,
                    high_freq_positions(data.rows() as int, data.cols as int)[i],
                    #[trigger] bits[i],
                )
        }
}

/// A payload fits a grid under the wavelet codec when both sides of the
/// grid are powers of two, the payload is no longer than the capacity of the
/// grid, and there is a coefficient position for every bit.
pub open spec fn wavelet_admits<T>(g: GridView<T>, bits: nat) -> bool {
    &&& is_power_of_two(g.rows())
    &&& is_power_of_two(g.cols)
    &&& bits <= wavelet_capacity(g.cols, g.rows())
    &&& bits <= high_freq_positions(g.rows() as int, g.cols as int).len()
}

/// The second kernel undoes the first: whatever pair of samples the first
/// kernel may make of two samples, the second kernel makes the two samples of
/// it again.
pub open spec fn undoes<T, P: Fn(T, T) -> (T, T), U: Fn(T, T) -> (T, T)>(first: P, second: U) -> bool {
    forall|a: T, b: T, c: T, d: T, x: T, y: T|
        #[trigger] call_ensures(first, (a, b), (c, d)) && #[trigger] call_ensures(
            second,
            (c, d),
            (x, y),
        ) ==> x == a && y == b
}

/// A step along a line is undone by the step in the other direction.
pub proof fn lemma_line_undone<T, P: Fn(T, T) -> (T, T), U: Fn(T, T) -> (T, T)>(
    first: P,
    second: U,
    forward: bool,
    a: Seq<T>,
    b: Seq<T>,
    c: Seq<T>,
)
    requires
        undoes(first, second),
        line_rel(first, forward, a, b),
        line_rel(second, !forward, b, c),
    ensures
        c == a,
{
    if a.len() < 2 || !is_power_of_two(a.len()) {
    } else {
        let half = a.len() / 2;
        assert(a.len() == 2 * half);
        assert forall|j: int| 0 <= j < a.len() implies c[j] == a[j] by {
            let i = if forward {
                j / 2
            } else if j < half {
                j
            } else {
                j - half
            };
            assert(pair_at(first, forward, a, b, i));
            assert(pair_at(second, !forward, b, c, i));
        }
    }
    assert(c =~= a);
}

/// A step along the rows of a region is undone by the step in the other
/// direction.
pub proof fn lemma_rows_undone<T, P: Fn(T, T) -> (T, T), U: Fn(T, T) -> (T, T)>(
    first: P,
    second: U,
    forward: bool,
    rows: nat,
    cols: nat,
    a: GridView<T>,
    b: GridView<T>,
    c: GridView<T>,
)
    requires
        undoes(first, second),
        a.wf(),
        cols <= a.cols,
        rows_rel(first, forward, rows, cols, a, b),
        rows_rel(second, !forward, rows, cols, b, c),
    ensures
        c == a,
{
    assert forall|r: int| 0 <= r < a.rows() implies #[trigger] c.lines[r] == a.lines[r] by {
        let la = a.lines[r];
        let lb = b.lines[r];
        let lc = c.lines[r];
        assert(row_rel(first, forward, rows, cols, la, lb, r));
        assert(row_rel(second, !forward, rows, cols, lb, lc, r));
        if r < rows {
            lemma_line_undone(
                first,
                second,
                forward,
                la.take(cols as int),
                lb.take(cols as int),
                lc.take(cols as int),
            );
            assert(la =~= la.take(cols as int) + la.skip(cols as int));
            assert(lc =~= lc.take(cols as int) + lc.skip(cols as int));
        }
    }
    assert(c =~~= a);
}

/// A step along the columns of a region is undone by the step in the other
/// direction.
pub proof fn lemma_cols_undone<T, P: Fn(T, T) -> (T, T), U: Fn(T, T) -> (T, T)>(
    first: P,
    second: U,
    forward: bool,
    rows: nat,
    cols: nat,
    a: GridView<T>,
    b: GridView<T>,
    c: GridView<T>,
)
    requires
        undoes(first, second),
        a.wf(),
        rows <= a.rows(),
        cols <= a.cols,
        cols_rel(first, forward, rows, cols, a, b),
        cols_rel(second, !forward, rows, cols, b, c),
    ensures
        c == a,
{
    assert forall|r: int, q: int| 0 <= r < a.rows() && 0 <= q < a.cols implies #[trigger] c.lines[r][q]
        == a.lines[r][q] by {
        if r < rows && q < cols {
            assert(col_rel(first, forward, rows, a, b, q));
            assert(col_rel(second, !forward, rows, b, c, q));
            lemma_line_undone(
                first,
                second,
                forward,
                column(a, q, rows),
                column(b, q, rows),
                column(c, q, rows),
            );
            assert(column(c, q, rows)[r] == column(a, q, rows)[r]);
        } else {
            assert(b.lines[r][q] == a.lines[r][q]);
            assert(c.lines[r][q] == b.lines[r][q]);
        }
    }
    assert forall|r: int| 0 <= r < a.rows() implies #[trigger] c.lines[r] =~= a.lines[r] by {
        assert(c.lines[r].len() == a.lines[r].len());
    }
    assert(c =~~= a);
}

/// A step on a region is undone by the step in the other direction.
pub proof fn lemma_step_undone<T, P: Fn(T, T) -> (T, T), U: Fn(T, T) -> (T, T)>(
    first: P,
    second: U,
    forward: bool,
    rows: nat,
    cols: nat,
    a: GridView<T>,
    b: GridView<T>,
    c: GridView<T>,
)
    requires
        undoes(first, second),
        a.wf(),
        rows <= a.rows(),
        cols <= a.cols,
        step_rel(first, forward, rows, cols, a, b),
        step_rel(second, !forward, rows, cols, b, c),
    ensures
        c == a,
{
    let m1 = choose|mid: GridView<T>|
        {
            &&& mid.wf()
            &&& #[trigger] mid.same_shape(a)
            &&& if forward {
                rows_rel(first, forward, rows, cols, a, mid) && cols_rel(
                    first,
                    forward,
                    rows,
                    cols,
                    mid,
                    b,
                )
            } else {
                cols_rel(first, forward, rows, cols, a, mid) && rows_rel(
                    first,
                    forward,
                    rows,
                    cols,
                    mid,
                    b,
                )
            }
        };
    let m2 = choose|mid: GridView<T>|
        {
            &&& mid.wf()
            &&& #[trigger] mid.same_shape(b)
            &&& if !forward {
                rows_rel(second, !forward, rows, cols, b, mid) && cols_rel(
                    second,
                    !forward,
                    rows,
                    cols,
                    mid,
                    c,
                )
            } else {
                cols_rel(second, !forward, rows, cols, b, mid) && rows_rel(
                    second,
                    !forward,
                    rows,
                    cols,
                    mid,
                    c,
                )
            }
        };
    if forward {
        lemma_cols_undone(first, second, forward, rows, cols, m1, b, m2);
        lemma_rows_undone(first, second, forward, rows, cols, a, m1, c);
    } else {
        lemma_rows_undone(first, second, forward, rows, cols, m1, b, m2);
        lemma_cols_undone(first, second, forward, rows, cols, a, m1, c);
    }
}

/// A step keeps the shape of a grid.
pub proof fn lemma_step_shape<T, P: Fn(T, T) -> (T, T)>(
    kernel: P,
    forward: bool,
    rows: nat,
    cols: nat,
    a: GridView<T>,
    b: GridView<T>,
)
    requires
        step_rel(kernel, forward, rows, cols, a, b),
    ensures
        b.wf(),
        b.same_shape(a),
{
    let mid = choose|mid: GridView<T>|
        {
            &&& mid.wf()
            &&& #[trigger] mid.same_shape(a)
            &&& if forward {
                rows_rel(kernel, forward, rows, cols, a, mid) && cols_rel(
                    kernel,
                    forward,
                    rows,
                    cols,
                    mid,
                    b,
                )
            } else {
                cols_rel(kernel, forward, rows, cols, a, mid) && rows_rel(
                    kernel,
                    forward,
                    rows,
                    cols,
                    mid,
                    b,
                )
            }
        };
}

/// Decomposition keeps the shape of a grid.
pub proof fn lemma_decomposed_shape<T, P: Fn(T, T) -> (T, T)>(
    pair: P,
    levels: nat,
    rows: nat,
    cols: nat,
    a: GridView<T>,
    b: GridView<T>,
)
    requires
        a.wf(),
        decomposed(pair, levels, rows, cols, a, b),
    ensures
        b.wf(),
        b.same_shape(a),
    decreases levels,
{
    if !(levels == 0 || rows < 2 || cols < 2) {
        let mid = choose|mid: GridView<T>|
            {
                &&& mid.wf()
                &&& mid.same_shape(a)
                &&& #[trigger] step_rel(pair, true, rows, cols, a, mid)
                &&& decomposed(pair, (levels - 1) as nat, rows / 2, cols / 2, mid, b)
            };
        lemma_decomposed_shape(pair, (levels - 1) as nat, rows / 2, cols / 2, mid, b);
    }
}

/// Reconstruction keeps the shape of a grid.
pub proof fn lemma_recomposed_shape<T, U: Fn(T, T) -> (T, T)>(
    unpair: U,
    levels: nat,
    rows: nat,
    cols: nat,
    a: GridView<T>,
    b: GridView<T>,
)
    requires
        a.wf(),
        recomposed(unpair, levels, rows, cols, a, b),
    ensures
        b.wf(),
        b.same_shape(a),
{
    if levels > 0 {
        let mid = choose|mid: GridView<T>|
            {
                &&& mid.wf()
                &&& #[trigger] mid.same_shape(a)
                &&& recomposed(unpair, (levels - 1) as nat, rows / 2, cols / 2, a, mid)
                &&& if rows < 2 || cols < 2 {
                    b == mid
                } else {
                    step_rel(unpair, false, rows, cols, mid, b)
                }
            };
        if !(rows < 2 || cols < 2) {
            lemma_step_shape(unpair, false, rows, cols, mid, b);
        }
    }
}

/// Reconstruction leaves a region with a side below 2 as it is.
pub proof fn lemma_small_region_kept<T, U: Fn(T, T) -> (T, T)>(
    unpair: U,
    levels: nat,
    rows: nat,
    cols: nat,
    a: GridView<T>,
    b: GridView<T>,
)
    requires
        rows < 2 || cols < 2,
        recomposed(unpair, levels, rows, cols, a, b),
    ensures
        b == a,
    decreases levels,
{
    if levels > 0 {
        let mid = choose|mid: GridView<T>|
            {
                &&& mid.wf()
                &&& #[trigger] mid.same_shape(a)
                &&& recomposed(unpair, (levels - 1) as nat, rows / 2, cols / 2, a, mid)
                &&& if rows < 2 || cols < 2 {
                    b == mid
                } else {
                    step_rel(unpair, false, rows, cols, mid, b)
                }
            };
        lemma_small_region_kept(unpair, (levels - 1) as nat, rows / 2, cols / 2, a, mid);
    }
}

/// Reconstruction undoes decomposition: with kernels of which the second
/// undoes the first, decomposing a grid over any number of levels and
/// reconstructing the result over the same levels gives the grid back.
pub proof fn lemma_reconstruction_undoes_decomposition<
    T,
    P: Fn(T, T) -> (T, T),
    U: Fn(T, T) -> (T, T),
>(
    pair: P,
    unpair: U,
    levels: nat,
    rows: nat,
    cols: nat,
    a: GridView<T>,
    z: GridView<T>,
    b: GridView<T>,
)
    requires
        undoes(pair, unpair),
        a.wf(),
        rows <= a.rows(),
        cols <= a.cols,
        decomposed(pair, levels, rows, cols, a, z),
        recomposed(unpair, levels, rows, cols, z, b),
    ensures
        b == a,
    decreases levels,
{
    if levels > 0 {
        let back = choose|mid: GridView<T>|
            {
                &&& mid.wf()
                &&& #[trigger] mid.same_shape(z)
                &&& recomposed(unpair, (levels - 1) as nat, rows / 2, cols / 2, z, mid)
                &&& if rows < 2 || cols < 2 {
                    b == mid
                } else {
                    step_rel(unpair, false, rows, cols, mid, b)
                }
            };
        if rows < 2 || cols < 2 {
            lemma_small_region_kept(unpair, (levels - 1) as nat, rows / 2, cols / 2, z, back);
        } else {
            let there = choose|mid: GridView<T>|
                {
                    &&& mid.wf()
                    &&& mid.same_shape(a)
                    &&& #[trigger] step_rel(pair, true, rows, cols, a, mid)
                    &&& decomposed(pair, (levels - 1) as nat, rows / 2, cols / 2, mid, z)
                };
            lemma_reconstruction_undoes_decomposition(
                pair,
                unpair,
                (levels - 1) as nat,
                rows / 2,
                cols / 2,
                there,
                z,
                back,
            );
            lemma_step_undone(pair, unpair, true, rows, cols, a, there, b);
        }
    }
}

/// Decomposition undoes reconstruction: with kernels of which the first
/// undoes the second, reconstructing a grid of coefficients and decomposing
/// the result over the same levels gives the coefficients back.
pub proof fn lemma_decomposition_undoes_reconstruction<
    T,
    P: Fn(T, T) -> (T, T),
    U: Fn(T, T) -> (T, T),
>(
    pair: P,
    unpair: U,
    levels: nat,
    rows: nat,
    cols: nat,
    x: GridView<T>,
    y: GridView<T>,
    z: GridView<T>,
)
    requires
        undoes(unpair, pair),
        x.wf(),
        rows <= x.rows(),
        cols <= x.cols,
        recomposed(unpair, levels, rows, cols, x, y),
        decomposed(pair, levels, rows, cols, y, z),
    ensures
        z == x,
    decreases levels,
{
    if levels > 0 {
        let back = choose|mid: GridView<T>|
            {
                &&& mid.wf()
                &&& #[trigger] mid.same_shape(x)
                &&& recomposed(unpair, (levels - 1) as nat, rows / 2, cols / 2, x, mid)
                &&& if rows < 2 || cols < 2 {
                    y == mid
                } else {
                    step_rel(unpair, false, rows, cols, mid, y)
                }
            };
        if rows < 2 || cols < 2 {
            lemma_small_region_kept(unpair, (levels - 1) as nat, rows / 2, cols / 2, x, back);
        } else {
            let there = choose|mid: GridView<T>|
                {
                    &&& mid.wf()
                    &&& mid.same_shape(y)
                    &&& #[trigger] step_rel(pair, true, rows, cols, y, mid)
                    &&& decomposed(pair, (levels - 1) as nat, rows / 2, cols / 2, mid, z)
                };
            lemma_step_undone(unpair, pair, false, rows, cols, back, y, there);
            lemma_decomposition_undoes_reconstruction(
                pair,
                unpair,
                (levels - 1) as nat,
                rows / 2,
                cols / 2,
                x,
                back,
                z,
            );
        }
    }
}

/// The positions of a window differ from each other.
pub proof fn lemma_window_distinct(r0: int, r1: int, c0: int, c1: int, i: int, j: int)
    requires
        0 <= r0,
        0 <= c0,
        r1 <= usize::MAX,
        c1 <= usize::MAX,
        0 <= i < j < window(r0, r1, c0, c1).len(),
    ensures
        window(r0, r1, c0, c1)[i] != window(r0, r1, c0, c1)[j],
{
    let w = c1 - c0;
    let h = r1 - r0;
    lemma_position_split(i, w);
    lemma_position_split(j, w);
    lemma_tile_below(i, h, w);
    lemma_tile_below(j, h, w);
    let a = window(r0, r1, c0, c1)[i];
    let b = window(r0, r1, c0, c1)[j];
    assert(a.0 == r0 + i / w && a.1 == c0 + i % w);
    assert(b.0 == r0 + j / w && b.1 == c0 + j % w);
    if i / w == j / w && i % w == j % w {
        assert(i == j);
    }
}

/// Every coefficient position lies inside the grid and outside its
/// low-frequency quadrant, and no two positions are the same.
#[verifier::rlimit(40)]
pub proof fn lemma_positions(rows: int, cols: int, i: int, j: int)
    requires
        0 <= rows <= usize::MAX,
        0 <= cols <= usize::MAX,
        0 <= i < high_freq_positions(rows, cols).len(),
        0 <= j < high_freq_positions(rows, cols).len(),
    ensures
        high_freq_positions(rows, cols)[i].0 < rows,
        high_freq_positions(rows, cols)[i].1 < cols,
        high_freq_positions(rows, cols)[i].0 >= rows / 2 || high_freq_positions(rows, cols)[i].1
            >= cols / 2,
        i != j ==> high_freq_positions(rows, cols)[i] != high_freq_positions(rows, cols)[j],
{
    let half_rows = rows / 2;
    let half_cols = cols / 2;
    let low = least(rows, half_rows + 4);
    let right = least(cols, half_cols + 4);
    let top = least(half_rows, 4);
    let left = least(half_cols, 4);
    let a = window(half_rows, low, half_cols, right);
    let b = window(0, top, half_cols, right);
    let c = window(half_rows, low, 0, left);
    assert(high_freq_positions(rows, cols) =~= a + b + c);
    if i < a.len() {
        lemma_window(half_rows, low, half_cols, right, i);
    } else if i < a.len() + b.len() {
        lemma_window(0, top, half_cols, right, i - a.len());
    } else {
        lemma_window(half_rows, low, 0, left, i - a.len() - b.len());
    }
    if j < a.len() {
        lemma_window(half_rows, low, half_cols, right, j);
    } else if j < a.len() + b.len() {
        lemma_window(0, top, half_cols, right, j - a.len());
    } else {
        lemma_window(half_rows, low, 0, left, j - a.len() - b.len());
    }
    if i != j {
        let (x, y) = if i < j {
            (i, j)
        } else {
            (j, i)
        };
        if y < a.len() {
            lemma_window_distinct(half_rows, low, half_cols, right, x, y);
        } else if x >= a.len() && y < a.len() + b.len() {
            lemma_window_distinct(0, top, half_cols, right, x - a.len(), y - a.len());
        } else if x >= a.len() + b.len() {
            lemma_window_distinct(
                half_rows,
                low,
                0,
                left,
                x - a.len() - b.len(),
                y - a.len() - b.len(),
            );
        }
    }
}

/// `adjust` may have made `value` when asked to write `flag` to `coeff`.
pub open spec fn set_by<T, A: Fn(T, bool) -> T>(adjust: A, coeff: T, flag: bool, value: T) -> bool {
    call_ensures(adjust, (coeff, flag), value)
}

/// The coefficient of `g` at position `i` is what the kernel made when it
/// wrote bit `i`.
pub open spec fn written<T, A: Fn(T, bool) -> T>(
    adjust: A,
    positions: Seq<(usize, usize)>,
    bits: Seq<u8>,
    g: GridView<T>,
    i: int,
) -> bool {
    let flag = bits[i] == 1;
    let value = g.at(positions[i].0 as int, positions[i].1 as int);
    exists|coeff: T| #[trigger] set_by(adjust, coeff, flag, value)
}

/// After the bits have been written to positions that differ from each
/// other, every position holds what the kernel made for its bit.
pub proof fn lemma_adjusted_cells<T, A: Fn(T, bool) -> T>(
    adjust: A,
    positions: Seq<(usize, usize)>,
    bits: Seq<u8>,
    count: nat,
    before: GridView<T>,
    after: GridView<T>,
)
    requires
        before.wf(),
        count <= positions.len(),
        count <= bits.len(),
        forall|k: int|
            0 <= k < positions.len() ==> (#[trigger] positions[k]).0 < before.rows()
                && positions[k].1 < before.cols,
        forall|i: int, j: int|
            0 <= i < count && 0 <= j < count && i != j ==> #[trigger] positions[i]
                != #[trigger] positions[j],
        adjusted(adjust, positions, bits, count, before, after),
    ensures
        after.wf(),
        after.same_shape(before),
        forall|i: int| 0 <= i < count ==> #[trigger] written(adjust, positions, bits, after, i),
    decreases count,
{
    if count > 0 {
        let (prev, value) = choose|prev: GridView<T>, value: T|
            {
                &&& adjusted(adjust, positions, bits, (count - 1) as nat, before, prev)
                &&& touched(adjust, prev, positions[count - 1], bits[count - 1] == 1, value)
                &&& after == #[trigger] prev.with(
                    positions[count - 1].0 as int,
                    positions[count - 1].1 as int,
                    value,
                )
            };
        lemma_adjusted_cells(adjust, positions, bits, (count - 1) as nat, before, prev);
        let last = positions[count - 1];
        assert(last.0 < before.rows() && last.1 < before.cols);
        assert forall|i: int| 0 <= i < count implies #[trigger] written(
            adjust,
            positions,
            bits,
            after,
            i,
        ) by {
            let p = positions[i];
            assert(p.0 < before.rows() && p.1 < before.cols);
            if i < count - 1 {
                assert(p != last);
                assert(written(adjust, positions, bits, prev, i));
                assert(after.at(p.0 as int, p.1 as int) == prev.at(p.0 as int, p.1 as int));
            } else {
                let flag = bits[i] == 1;
                assert(after.at(p.0 as int, p.1 as int) == value);
                assert(set_by(adjust, prev.at(p.0 as int, p.1 as int), flag, value));
            }
        }
    }
}

/// The reader recovers from every coefficient that the adjusting kernel
/// made the flag that was written to it.
pub open spec fn reads_back<T, A: Fn(T, bool) -> T, S: Fn(T) -> bool>(adjust: A, sign: S) -> bool {
    forall|c: T, f: bool, v: T, g: bool|
        #[trigger] call_ensures(adjust, (c, f), v) && #[trigger] call_ensures(sign, (v,), g) ==> g
            == f
}

/// Extraction returns the embedded payload: for a grid that admits the
/// payload, a payload of bits 0 and 1, pairing kernels that undo each other,
/// and a reader that recovers from every adjusted coefficient the flag
/// written to it, reading `bits.len()` bits from the result of embedding
/// `bits` gives `bits` again.
pub proof fn lemma_wavelet_extract_recovers_embedded<
    T,
    P: Fn(T, T) -> (T, T),
    A: Fn(T, bool) -> T,
    U: Fn(T, T) -> (T, T),
    S: Fn(T) -> bool,
>(
    data: GridView<T>,
    bits: Seq<u8>,
    levels: nat,
    pair: P,
    adjust: A,
    unpair: U,
    sign: S,
    out: GridView<T>,
    read: Seq<u8>,
)
    requires
        data.wf(),
        data.rows() <= usize::MAX,
        data.cols <= usize::MAX,
        wavelet_admits(data, bits.len()),
        forall|k: int| 0 <= k < bits.len() ==> (#[trigger] bits[k]) == 0 || bits[k] == 1,
        undoes(unpair, pair),
        reads_back(adjust, sign),
        wavelet_embedded(data, bits, levels, pair, adjust, unpair, out),
        wavelet_extracted(out, bits.len(), levels, pair, sign, read),
    ensures
        read == bits,
{
    let positions = high_freq_positions(data.rows() as int, data.cols as int);
    let (coeffs, marked) = choose|coeffs: GridView<T>, marked: GridView<T>|
        {
            &&& decomposed(pair, levels, data.rows(), data.cols, data, coeffs)
            &&& #[trigger] adjusted(adjust, positions, bits, bits.len(), coeffs, marked)
            &&& recomposed(unpair, levels, data.rows(), data.cols, marked, out)
        };
    lemma_decomposed_shape(pair, levels, data.rows(), data.cols, data, coeffs);
    assert forall|k: int| 0 <= k < positions.len() implies (#[trigger] positions[k]).0
        < coeffs.rows() && positions[k].1 < coeffs.cols by {
        lemma_positions(data.rows() as int, data.cols as int, k, k);
    }
    assert forall|i: int, j: int|
        0 <= i < bits.len() && 0 <= j < bits.len() && i != j implies #[trigger] positions[i]
        != #[trigger] positions[j] by {
        lemma_positions(data.rows() as int, data.cols as int, i, j);
    }
    lemma_adjusted_cells(adjust, positions, bits, bits.len(), coeffs, marked);
    lemma_recomposed_shape(unpair, levels, data.rows(), data.cols, marked, out);
    let again = choose|again: GridView<T>|
        {
            &&& #[trigger] decomposed(pair, levels, out.rows(), out.cols, out, again)
            &&& forall|i: int|
                0 <= i < bits.len() ==> sign_read(
                    sign,
                    again,
                    high_freq_positions(out.rows() as int, out.cols as int)[i],
                    #[trigger] read[i],
                )
        };
    lemma_decomposition_undoes_reconstruction(
        pair,
        unpair,
        levels,
        data.rows(),
        data.cols,
        marked,
        out,
        again,
    );
    assert forall|i: int| 0 <= i < bits.len() implies read[i] == bits[i] by {
        let p = positions[i];
        assert(sign_read(sign, marked, p, read[i]));
        assert(written(adjust, positions, bits, marked, i));
        let put = bits[i] == 1;
        let got = read[i] == 1;
        let value = marked.at(p.0 as int, p.1 as int);
        let coeff = choose|coeff: T| #[trigger] set_by(adjust, coeff, put, value);
        assert(call_ensures(adjust, (coeff, put), value));
        assert(call_ensures(sign, (value,), got));
        assert(got == put);
    }
    assert(read =~= bits);
}

/// The wavelet watermark codec.
pub struct DwtWatermark {
    levels: usize,
}

impl DwtWatermark {
    /// Number of decomposition levels.
    pub closed spec fn spec_levels(&self) -> nat {
        self.levels as nat
    }

    /// A codec with one decomposition level.
    pub fn new() -> (codec: Self)
        ensures
            codec.spec_levels() == DEFAULT_LEVELS,
    {
        DwtWatermark { levels: DEFAULT_LEVELS }
    }

    /// The same codec with another number of levels.
    pub fn with_levels(self, levels: usize) -> (codec: Self)
        ensures
            codec.spec_levels() == levels,
    {
        DwtWatermark { levels }
    }

    /// Number of decomposition levels.
    pub fn levels(&self) -> (levels: usize)
        ensures
            levels == self.spec_levels(),
    {
        self.levels
    }

    /// Name by which the codec is selected.
    pub fn name(&self) -> (tag: &'static str)
        ensures
            tag@ == "DWT"@,
    {
        "DWT"
    }

    /// Tells whether `n` is a power of two.
    pub fn power_of_two(n: usize) -> (yes: bool)
        ensures
            yes == is_power_of_two(n as nat),
    {
        if n == 0 {
            return false;
        }
        let mut m = n;
        while m % 2 == 0
            invariant
                m >= 1,
                is_power_of_two(m as nat) == is_power_of_two(n as nat),
            decreases m,
        {
            m = m / 2;
        }
        m == 1
    }

    /// Appends the positions of a window to `positions`.
    #[verifier::rlimit(40)]
    fn push_window(
        positions: &mut Vec<(usize, usize)>,
        r0: usize,
        r1: usize,
        c0: usize,
        c1: usize,
    )
        ensures
            final(positions)@ == old(positions)@ + window(
                r0 as int,
                r1 as int,
                c0 as int,
                c1 as int,
            ),
    {
        let ghost base = positions@;
        if r1 <= r0 || c1 <= c0 {
            assert(positions@ =~= base + window(r0 as int, r1 as int, c0 as int, c1 as int));
            return ;
        }
        let ghost w = c1 - c0;
        let ghost all = window(r0 as int, r1 as int, c0 as int, c1 as int);
        let mut i: usize = r0;
        assert((i - r0) * w == 0) by (nonlinear_arith)
            requires
                i == r0,
        ;
        while i < r1
            invariant
                r0 <= i <= r1,
                c0 < c1,
                r0 < r1,
                w == c1 - c0,
                all == window(r0 as int, r1 as int, c0 as int, c1 as int),
                positions@.len() == base.len() + (i - r0) * w,
                forall|k: int| 0 <= k < base.len() ==> positions@[k] == base[k],
                forall|k: int|
                    0 <= k < (i - r0) * w ==> positions@[base.len() + k] == all[k],
            decreases r1 - i,
        {
            let mut j: usize = c0;
            while j < c1
                invariant
                    r0 <= i < r1,
                    c0 <= j <= c1,
                    c0 < c1,
                    w == c1 - c0,
                    all == window(r0 as int, r1 as int, c0 as int, c1 as int),
                    positions@.len() == base.len() + (i - r0) * w + (j - c0),
                    forall|k: int| 0 <= k < base.len() ==> positions@[k] == base[k],
                    forall|k: int|
                        0 <= k < (i - r0) * w + (j - c0) ==> positions@[base.len() + k] == all[k],
                decreases c1 - j,
            {
                proof {
                    lemma_tile_position((i - r0) as int, (j - c0) as int, w);
                    assert((i - r0) * w + (j - c0) < (r1 - r0) * w) by (nonlinear_arith)
                        requires
                            0 <= i - r0 < r1 - r0,
                            0 <= j - c0 < w,
                    ;
                }
                positions.push((i, j));
                j += 1;
            }
            proof {
                assert((i - r0) * w + w == (i + 1 - r0) * w) by (nonlinear_arith);
            }
            i += 1;
        }
        assert(positions@ =~= base + all);
    }

    /// The coefficients that carry the payload in a `rows` by `cols` grid.
    /// All of them lie inside the grid and outside its low-frequency
    /// quadrant.
    #[verifier::rlimit(40)]
    pub fn get_high_freq_positions(&self, rows: usize, cols: usize) -> (positions: Vec<
        (usize, usize),
    >)
        ensures
            positions@ == high_freq_positions(rows as int, cols as int),
            positions@.len() <= 3 * WINDOW * WINDOW,
            forall|k: int|
                0 <= k < positions@.len() ==> {
                    &&& (#[trigger] positions@[k]).0 < rows
                    &&& positions@[k].1 < cols
                    &&& (positions@[k].0 >= rows / 2 || positions@[k].1 >= cols / 2)
                },
    {
        let half_rows = rows / 2;
        let half_cols = cols / 2;
        let low = if rows - half_rows > WINDOW {
            half_rows + WINDOW
        } else {
            rows
        };
        let right = if cols - half_cols > WINDOW {
            half_cols + WINDOW
        } else {
            cols
        };
        let top = if half_rows < WINDOW {
            half_rows
        } else {
            WINDOW
        };
        let left = if half_cols < WINDOW {
            half_cols
        } else {
            WINDOW
        };
        let mut positions: Vec<(usize, usize)> = Vec::new();
        Self::push_window(&mut positions, half_rows, low, half_cols, right);
        Self::push_window(&mut positions, 0, top, half_cols, right);
        Self::push_window(&mut positions, half_rows, low, 0, left);
        proof {
            let a = window(half_rows as int, low as int, half_cols as int, right as int);
            let b = window(0, top as int, half_cols as int, right as int);
            let c = window(half_rows as int, low as int, 0, left as int);
            assert(positions@ =~= a + b + c);
            assert(positions@ == high_freq_positions(rows as int, cols as int));
            lemma_window_size(half_rows as int, low as int, half_cols as int, right as int);
            lemma_window_size(0, top as int, half_cols as int, right as int);
            lemma_window_size(half_rows as int, low as int, 0, left as int);
            assert forall|k: int| 0 <= k < positions@.len() implies {
                &&& (#[trigger] positions@[k]).0 < rows
                &&& positions@[k].1 < cols
                &&& (positions@[k].0 >= rows / 2 || positions@[k].1 >= cols / 2)
            } by {
                lemma_positions(rows as int, cols as int, k, k);
            }
        }
        positions
    }

    /// One Haar step along a line.
    #[verifier::rlimit(40)]
    fn haar_line<T: Copy, P: Fn(T, T) -> (T, T)>(data: &Vec<T>, kernel: &P, forward: bool) -> (out:
        Vec<T>)
        requires
            pair_kernel(*kernel),
        ensures
            line_rel(*kernel, forward, data@, out@),
    {
        let n = data.len();
        if n < 2 || !Self::power_of_two(n) {
            let mut out: Vec<T> = Vec::new();
            let mut i: usize = 0;
            while i < n
                invariant
                    i <= n,
                    n == data@.len(),
                    out@.len() == i,
                    forall|q: int| 0 <= q < i ==> out@[q] == data@[q],
                decreases n - i,
            {
                out.push(data[i]);
                i += 1;
            }
            assert(out@ =~= data@);
            return out;
        }
        let half = n / 2;
        assert(n == 2 * half);
        if forward {
            let mut lows: Vec<T> = Vec::new();
            let mut highs: Vec<T> = Vec::new();
            let mut i: usize = 0;
            while i < half
                invariant
                    i <= half,
                    n == data@.len(),
                    n == 2 * half,
                    pair_kernel(*kernel),
                    lows@.len() == i,
                    highs@.len() == i,
                    forall|q: int|
                        0 <= q < i ==> call_ensures(
                            *kernel,
                            (data@[2 * q], data@[2 * q + 1]),
                            (#[trigger] lows@[q], highs@[q]),
                        ),
                decreases half - i,
            {
                let ghost old_lows = lows@;
                let ghost old_highs = highs@;
                let r = kernel(data[2 * i], data[2 * i + 1]);
                lows.push(r.0);
                highs.push(r.1);
                proof {
                    assert forall|q: int| 0 <= q < i + 1 implies call_ensures(
                        *kernel,
                        (data@[2 * q], data@[2 * q + 1]),
                        (#[trigger] lows@[q], highs@[q]),
                    ) by {
                        if q < i {
                            assert(call_ensures(
                                *kernel,
                                (data@[2 * q], data@[2 * q + 1]),
                                (old_lows[q], old_highs[q]),
                            ));
                        }
                    }
                }
                i += 1;
            }
            let mut out: Vec<T> = Vec::new();
            let mut j: usize = 0;
            while j < half
                invariant
                    j <= half,
                    lows@.len() == half,
                    out@.len() == j,
                    forall|q: int| 0 <= q < j ==> out@[q] == lows@[q],
                decreases half - j,
            {
                out.push(lows[j]);
                j += 1;
            }
            j = 0;
            while j < half
                invariant
                    j <= half,
                    lows@.len() == half,
                    highs@.len() == half,
                    out@.len() == half + j,
                    forall|q: int| 0 <= q < half ==> out@[q] == lows@[q],
                    forall|q: int| 0 <= q < j ==> out@[half + q] == highs@[q],
                decreases half - j,
            {
                out.push(highs[j]);
                j += 1;
            }
            proof {
                assert forall|q: int| 0 <= q < data@.len() / 2 implies #[trigger] pair_at(
                    *kernel,
                    forward,
                    data@,
                    out@,
                    q,
                ) by {
                    assert(call_ensures(
                        *kernel,
                        (data@[2 * q], data@[2 * q + 1]),
                        (lows@[q], highs@[q]),
                    ));
                    assert(out@[q] == lows@[q]);
                    assert(out@[half + q] == highs@[q]);
                }
            }
            out
        } else {
            let mut out: Vec<T> = Vec::new();
            let mut i: usize = 0;
            while i < half
                invariant
                    i <= half,
                    n == data@.len(),
                    n == 2 * half,
                    pair_kernel(*kernel),
                    out@.len() == 2 * i,
                    forall|q: int| 0 <= q < i ==> #[trigger] pair_at(*kernel, false, data@, out@, q),
                decreases half - i,
            {
                let ghost before = out@;
                let r = kernel(data[i], data[half + i]);
                out.push(r.0);
                out.push(r.1);
                proof {
                    assert forall|q: int| 0 <= q < i + 1 implies #[trigger] pair_at(
                        *kernel,
                        false,
                        data@,
                        out@,
                        q,
                    ) by {
                        if q < i {
                            assert(pair_at(*kernel, false, data@, before, q));
                            assert(out@[2 * q] == before[2 * q]);
                            assert(out@[2 * q + 1] == before[2 * q + 1]);
                        }
                    }
                }
                i += 1;
            }
            out
        }
    }

    /// A Haar step along every row of the top-left region.
    #[verifier::rlimit(40)]
    fn along_rows<T: Copy, P: Fn(T, T) -> (T, T)>(
        grid: &Grid<T>,
        rows: usize,
        cols: usize,
        kernel: &P,
        forward: bool,
    ) -> (out: Grid<T>)
        requires
            rows <= grid@.rows(),
            cols <= grid@.cols,
            pair_kernel(*kernel),
        ensures
            out@.wf(),
            out@.same_shape(grid@),
            rows_rel(*kernel, forward, rows as nat, cols as nat, grid@, out@),
    {
        let height = grid.rows();
        let width = grid.cols();
        let mut lines: Vec<Vec<T>> = Vec::new();
        let mut r: usize = 0;
        while r < height
            invariant
                r <= height,
                height == grid@.rows(),
                width == grid@.cols,
                grid@.wf(),
                rows <= height,
                cols <= width,
                pair_kernel(*kernel),
                lines@.len() == r,
                forall|q: int| 0 <= q < r ==> (#[trigger] lines@[q])@.len() == width,
                forall|q: int|
                    0 <= q < r ==> row_rel(
                        *kernel,
                        forward,
                        rows as nat,
                        cols as nat,
                        grid@.lines[q],
                        (#[trigger] lines@[q])@,
                        q,
                    ),
            decreases height - r,
        {
            let mut line: Vec<T> = Vec::new();
            if r < rows {
                let mut seg: Vec<T> = Vec::new();
                let mut c: usize = 0;
                while c < cols
                    invariant
                        c <= cols,
                        cols <= width,
                        r < height,
                        height == grid@.rows(),
                        width == grid@.cols,
                        grid@.wf(),
                        seg@.len() == c,
                        forall|p: int| 0 <= p < c ==> seg@[p] == grid@.lines[r as int][p],
                    decreases cols - c,
                {
                    seg.push(grid.get(r, c));
                    c += 1;
                }
                assert(seg@ =~= grid@.lines[r as int].take(cols as int));
                line = Self::haar_line(&seg, kernel, forward);
                let ghost head = line@;
                while c < width
                    invariant
                        cols <= c <= width,
                        r < height,
                        height == grid@.rows(),
                        width == grid@.cols,
                        grid@.wf(),
                        head.len() == cols,
                        line@.len() == c,
                        forall|p: int| 0 <= p < cols ==> line@[p] == head[p],
                        forall|p: int| cols <= p < c ==> line@[p] == grid@.lines[r as int][p],
                    decreases width - c,
                {
                    line.push(grid.get(r, c));
                    c += 1;
                }
                assert(line@.take(cols as int) =~= head);
                assert(line@.skip(cols as int) =~= grid@.lines[r as int].skip(cols as int));
            } else {
                let mut c: usize = 0;
                while c < width
                    invariant
                        c <= width,
                        r < height,
                        height == grid@.rows(),
                        width == grid@.cols,
                        grid@.wf(),
                        line@.len() == c,
                        forall|p: int| 0 <= p < c ==> line@[p] == grid@.lines[r as int][p],
                    decreases width - c,
                {
                    line.push(grid.get(r, c));
                    c += 1;
                }
                assert(line@ =~= grid@.lines[r as int]);
            }
            lines.push(line);
            r += 1;
        }
        let out = Grid::from_lines(width, lines);
        assert forall|q: int| 0 <= q < grid@.rows() implies row_rel(
            *kernel,
            forward,
            rows as nat,
            cols as nat,
            grid@.lines[q],
            #[trigger] out@.lines[q],
            q,
        ) by {
            assert(out@.lines[q] == lines@[q]@);
        }
        out
    }

    /// A Haar step along every column of the top-left region.
    #[verifier::rlimit(40)]
    fn along_cols<T: Copy, P: Fn(T, T) -> (T, T)>(
        grid: &Grid<T>,
        rows: usize,
        cols: usize,
        kernel: &P,
        forward: bool,
    ) -> (out: Grid<T>)
        requires
            rows <= grid@.rows(),
            cols <= grid@.cols,
            pair_kernel(*kernel),
        ensures
            out@.wf(),
            out@.same_shape(grid@),
            cols_rel(*kernel, forward, rows as nat, cols as nat, grid@, out@),
    {
        let height = grid.rows();
        let width = grid.cols();
        let mut columns: Vec<Vec<T>> = Vec::new();
        let mut c: usize = 0;
        while c < cols
            invariant
                c <= cols,
                height == grid@.rows(),
                width == grid@.cols,
                grid@.wf(),
                rows <= height,
                cols <= width,
                pair_kernel(*kernel),
                columns@.len() == c,
                forall|q: int|
                    0 <= q < c ==> line_rel(
                        *kernel,
                        forward,
                        column(grid@, q, rows as nat),
                        (#[trigger] columns@[q])@,
                    ),
            decreases cols - c,
        {
            let mut col: Vec<T> = Vec::new();
            let mut r: usize = 0;
            while r < rows
                invariant
                    r <= rows,
                    rows <= height,
                    c < cols,
                    cols <= width,
                    height == grid@.rows(),
                    width == grid@.cols,
                    grid@.wf(),
                    col@.len() == r,
                    forall|p: int| 0 <= p < r ==> col@[p] == grid@.lines[p][c as int],
                decreases rows - r,
            {
                col.push(grid.get(r, c));
                r += 1;
            }
            assert(col@ =~= column(grid@, c as int, rows as nat));
            let done = Self::haar_line(&col, kernel, forward);
            columns.push(done);
            c += 1;
        }
        let mut lines: Vec<Vec<T>> = Vec::new();
        let mut r: usize = 0;
        while r < height
            invariant
                r <= height,
                height == grid@.rows(),
                width == grid@.cols,
                grid@.wf(),
                rows <= height,
                cols <= width,
                columns@.len() == cols,
                forall|q: int| 0 <= q < cols ==> (#[trigger] columns@[q])@.len() == rows,
                lines@.len() == r,
                forall|q: int| 0 <= q < r ==> (#[trigger] lines@[q])@.len() == width,
                forall|q: int, p: int|
                    0 <= q < r && 0 <= p < width ==> (#[trigger] lines@[q]@[p]) == (if q < rows
                        && p < cols {
                        columns@[p]@[q]
                    } else {
                        grid@.lines[q][p]
                    }),
            decreases height - r,
        {
            let mut line: Vec<T> = Vec::new();
            let mut p: usize = 0;
            while p < width
                invariant
                    p <= width,
                    r < height,
                    height == grid@.rows(),
                    width == grid@.cols,
                    grid@.wf(),
                    rows <= height,
                    cols <= width,
                    columns@.len() == cols,
                    forall|q: int| 0 <= q < cols ==> (#[trigger] columns@[q])@.len() == rows,
                    line@.len() == p,
                    forall|z: int|
                        0 <= z < p ==> line@[z] == (if r < rows && z < cols {
                            columns@[z]@[r as int]
                        } else {
                            grid@.lines[r as int][z]
                        }),
                decreases width - p,
            {
                let v = if r < rows && p < cols {
                    let col = &columns[p];
                    col[r]
                } else {
                    grid.get(r, p)
                };
                line.push(v);
                p += 1;
            }
            lines.push(line);
            r += 1;
        }
        let out = Grid::from_lines(width, lines);
        proof {
            assert forall|q: int| 0 <= q < cols implies #[trigger] col_rel(
                *kernel,
                forward,
                rows as nat,
                grid@,
                out@,
                q,
            ) by {
                assert forall|z: int| 0 <= z < rows implies column(out@, q, rows as nat)[z]
                    == columns@[q]@[z] by {
                    assert(out@.lines[z] == lines@[z]@);
                    assert(lines@[z]@[q] == columns@[q]@[z]);
                }
                assert(column(out@, q, rows as nat) =~= columns@[q]@);
            }
            assert forall|q: int, z: int|
                0 <= q < grid@.rows() && 0 <= z < grid@.cols && (q >= rows || z >= cols)
                    implies #[trigger] out@.lines[q][z] == grid@.lines[q][z] by {
                assert(out@.lines[q] == lines@[q]@);
                assert(lines@[q]@[z] == grid@.lines[q][z]);
            }
        }
        out
    }

    /// One two-dimensional Haar step on the top-left region.
    fn step<T: Copy, P: Fn(T, T) -> (T, T)>(
        grid: &Grid<T>,
        rows: usize,
        cols: usize,
        kernel: &P,
        forward: bool,
    ) -> (out: Grid<T>)
        requires
            rows <= grid@.rows(),
            cols <= grid@.cols,
            pair_kernel(*kernel),
        ensures
            out@.wf(),
            out@.same_shape(grid@),
            step_rel(*kernel, forward, rows as nat, cols as nat, grid@, out@),
    {
        if forward {
            let mid = Self::along_rows(grid, rows, cols, kernel, forward);
            let out = Self::along_cols(&mid, rows, cols, kernel, forward);
            assert(mid@.same_shape(grid@));
            out
        } else {
            let mid = Self::along_cols(grid, rows, cols, kernel, forward);
            let out = Self::along_rows(&mid, rows, cols, kernel, forward);
            assert(mid@.same_shape(grid@));
            out
        }
    }

    /// Decomposes the top-left region over `levels` levels.
    fn decompose<T: Copy, P: Fn(T, T) -> (T, T)>(
        grid: Grid<T>,
        levels: usize,
        rows: usize,
        cols: usize,
        pair: &P,
    ) -> (out: Grid<T>)
        requires
            rows <= grid@.rows(),
            cols <= grid@.cols,
            pair_kernel(*pair),
        ensures
            out@.wf(),
            out@.same_shape(grid@),
            decomposed(*pair, levels as nat, rows as nat, cols as nat, grid@, out@),
        decreases levels,
    {
        if levels == 0 || rows < 2 || cols < 2 {
            // The accessor states that the grid is well-formed.
            let _ = grid.rows();
            grid
        } else {
            let mid = Self::step(&grid, rows, cols, pair, true);
            let out = Self::decompose(mid, levels - 1, rows / 2, cols / 2, pair);
            assert(step_rel(*pair, true, rows as nat, cols as nat, grid@, mid@));
            out
        }
    }

    /// Reconstructs the top-left region over `levels` levels.
    fn recompose<T: Copy, P: Fn(T, T) -> (T, T)>(
        grid: Grid<T>,
        levels: usize,
        rows: usize,
        cols: usize,
        unpair: &P,
    ) -> (out: Grid<T>)
        requires
            rows <= grid@.rows(),
            cols <= grid@.cols,
            pair_kernel(*unpair),
        ensures
            out@.wf(),
            out@.same_shape(grid@),
            recomposed(*unpair, levels as nat, rows as nat, cols as nat, grid@, out@),
        decreases levels,
    {
        if levels == 0 {
            // The accessor states that the grid is well-formed.
            let _ = grid.rows();
            grid
        } else {
            let ghost start = grid@;
            let mid = Self::recompose(grid, levels - 1, rows / 2, cols / 2, unpair);
            let ghost deeper = mid@;
            let out = if rows < 2 || cols < 2 {
                mid
            } else {
                Self::step(&mid, rows, cols, unpair, false)
            };
            proof {
                assert(deeper.wf() && deeper.same_shape(start));
                assert(recomposed(
                    *unpair,
                    ((levels as nat) - 1) as nat,
                    (rows as nat) / 2,
                    (cols as nat) / 2,
                    start,
                    deeper,
                ));
                if rows < 2 || cols < 2 {
                    assert(out@ == deeper);
                } else {
                    assert(step_rel(*unpair, false, rows as nat, cols as nat, deeper, out@));
                }
                assert(recomposed(*unpair, levels as nat, rows as nat, cols as nat, start, out@));
            }
            out
        }
    }

    /// Embeds `watermark` into `data`: the grid is decomposed, bit `i` is
    /// written to the coefficient at position `i` with the flag
    /// `watermark[i] == 1`, and the grid is reconstructed. Both sides of the
    /// grid must be powers of two, the payload must be no longer than the
    /// capacity of the grid, and there must be a position for every bit;
    /// otherwise nothing is changed and the payload is refused.
    pub fn embed<
        T: Copy,
        P: Fn(T, T) -> (T, T),
        A: Fn(T, bool) -> T,
        U: Fn(T, T) -> (T, T),
    >(&self, data: &Grid<T>, watermark: &[u8], pair: P, adjust: A, unpair: U) -> (res: Result<
        Grid<T>,
        WatermarkError,
    >)
        requires
            pair_kernel(pair),
            pair_kernel(unpair),
            forall|c: T, f: bool| #[trigger] call_requires(adjust, (c, f)),
        ensures
            res is Ok <==> wavelet_admits(data@, watermark@.len()),
            res matches Err(e) ==> e matches WatermarkError::InvalidArgument(text) && text@ == (
            if is_power_of_two(data@.rows()) && is_power_of_two(data@.cols) {
                "水印数据太长，超过了可嵌入的位置数"@
            } else {
                "DWT要求数据尺寸是2的幂"@
            }),
            res matches Ok(out) ==> out@.wf() && out@.same_shape(data@) && wavelet_embedded(
                data@,
                watermark@,
                self.spec_levels(),
                pair,
                adjust,
                unpair,
                out@,
            ),
    {
        let rows = data.rows();
        let cols = data.cols();
        if !Self::power_of_two(rows) || !Self::power_of_two(cols) {
            return Err(WatermarkError::InvalidArgument(String::from_str("DWT要求数据尺寸是2的幂")));
        }
        let positions = self.get_high_freq_positions(rows, cols);
        let n = watermark.len();
        if n as u128 > wide_wavelet_capacity(cols, rows) || n > positions.len() {
            return Err(
                WatermarkError::InvalidArgument(String::from_str("水印数据太长，超过了可嵌入的位置数")),
            );
        }
        let coeffs = Self::decompose(data.duplicate(), self.levels, rows, cols, &pair);
        let ghost start = coeffs@;
        let mut current = coeffs;
        let mut i: usize = 0;
        while i < n
            invariant
                i <= n,
                n == watermark@.len(),
                n <= positions@.len(),
                positions@ == high_freq_positions(rows as int, cols as int),
                forall|k: int|
                    0 <= k < positions@.len() ==> (#[trigger] positions@[k]).0 < rows
                        && positions@[k].1 < cols,
                current@.wf(),
                current@.rows() == rows,
                current@.cols == cols,
                forall|c: T, f: bool| #[trigger] call_requires(adjust, (c, f)),
                adjusted(adjust, positions@, watermark@, i as nat, start, current@),
            decreases n - i,
        {
            let position = positions[i];
            let flag = watermark[i] == 1;
            let ghost prev = current@;
            let value = adjust(current.get(position.0, position.1), flag);
            current = current.replaced(position.0, position.1, value);
            proof {
                let count = (i + 1) as nat;
                assert(positions@[count - 1] == position);
                assert((watermark@[count - 1] == 1) == flag);
                assert(adjusted(adjust, positions@, watermark@, (count - 1) as nat, start, prev));
                assert(touched(adjust, prev, positions@[count - 1], watermark@[count - 1] == 1, value));
                assert(current@ == prev.with(
                    positions@[count - 1].0 as int,
                    positions@[count - 1].1 as int,
                    value,
                ));
                assert(adjusted(adjust, positions@, watermark@, count, start, current@));
            }
            i += 1;
        }
        let ghost marked = current@;
        let out = Self::recompose(current, self.levels, rows, cols, &unpair);
        proof {
            assert(adjusted(
                adjust,
                high_freq_positions(data@.rows() as int, data@.cols as int),
                watermark@,
                watermark@.len(),
                start,
                marked,
            ));
            assert(wavelet_embedded(
                data@,
                watermark@,
                self.spec_levels(),
                pair,
                adjust,
                unpair,
                out@,
            ));
        }
        Ok(out)
    }

    /// Extracts `expected_length` bits from `data`: the grid is decomposed,
    /// and bit `i` is 1 when the kernel finds the coefficient at position `i`
    /// non-negative, 0 otherwise. No more bits can be asked for than a
    /// payload that `embed` accepts for the grid may hold.
    pub fn extract<T: Copy, P: Fn(T, T) -> (T, T), S: Fn(T) -> bool>(
        &self,
        data: &Grid<T>,
        expected_length: usize,
        pair: P,
        sign: S,
    ) -> (res: Result<Vec<u8>, WatermarkError>)
        requires
            pair_kernel(pair),
            forall|c: T| #[trigger] call_requires(sign, (c,)),
        ensures
            res is Ok <==> wavelet_admits(data@, expected_length as nat),
            res matches Err(e) ==> e matches WatermarkError::InvalidArgument(text) && text@ == (
            if is_power_of_two(data@.rows()) && is_power_of_two(data@.cols) {
                "期望长度超过了可提取的位置数"@
            } else {
                "DWT要求数据尺寸是2的幂"@
            }),
            res matches Ok(bits) ==> wavelet_extracted(
                data@,
                expected_length as nat,
                self.spec_levels(),
                pair,
                sign,
                bits@,
            ),
    {
        let rows = data.rows();
        let cols = data.cols();
        if !Self::power_of_two(rows) || !Self::power_of_two(cols) {
            return Err(WatermarkError::InvalidArgument(String::from_str("DWT要求数据尺寸是2的幂")));
        }
        let positions = self.get_high_freq_positions(rows, cols);
        if expected_length as u128 > wide_wavelet_capacity(cols, rows) || expected_length
            > positions.len() {
            return Err(
                WatermarkError::InvalidArgument(String::from_str("期望长度超过了可提取的位置数")),
            );
        }
        let coeffs = Self::decompose(data.duplicate(), self.levels, rows, cols, &pair);
        let mut bits: Vec<u8> = Vec::new();
        let mut i: usize = 0;
        while i < expected_length
            invariant
                i <= expected_length,
                expected_length <= positions@.len(),
                forall|k: int|
                    0 <= k < positions@.len() ==> (#[trigger] positions@[k]).0 < rows
                        && positions@[k].1 < cols,
                coeffs@.wf(),
                coeffs@.rows() == rows,
                coeffs@.cols == cols,
                forall|c: T| #[trigger] call_requires(sign, (c,)),
                bits@.len() == i,
                forall|k: int|
                    0 <= k < i ==> sign_read(sign, coeffs@, positions@[k], #[trigger] bits@[k]),
            decreases expected_length - i,
        {
            let position = positions[i];
            let ghost earlier = bits@;
            let flag = sign(coeffs.get(position.0, position.1));
            bits.push(if flag { 1 } else { 0 });
            proof {
                assert forall|k: int| 0 <= k < i + 1 implies sign_read(
                    sign,
                    coeffs@,
                    positions@[k],
                    #[trigger] bits@[k],
                ) by {
                    if k < i {
                        assert(bits@[k] == earlier[k]);
                        assert(sign_read(sign, coeffs@, positions@[k], earlier[k]));
                    }
                }
            }
            i += 1;
        }
        proof {
            assert(decomposed(
                pair,
                self.spec_levels(),
                data@.rows(),
                data@.cols,
                data@,
                coeffs@,
            ));
        }
        Ok(bits)
    }
}

/// A window of at most four rows and four columns holds at most sixteen
/// positions.
pub proof fn lemma_window_size(r0: int, r1: int, c0: int, c1: int)
    requires
        r1 - r0 <= 4,
        c1 - c0 <= 4,
    ensures
        window(r0, r1, c0, c1).len() <= 16,
{
    if r1 > r0 && c1 > c0 {
        assert((r1 - r0) * (c1 - c0) <= 16) by (nonlinear_arith)
            requires
                0 < r1 - r0 <= 4,
                0 < c1 - c0 <= 4,
        ;
    }
}

} // verus!
