//! Mapping between flat sample sequences and square grids.
use vstd::prelude::*;
use crate::grid::{Grid, GridView};
use crate::layout::{
    lemma_padded_len, lemma_position_split, lemma_tile_below, padded_len, tile_count,
};
use crate::watermark::dwt::is_power_of_two;

verus! {

/// How the side of a grid is rounded up.
#[derive(Debug, Clone, Copy, PartialEq, Eq, Structural)]
pub enum PadMode {
    /// To a multiple of the block size, for the block transform.
    BlockMultiple,
    /// To a power of two, for the wavelet transform.
    PowerOfTwo,
}

/// `s` is the least number whose square is not below `n`.
pub open spec fn is_ceil_sqrt(n: nat, s: nat) -> bool {
    s * s >= n && (s == 0 || (s - 1) * (s - 1) < n)
}

/// The least number whose square is not below `n`.
pub open spec fn ceil_sqrt_of(n: nat) -> nat {
    choose|s: nat| is_ceil_sqrt(n, s)
}

/// How far `p` is below `n`.
pub open spec fn gap(n: nat, p: nat) -> nat {
    if p < n {
        (n - p) as nat
    } else {
        0
    }
}

/// Doubles `p` until it is not below `n`.
pub open spec fn grow(n: nat, p: nat) -> nat
    decreases gap(n, p),
{
    if p >= n || p == 0 {
        p
    } else {
        grow(n, 2 * p)
    }
}

/// The least power of two that is not below `n`.
pub open spec fn next_power_of_two_of(n: nat) -> nat {
    grow(n, 1)
}

/// The side of the square grid that holds `len` samples: the least side
/// whose square holds them, rounded up as `mode` says.
pub open spec fn side_for(len: nat, block: nat, mode: PadMode) -> nat {
    match mode {
        PadMode::BlockMultiple => padded_len(ceil_sqrt_of(len), block),
        PadMode::PowerOfTwo => next_power_of_two_of(ceil_sqrt_of(len)),
    }
}

/// The square grid of the given side filled row by row with `samples`, and
/// with `fill` where the samples have run out.
pub open spec fn grid_of<T>(samples: Seq<T>, side: nat, fill: T) -> GridView<T> {
    GridView::build(
        side,
        side,
        |r: int, c: int|
            if r * side + c < samples.len() {
                samples[r * side + c]
            } else {
                fill
            },
    )
}

/// Sample number `i` of a grid read row by row, or `fill` past its end.
pub open spec fn flat_at<T>(g: GridView<T>, i: int, fill: T) -> T {
    if g.cols > 0 && i / (g.cols as int) < g.rows() {
        g.at(i / (g.cols as int), i % (g.cols as int))
    } else {
        fill
    }
}

/// The first `len` samples of a grid read row by row, with `fill` past its
/// end.
pub open spec fn flat_of<T>(g: GridView<T>, len: nat, fill: T) -> Seq<T> {
    Seq::new(len, |i: int| flat_at(g, i, fill))
}

/// There is only one least number whose square is not below `n`.
pub proof fn lemma_ceil_sqrt_unique(n: nat, s: nat)
    requires
        is_ceil_sqrt(n, s),
    ensures
        ceil_sqrt_of(n) == s,
{
    let t = ceil_sqrt_of(n);
    assert(is_ceil_sqrt(n, t));
    if t < s {
        assert(t * t <= (s - 1) * (s - 1)) by (nonlinear_arith)
            requires
                0 <= t <= s - 1,
        ;
    }
    if s < t {
        assert(s * s <= (t - 1) * (t - 1)) by (nonlinear_arith)
            requires
                0 <= s <= t - 1,
        ;
    }
}

/// Doubling a power of two until it reaches `n` gives a power of two that is
/// not below `n`, and whose half is.
pub proof fn lemma_grow(n: nat, p: nat)
    requires
        is_power_of_two(p),
        p == 1 || p / 2 < n,
    ensures
        is_power_of_two(grow(n, p)),
        grow(n, p) >= n,
        grow(n, p) == 1 || grow(n, p) / 2 < n,
    decreases gap(n, p),
{
    if p < n {
        assert(is_power_of_two(2 * p)) by {
            assert((2 * p) / 2 == p);
        }
        lemma_grow(n, 2 * p);
    }
}

/// Filling a grid with samples and reading it back gives the samples.
pub proof fn lemma_grid_keeps_samples<T>(samples: Seq<T>, side: nat, fill: T)
    requires
        samples.len() <= side * side,
    ensures
        flat_of(grid_of(samples, side, fill), samples.len(), fill) == samples,
{
    let g = grid_of(samples, side, fill);
    assert forall|i: int| 0 <= i < samples.len() implies flat_at(g, i, fill) == samples[i] by {
        assert(side > 0) by (nonlinear_arith)
            requires
                0 <= i < side * side,
        ;
        lemma_position_split(i, side as int);
        lemma_tile_below(i, side as int, side as int);
    }
    assert(flat_of(g, samples.len(), fill) =~= samples);
}

/// The least number whose square is not below `n`.
pub fn ceil_sqrt(n: usize) -> (s: usize)
    ensures
        s == ceil_sqrt_of(n as nat),
        is_ceil_sqrt(n as nat, s as nat),
{
    let mut lo: usize = 0;
    let mut hi: usize = n;
    assert(n * n >= n) by (nonlinear_arith);
    while lo < hi
        invariant
            lo <= hi <= n,
            hi * hi >= n,
            lo == 0 || (lo - 1) * (lo - 1) < n,
        decreases hi - lo,
    {
        let mid = lo + (hi - lo) / 2;
        assert(mid * mid <= u128::MAX) by (nonlinear_arith)
            requires
                mid <= 0xffff_ffff_ffff_ffff,
                u128::MAX == 0xffff_ffff_ffff_ffff_ffff_ffff_ffff_ffff,
        ;
        if mid as u128 * mid as u128 >= n as u128 {
            hi = mid;
        } else {
            lo = mid + 1;
        }
    }
    proof {
        lemma_ceil_sqrt_unique(n as nat, lo as nat);
    }
    lo
}

/// The least power of two that is not below `n`.
pub fn next_power_of_two(n: usize) -> (p: usize)
    requires
        n <= usize::MAX / 2 + 1,
    ensures
        p == next_power_of_two_of(n as nat),
        is_power_of_two(p as nat),
        p >= n,
        p == 1 || p / 2 < n,
{
    let mut p: usize = 1;
    while p < n
        invariant
            n <= usize::MAX / 2 + 1,
            p >= 1,
            is_power_of_two(p as nat),
            p == 1 || p / 2 < n,
            grow(n as nat, p as nat) == grow(n as nat, 1),
        decreases gap(n as nat, p as nat),
    {
        assert(is_power_of_two((2 * p) as nat)) by {
            assert((2 * p) / 2 == p);
        }
        p = p * 2;
    }
    p
}

/// Lays `samples` out row by row in the smallest square grid whose side
/// suits `pad_mode`, and fills the rest with `fill`.
#[verifier::rlimit(40)]
pub fn to_grid<T: Copy>(samples: &[T], block_size: usize, pad_mode: PadMode, fill: T) -> (g: Grid<
    T,
>)
    requires
        pad_mode is BlockMultiple ==> block_size > 0,
        match pad_mode {
            PadMode::BlockMultiple => padded_len(
                ceil_sqrt_of(samples@.len()),
                block_size as nat,
            ) <= usize::MAX,
            PadMode::PowerOfTwo => ceil_sqrt_of(samples@.len()) <= usize::MAX / 2 + 1,
        },
    ensures
        g@.wf(),
        g@ == grid_of(samples@, side_for(samples@.len(), block_size as nat, pad_mode), fill),
        g@.rows() == side_for(samples@.len(), block_size as nat, pad_mode),
        g@.cols == g@.rows(),
        samples@.len() <= g@.rows() * g@.cols,
{
    let len = samples.len();
    let root = ceil_sqrt(len);
    let side = match pad_mode {
        PadMode::BlockMultiple => {
            proof {
                lemma_padded_len(root as nat, block_size as nat);
            }
            tile_count(root, block_size) * block_size
        },
        PadMode::PowerOfTwo => next_power_of_two(root),
    };
    assert(side * side >= len) by (nonlinear_arith)
        requires
            side >= root,
            root * root >= len,
            root >= 0,
    ;
    let mut lines: Vec<Vec<T>> = Vec::new();
    let mut r: usize = 0;
    while r < side
        invariant
            r <= side,
            len == samples@.len(),
            lines@.len() == r,
            forall|q: int|
                0 <= q < r ==> (#[trigger] lines@[q])@ == Seq::new(
                    side as nat,
                    |c: int|
                        if q * side + c < len {
                            samples@[q * side + c]
                        } else {
                            fill
                        },
                ),
        decreases side - r,
    {
        let mut line: Vec<T> = Vec::new();
        let mut c: usize = 0;
        while c < side
            invariant
                c <= side,
                r < side,
                len == samples@.len(),
                line@.len() == c,
                forall|p: int|
                    0 <= p < c ==> line@[p] == (if r * side + p < len {
                        samples@[r * side + p]
                    } else {
                        fill
                    }),
            decreases side - c,
        {
            assert(0 <= r * side + c <= u128::MAX) by (nonlinear_arith)
                requires
                    0 <= r <= 0xffff_ffff_ffff_ffff,
                    0 <= side <= 0xffff_ffff_ffff_ffff,
                    0 <= c <= 0xffff_ffff_ffff_ffff,
                    u128::MAX == 0xffff_ffff_ffff_ffff_ffff_ffff_ffff_ffff,
            ;
            assert(r * side <= r * side + c) by (nonlinear_arith)
                requires
                    c >= 0,
            ;
            assert(0 <= r * side) by (nonlinear_arith)
                requires
                    r >= 0,
                    side >= 0,
            ;
            let index = r as u128 * side as u128 + c as u128;
            let v = if index < len as u128 {
                samples[index as usize]
            } else {
                fill
            };
            line.push(v);
            c += 1;
        }
        assert(line@ =~= Seq::new(
            side as nat,
            |c: int|
                if r * side + c < len {
                    samples@[r * side + c]
                } else {
                    fill
                },
        ));
        lines.push(line);
        r += 1;
    }
    let g = Grid::from_lines(side, lines);
    assert(g@ =~~= grid_of(samples@, side as nat, fill));
    g
}

/// Reads `original_length` samples of a grid row by row; past the end of the
/// grid the result holds `fill`.
pub fn from_grid<T: Copy>(grid: &Grid<T>, original_length: usize, fill: T) -> (samples: Vec<T>)
    ensures
        samples@ == flat_of(grid@, original_length as nat, fill),
        samples@.len() == original_length,
{
    let rows = grid.rows();
    let cols = grid.cols();
    let mut samples: Vec<T> = Vec::new();
    let mut i: usize = 0;
    while i < original_length
        invariant
            i <= original_length,
            rows == grid@.rows(),
            cols == grid@.cols,
            grid@.wf(),
            samples@.len() == i,
            forall|q: int| 0 <= q < i ==> samples@[q] == flat_at(grid@, q, fill),
        decreases original_length - i,
    {
        let v = if cols > 0 && i / cols < rows {
            grid.get(i / cols, i % cols)
        } else {
            fill
        };
        samples.push(v);
        i += 1;
    }
    assert(samples@ =~= flat_of(grid@, original_length as nat, fill));
    samples
}

} // verus!
