//! Index arithmetic shared by the codecs: tiling a length into blocks,
//! mirrored padding, and the facts about division that the loops rely on.
use vstd::prelude::*;
use vstd::arithmetic::div_mod::lemma_fundamental_div_mod_converse;

verus! {

/// Number of `block`-sized tiles needed to cover `len` samples.
pub open spec fn ceil_div(len: nat, block: nat) -> nat
    recommends
        block > 0,
{
    if len % block == 0 {
        len / block
    } else {
        len / block + 1
    }
}

/// `len` rounded up to the next multiple of `block`.
pub open spec fn padded_len(len: nat, block: nat) -> nat
    recommends
        block > 0,
{
    ceil_div(len, block) * block
}

/// Source index of position `i` when a run of `len` samples is extended by
/// mirroring at its far edge: positions inside the run map to themselves,
/// the first position past the edge maps to the last sample, and positions
/// further out walk back towards index 0, where they stay.
pub open spec fn mirror(i: int, len: int) -> int
    recommends
        len > 0,
        i >= 0,
{
    if i < len {
        i
    } else if i - len < len - 1 {
        len - 1 - (i - len)
    } else {
        0
    }
}

/// `padded_len` is the least multiple of `block` that is not below `len`.
pub proof fn lemma_padded_len(len: nat, block: nat)
    requires
        block > 0,
    ensures
        padded_len(len, block) % block == 0,
        len <= padded_len(len, block) < len + block,
        len % block == 0 ==> padded_len(len, block) == len,
        len == 0 ==> padded_len(len, block) == 0,
        padded_len(len, block) / block == ceil_div(len, block),
{
    assert(0nat % block == 0 && 0nat / block == 0) by (nonlinear_arith)
        requires
            block > 0,
    ;
    let q = len / block;
    let r = len % block;
    assert(len == q * block + r && 0 <= r < block) by (nonlinear_arith)
        requires
            q == len / block,
            r == len % block,
            block > 0,
    ;
    let c = ceil_div(len, block);
    assert((c * block) % block == 0 && (c * block) / block == c) by (nonlinear_arith)
        requires
            block > 0,
            c >= 0,
    ;
    if r != 0 {
        assert((q + 1) * block == q * block + block) by (nonlinear_arith);
    }
}

/// Padding never shrinks and keeps the order of two lengths.
pub proof fn lemma_ceil_div_monotonic(a: nat, b: nat, block: nat)
    requires
        block > 0,
        a <= b,
    ensures
        ceil_div(a, block) <= ceil_div(b, block),
{
    lemma_padded_len(a, block);
    lemma_padded_len(b, block);
    let ca = ceil_div(a, block);
    let cb = ceil_div(b, block);
    if ca > cb {
        assert(ca * block >= (cb + 1) * block) by (nonlinear_arith)
            requires
                ca >= cb + 1,
                block > 0,
        ;
        assert((cb + 1) * block == cb * block + block) by (nonlinear_arith);
    }
}

/// Position `q * block + r` with `r < block` lies in tile `q` at offset `r`.
pub proof fn lemma_tile_position(q: int, r: int, block: int)
    requires
        block > 0,
        q >= 0,
        0 <= r < block,
    ensures
        (q * block + r) / block == q,
        (q * block + r) % block == r,
        q * block + r >= 0,
{
    assert(q * block >= 0) by (nonlinear_arith)
        requires
            q >= 0,
            block > 0,
    ;
    lemma_fundamental_div_mod_converse(q * block + r, block, q, r);
}

/// Every position splits into its tile and its offset inside the tile.
pub proof fn lemma_position_split(x: int, block: int)
    requires
        block > 0,
        x >= 0,
    ensures
        x == (x / block) * block + x % block,
        0 <= x % block < block,
        0 <= x / block <= x,
{
    assert(x == (x / block) * block + x % block && 0 <= x % block < block && 0 <= x / block <= x)
        by (nonlinear_arith)
        requires
            block > 0,
            x >= 0,
    ;
}

/// A position below `tiles * block` lies in a tile below `tiles`.
pub proof fn lemma_tile_below(x: int, tiles: int, block: int)
    requires
        block > 0,
        0 <= x < tiles * block,
    ensures
        0 <= x / block < tiles,
{
    lemma_position_split(x, block);
    let q = x / block;
    if q >= tiles {
        assert(q * block >= tiles * block) by (nonlinear_arith)
            requires
                q >= tiles,
                block > 0,
        ;
    }
}

/// The last position of tile `q` is still below `tiles * block` when `q < tiles`.
pub proof fn lemma_tile_end(q: int, r: int, tiles: int, block: int)
    requires
        block > 0,
        0 <= q < tiles,
        0 <= r < block,
    ensures
        0 <= q * block + r < tiles * block,
{
    assert(0 <= q * block && (q + 1) * block <= tiles * block && (q + 1) * block == q * block
        + block) by (nonlinear_arith)
        requires
            0 <= q,
            q + 1 <= tiles,
            block > 0,
    ;
}

/// Number of tiles covering `len`, computed without overflow.
pub fn tile_count(len: usize, block: usize) -> (n: usize)
    requires
        block > 0,
    ensures
        n == ceil_div(len as nat, block as nat),
{
    let q = len / block;
    if len % block == 0 {
        q
    } else {
        proof {
            lemma_position_split(len as int, block as int);
            assert(q < len) by (nonlinear_arith)
                requires
                    len == q * block + len % block,
                    len % block > 0,
                    block > 0,
                    q >= 0,
            ;
        }
        q + 1
    }
}

/// The mirrored source index of `i` in a run of `len` samples.
pub fn mirror_index(i: usize, len: usize) -> (m: usize)
    requires
        len > 0,
    ensures
        m == mirror(i as int, len as int),
        m < len,
{
    if i < len {
        i
    } else {
        let past = i - len;
        if past < len - 1 {
            len - 1 - past
        } else {
            0
        }
    }
}

/// The mirrored source index of a position that may lie beyond the range of
/// machine words.
pub fn mirror_wide(i: u128, len: usize) -> (m: usize)
    requires
        len > 0,
    ensures
        m == mirror(i as int, len as int),
        m < len,
{
    if i < len as u128 {
        i as usize
    } else {
        let past = i - len as u128;
        if past < (len - 1) as u128 {
            len - 1 - past as usize
        } else {
            0
        }
    }
}

/// `padded_len` by the usual formula for rounding up.
pub proof fn lemma_padded_len_formula(len: nat, block: nat)
    requires
        block > 0,
    ensures
        ceil_div(len, block) == (len + block - 1) / (block as int),
        padded_len(len, block) == ((len + block - 1) / (block as int)) * block,
{
    let q = len / block;
    let r = len % block;
    assert(len == q * block + r && 0 <= r < block) by (nonlinear_arith)
        requires
            q == len / block,
            r == len % block,
            block > 0,
    ;
    if r == 0 {
        lemma_tile_position(q as int, block - 1, block as int);
        assert(len + block - 1 == q * block + (block - 1));
    } else {
        lemma_tile_position(q as int + 1, r - 1, block as int);
        assert((q + 1) * block + (r - 1) == len + block - 1) by (nonlinear_arith)
            requires
                len == q * block + r,
        ;
    }
}

/// No multiple of `block` that is not below `len` is smaller than
/// `padded_len`.
pub proof fn lemma_padded_len_least(len: nat, block: nat, multiple: nat)
    requires
        block > 0,
        multiple % block == 0,
        multiple >= len,
    ensures
        padded_len(len, block) <= multiple,
{
    lemma_padded_len(len, block);
    let p = padded_len(len, block);
    if p > multiple {
        assert(false) by (nonlinear_arith)
            requires
                p % block == 0,
                multiple % block == 0,
                block > 0,
                len <= multiple < p,
                p < len + block,
        ;
    }
}

} // verus!
