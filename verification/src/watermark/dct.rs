//! Block-transform codec: one payload bit per block, carried by the sign of
//! a mid-frequency coefficient.
//!
//! The codec owns the layout: padding, the order in which blocks are
//! visited, which coefficient carries which bit, and the capacity rule. The
//! transform itself and the change of a coefficient are done by a kernel
//! that the caller supplies.
use vstd::prelude::*;
use crate::error::WatermarkError;
use crate::grid::{Grid, GridView};
use crate::layout::{
    ceil_div, lemma_padded_len, lemma_position_split, lemma_tile_below, lemma_tile_end,
    lemma_tile_position, mirror, mirror_index, mirror_wide, padded_len, tile_count,
};
use crate::text::{decimal_string, decimal_text};
use vstd::string::StringExecFns;

verus! {

/// Side of a block unless configured otherwise.
pub const DEFAULT_BLOCK_SIZE: usize = 8;

/// Number of coefficient positions that the bits cycle through.
pub const TABLE_LEN: usize = 20;

/// The mid-frequency coefficient positions, `(row, column)` inside a block,
/// in the order in which successive bits use them.
pub open spec fn mid_frequency_table() -> Seq<(usize, usize)> {
    seq![
        (2usize, 1usize),
        (1usize, 2usize),
        (3usize, 1usize),
        (2usize, 2usize),
        (1usize, 3usize),
        (4usize, 1usize),
        (3usize, 2usize),
        (2usize, 3usize),
        (1usize, 4usize),
        (5usize, 1usize),
        (4usize, 2usize),
        (3usize, 3usize),
        (2usize, 4usize),
        (1usize, 5usize),
        (6usize, 1usize),
        (5usize, 2usize),
        (4usize, 3usize),
        (3usize, 4usize),
        (2usize, 5usize),
        (1usize, 6usize),
    ]
}

/// The coefficient that carries bit `index` in blocks of side `block`, or
/// `None` when the table entry does not fit into so small a block.
pub open spec fn target_of(index: int, block: nat) -> Option<(usize, usize)> {
    let p = mid_frequency_table()[index % (TABLE_LEN as int)];
    if p.0 < block && p.1 < block {
        Some(p)
    } else {
        None
    }
}

/// The sample at `(r, c)` after mirrored padding.
pub open spec fn padded_at<T>(g: GridView<T>, r: int, c: int) -> T {
    g.at(mirror(r, g.rows() as int), mirror(c, g.cols as int))
}

/// `g` extended to multiples of `block` in both directions by mirroring at
/// the right and bottom edges.
pub open spec fn pad_view<T>(g: GridView<T>, block: nat) -> GridView<T> {
    GridView::build(
        padded_len(g.rows(), block),
        padded_len(g.cols, block),
        |r: int, c: int| padded_at(g, r, c),
    )
}

/// Number of blocks of the padded grid.
pub open spec fn block_count<T>(g: GridView<T>, block: nat) -> nat {
    ceil_div(g.rows(), block) * ceil_div(g.cols, block)
}

/// A payload of `bits` bits fits `g` when there is a block for every bit.
pub open spec fn admits<T>(g: GridView<T>, bits: nat, block: nat) -> bool {
    bits <= block_count(g, block)
}

/// Block number `k` of the padded grid, counting row by row.
pub open spec fn block_of<T>(g: GridView<T>, k: int, block: nat) -> GridView<T> {
    let per_row = ceil_div(g.cols, block) as int;
    GridView::build(
        block,
        block,
        |a: int, b: int| padded_at(g, (k / per_row) * block + a, (k % per_row) * block + b),
    )
}

/// The top-left `rows` by `cols` part of `g`.
pub open spec fn crop_view<T>(g: GridView<T>, rows: nat, cols: nat) -> GridView<T> {
    GridView::build(rows, cols, |r: int, c: int| g.at(r, c))
}

/// `kernel` may turn `block` into `out` when asked to write `flag` at
/// `target`.
pub open spec fn marks<T, K: Fn(Grid<T>, Option<(usize, usize)>, bool) -> Grid<T>>(
    kernel: K,
    block: GridView<T>,
    target: Option<(usize, usize)>,
    flag: bool,
    out: GridView<T>,
) -> bool {
    exists|b: Grid<T>, o: Grid<T>|
        b@ == block && o@ == out && #[trigger] call_ensures(kernel, (b, target, flag), o)
}

/// A target that the codec may hand to a kernel for blocks of side `block`:
/// no coefficient at all, or a position inside the block.
pub open spec fn target_fits(target: Option<(usize, usize)>, block: nat) -> bool {
    match target {
        Some(p) => p.0 < block && p.1 < block,
        None => true,
    }
}

/// What the codec asks of an embedding kernel: it accepts every block of
/// side `block` together with a target that fits into it, whatever the flag,
/// and hands back a block of the same side.
pub open spec fn block_kernel<T, K: Fn(Grid<T>, Option<(usize, usize)>, bool) -> Grid<T>>(
    kernel: K,
    block: nat,
) -> bool {
    &&& forall|b: Grid<T>, t: Option<(usize, usize)>, f: bool|
        b@.wf() && b@.rows() == block && b@.cols == block && target_fits(t, block)
            ==> #[trigger] call_requires(kernel, (b, t, f))
    &&& forall|b: Grid<T>, t: Option<(usize, usize)>, f: bool, o: Grid<T>|
        b@.wf() && b@.rows() == block && b@.cols == block && target_fits(t, block)
            && #[trigger] call_ensures(kernel, (b, t, f), o) ==> o@.rows() == block && o@.cols
            == block
}

/// `data` with its first `blocks.len()` blocks replaced, as far as they lie
/// inside `data`, by the given blocks.
pub open spec fn assemble<T>(data: GridView<T>, blocks: Seq<GridView<T>>, block: nat) -> GridView<
    T,
> {
    let per_row = ceil_div(data.cols, block) as int;
    GridView::build(
        data.rows(),
        data.cols,
        |r: int, c: int|
            {
                let k = (r / block as int) * per_row + c / block as int;
                if k < blocks.len() {
                    blocks[k].at(r % block as int, c % block as int)
                } else {
                    data.at(r, c)
                }
            },
    )
}

/// `out` is `data` with the payload `bits` embedded: block `k` of the padded
/// grid went through the kernel with the target of bit `k` and the flag
/// `bits[k] == 1`, the other blocks are untouched, and the padding is cut off
/// again.
pub open spec fn embedded<T, K: Fn(Grid<T>, Option<(usize, usize)>, bool) -> Grid<T>>(
    data: GridView<T>,
    bits: Seq<u8>,
    block: nat,
    kernel: K,
    out: GridView<T>,
) -> bool {
    exists|blocks: Seq<GridView<T>>|
        {
            &&& blocks.len() == bits.len()
            &&& forall|k: int|
                0 <= k < bits.len() ==> {
                    &&& (#[trigger] blocks[k]).wf()
                    &&& blocks[k].rows() == block
                    &&& blocks[k].cols == block
                    &&& marks(
                        kernel,
                        block_of(data, k, block),
                        target_of(k, block),
                        bits[k] == 1,
                        blocks[k],
                    )
                }
            &&& out == #[trigger] assemble(data, blocks, block)
        }
}

/// Text of the error for a payload of `needed` bits where only `capacity`
/// fit.
pub open spec fn overlong_text(capacity: nat, needed: nat) -> Seq<char> {
    "水印数据太长，超过了可嵌入的块数。最大可嵌入"@ + decimal_text(capacity) + "比特，实际需要"@
        + decimal_text(needed) + "比特"@
}

/// Builds the text of `overlong_text`.
fn overlong_message(capacity: u128, needed: usize) -> (text: String)
    ensures
        text@ == overlong_text(capacity as nat, needed as nat),
{
    let a = String::from_str("水印数据太长，超过了可嵌入的块数。最大可嵌入");
    let b = a.concat(decimal_string(capacity).as_str());
    let c = b.concat("比特，实际需要");
    let d = c.concat(decimal_string(needed as u128).as_str());
    d.concat("比特")
}

/// `sign` may answer `flag` when asked for the coefficient `(u, v)` of
/// `block`.
pub open spec fn reads<T, S: Fn(Grid<T>, usize, usize) -> bool>(
    sign: S,
    block: GridView<T>,
    u: usize,
    v: usize,
    flag: bool,
) -> bool {
    exists|b: Grid<T>| b@ == block && #[trigger] call_ensures(sign, (b, u, v), flag)
}

/// What the codec asks of a reading kernel: it accepts every block of side
/// `block` together with a coefficient position inside it.
pub open spec fn sign_kernel<T, S: Fn(Grid<T>, usize, usize) -> bool>(sign: S, block: nat) -> bool {
    forall|b: Grid<T>, u: usize, v: usize|
        b@.wf() && b@.rows() == block && b@.cols == block && u < block && v < block
            ==> #[trigger] call_requires(sign, (b, u, v))
}

/// How many of the first `count` bits can be read from blocks of side
/// `block`: reading stops at the first bit whose table entry does not fit
/// into a block.
pub open spec fn readable(count: nat, block: nat) -> nat
    decreases count,
{
    if count == 0 {
        0
    } else {
        let before = readable((count - 1) as nat, block);
        if before == count - 1 && target_of(count - 1, block) is Some {
            count
        } else {
            before
        }
    }
}

/// `bit` is what reading bit `k` from `data` may give: the table entry of
/// bit `k` fits into a block, and `bit` is 1 or 0 as the kernel reports a
/// non-negative or a negative coefficient there in block `k`.
pub open spec fn bit_read<T, S: Fn(Grid<T>, usize, usize) -> bool>(
    data: GridView<T>,
    block: nat,
    sign: S,
    k: int,
    bit: u8,
) -> bool {
    &&& target_of(k, block) matches Some(p)
    &&& (bit == 0 || bit == 1)
    &&& reads(sign, block_of(data, k, block), p.0, p.1, bit == 1)
}

/// `bits` is what extraction of `count` bits from `data` gives: bit `k` is 1
/// exactly when the kernel reports a non-negative coefficient at the target
/// of bit `k` in block `k` of the padded grid.
pub open spec fn extracted<T, S: Fn(Grid<T>, usize, usize) -> bool>(
    data: GridView<T>,
    count: nat,
    block: nat,
    sign: S,
    bits: Seq<u8>,
) -> bool {
    &&& bits.len() == readable(count, block)
    &&& forall|k: int| 0 <= k < bits.len() ==> #[trigger] bit_read(data, block, sign, k, bits[k])
}

/// The reader recovers from every block that the embedding kernel produced
/// the flag that was written to it.
pub open spec fn kernels_agree<
    T,
    K: Fn(Grid<T>, Option<(usize, usize)>, bool) -> Grid<T>,
    S: Fn(Grid<T>, usize, usize) -> bool,
>(kernel: K, sign: S) -> bool {
    forall|b: Grid<T>, u: usize, v: usize, f: bool, o: Grid<T>, b2: Grid<T>, g: bool|
        #[trigger] call_ensures(kernel, (b, Some((u, v)), f), o) && b2@ == o@
            && #[trigger] call_ensures(sign, (b2, u, v), g) ==> g == f
}

/// Text of the error for a request of `wanted` bits from `capacity` blocks.
pub open spec fn overdrawn_text(wanted: nat, capacity: nat) -> Seq<char> {
    "期望长度"@ + decimal_text(wanted) + "超过了可提取的块数"@ + decimal_text(capacity)
}

/// Builds the text of `overdrawn_text`.
fn overdrawn_message(wanted: usize, capacity: u128) -> (text: String)
    ensures
        text@ == overdrawn_text(wanted as nat, capacity as nat),
{
    let a = String::from_str("期望长度");
    let b = a.concat(decimal_string(wanted as u128).as_str());
    let c = b.concat("超过了可提取的块数");
    c.concat(decimal_string(capacity).as_str())
}

/// Once reading has stopped it stays stopped.
pub proof fn lemma_readable_stops(at: nat, count: nat, block: nat)
    requires
        readable(at, block) == at,
        target_of(at as int, block) is None,
        at <= count,
    ensures
        readable(count, block) == at,
    decreases count,
{
    if count > at {
        lemma_readable_stops(at, (count - 1) as nat, block);
    }
}

/// Where every table entry fits, every bit can be read.
pub proof fn lemma_readable_all(count: nat, block: nat)
    requires
        forall|k: int| 0 <= k < count ==> (#[trigger] target_of(k, block)) is Some,
    ensures
        readable(count, block) == count,
    decreases count,
{
    if count > 0 {
        lemma_readable_all((count - 1) as nat, block);
        assert(target_of(count - 1, block) is Some);
    }
}

/// With blocks of side 7 or more, every table entry fits.
pub proof fn lemma_targets_fit(k: int, block: nat)
    requires
        block >= 7,
        k >= 0,
    ensures
        target_of(k, block) is Some,
{
    let i = k % 20;
    let p = mid_frequency_table()[i];
    assert(p.0 <= 6 && p.1 <= 6) by {
        assert(0 <= i < 20);
        if i < 5 {
        } else if i < 10 {
        } else if i < 15 {
        } else {
        }
    }
}

/// Padding yields sides divisible by the block size, and a grid whose sides
/// already are divisible is left as it is.
pub proof fn lemma_padding_aligns<T>(g: GridView<T>, block: nat)
    requires
        block > 0,
        g.wf(),
    ensures
        pad_view(g, block).wf(),
        pad_view(g, block).rows() % block == 0,
        pad_view(g, block).cols % block == 0,
        g.rows() <= pad_view(g, block).rows() < g.rows() + block,
        g.cols <= pad_view(g, block).cols < g.cols + block,
        g.rows() % block == 0 && g.cols % block == 0 ==> pad_view(g, block) == g,
{
    lemma_padded_len(g.rows(), block);
    lemma_padded_len(g.cols, block);
    if g.rows() % block == 0 && g.cols % block == 0 {
        assert(pad_view(g, block) =~~= g);
    }
}

/// In a grid whose sides are multiples of the block size, block `k` of the
/// result of embedding is the block that the kernel returned for bit `k`.
#[verifier::rlimit(40)]
pub proof fn lemma_assembled_block<T>(
    data: GridView<T>,
    blocks: Seq<GridView<T>>,
    block: nat,
    k: int,
)
    requires
        block > 0,
        data.wf(),
        data.rows() % block == 0,
        data.cols % block == 0,
        0 <= k < blocks.len(),
        blocks.len() <= block_count(data, block),
        blocks[k].wf(),
        blocks[k].rows() == block,
        blocks[k].cols == block,
    ensures
        block_of(assemble(data, blocks, block), k, block) == blocks[k],
{
    let out = assemble(data, blocks, block);
    let down = ceil_div(data.rows(), block) as int;
    let across = ceil_div(data.cols, block) as int;
    lemma_padded_len(data.rows(), block);
    lemma_padded_len(data.cols, block);
    if across == 0 {
        assert(down * across == 0) by (nonlinear_arith)
            requires
                across == 0,
        ;
    }
    lemma_position_split(k, across);
    lemma_tile_below(k, down, across);
    let by = k / across;
    let bx = k % across;
    let got = block_of(out, k, block);
    assert forall|a: int, b: int| 0 <= a < block && 0 <= b < block implies #[trigger] got.lines[a][b]
        == blocks[k].lines[a][b] by {
        lemma_tile_end(by, a, down, block as int);
        lemma_tile_end(bx, b, across, block as int);
        lemma_tile_position(by, a, block as int);
        lemma_tile_position(bx, b, block as int);
        let r = by * block + a;
        let c = bx * block + b;
        assert(mirror(r, out.rows() as int) == r);
        assert(mirror(c, out.cols as int) == c);
        assert(out.at(r, c) == blocks[k].at(a, b));
    }
    assert(got =~~= blocks[k]);
}

/// Extraction returns the embedded payload: for a grid whose sides are
/// multiples of the block size, a payload of bits 0 and 1 whose table entries
/// fit into a block, and a reader that recovers from every marked block the
/// flag written to it, reading `bits.len()` bits from the result of embedding
/// `bits` gives `bits` again.
pub proof fn lemma_extract_recovers_embedded<
    T,
    K: Fn(Grid<T>, Option<(usize, usize)>, bool) -> Grid<T>,
    S: Fn(Grid<T>, usize, usize) -> bool,
>(
    data: GridView<T>,
    bits: Seq<u8>,
    block: nat,
    kernel: K,
    sign: S,
    out: GridView<T>,
    read: Seq<u8>,
)
    requires
        block > 0,
        data.wf(),
        data.rows() % block == 0,
        data.cols % block == 0,
        bits.len() <= block_count(data, block),
        forall|k: int| 0 <= k < bits.len() ==> (#[trigger] bits[k]) == 0 || bits[k] == 1,
        forall|k: int| 0 <= k < bits.len() ==> (#[trigger] target_of(k, block)) is Some,
        kernels_agree(kernel, sign),
        embedded(data, bits, block, kernel, out),
        extracted(out, bits.len(), block, sign, read),
    ensures
        read == bits,
{
    lemma_readable_all(bits.len(), block);
    let blocks = choose|blocks: Seq<GridView<T>>|
        {
            &&& blocks.len() == bits.len()
            &&& forall|k: int|
                0 <= k < bits.len() ==> {
                    &&& (#[trigger] blocks[k]).wf()
                    &&& blocks[k].rows() == block
                    &&& blocks[k].cols == block
                    &&& marks(
                        kernel,
                        block_of(data, k, block),
                        target_of(k, block),
                        bits[k] == 1,
                        blocks[k],
                    )
                }
            &&& out == #[trigger] assemble(data, blocks, block)
        };
    assert forall|k: int| 0 <= k < bits.len() implies read[k] == bits[k] by {
        assert(blocks[k].wf());
        lemma_assembled_block(data, blocks, block, k);
        let p = target_of(k, block)->0;
        assert(bit_read(out, block, sign, k, read[k]));
        assert(read[k] == 0 || read[k] == 1);
        assert(bits[k] == 0 || bits[k] == 1);
        assert(reads(sign, blocks[k], p.0, p.1, read[k] == 1));
        assert(marks(kernel, block_of(data, k, block), Some(p), bits[k] == 1, blocks[k]));
        let got = read[k] == 1;
        let put = bits[k] == 1;
        let b2 = choose|b2: Grid<T>|
            b2@ == blocks[k] && #[trigger] call_ensures(sign, (b2, p.0, p.1), got);
        let (b, o) = choose|b: Grid<T>, o: Grid<T>|
            b@ == block_of(data, k, block) && o@ == blocks[k] && #[trigger] call_ensures(
                kernel,
                (b, Some(p), put),
                o,
            );
        assert(call_ensures(kernel, (b, Some((p.0, p.1)), put), o));
        assert(got == put);
    }
    assert(read =~= bits);
}

/// With blocks of side 7 or more every table entry fits into a block. For
/// such blocks extraction returns the embedded payload whenever the sides of
/// the grid are multiples of the block size, the payload fits and consists of
/// bits 0 and 1, and the reader recovers from every marked block the flag
/// written to it.
pub proof fn lemma_extract_recovers_embedded_in_large_blocks<
    T,
    K: Fn(Grid<T>, Option<(usize, usize)>, bool) -> Grid<T>,
    S: Fn(Grid<T>, usize, usize) -> bool,
>(
    data: GridView<T>,
    bits: Seq<u8>,
    block: nat,
    kernel: K,
    sign: S,
    out: GridView<T>,
    read: Seq<u8>,
)
    requires
        block >= 7,
        data.wf(),
        data.rows() % block == 0,
        data.cols % block == 0,
        bits.len() <= block_count(data, block),
        forall|k: int| 0 <= k < bits.len() ==> (#[trigger] bits[k]) == 0 || bits[k] == 1,
        kernels_agree(kernel, sign),
        embedded(data, bits, block, kernel, out),
        extracted(out, bits.len(), block, sign, read),
    ensures
        read == bits,
{
    assert forall|k: int| 0 <= k < bits.len() implies (#[trigger] target_of(k, block)) is Some by {
        lemma_targets_fit(k, block);
    }
    lemma_extract_recovers_embedded(data, bits, block, kernel, sign, out, read);
}

/// The block-transform watermark codec.
pub struct DctWatermark {
    block_size: usize,
}

impl DctWatermark {
    /// Side of the blocks this codec works on.
    pub closed spec fn spec_block_size(&self) -> nat {
        self.block_size as nat
    }

    /// A codec with the default block size.
    pub fn new() -> (codec: Self)
        ensures
            codec.spec_block_size() == DEFAULT_BLOCK_SIZE,
    {
        DctWatermark { block_size: DEFAULT_BLOCK_SIZE }
    }

    /// The same codec with another block size.
    pub fn with_block_size(self, size: usize) -> (codec: Self)
        ensures
            codec.spec_block_size() == size,
    {
        DctWatermark { block_size: size }
    }

    /// Side of the blocks this codec works on.
    pub fn block_size(&self) -> (size: usize)
        ensures
            size == self.spec_block_size(),
    {
        self.block_size
    }

    /// Number of bits that a `width` by `height` grid can carry: one for
    /// every block of the padded grid.
    pub fn capacity(&self, width: usize, height: usize) -> (bits: usize)
        requires
            self.spec_block_size() > 0,
            ceil_div(height as nat, self.spec_block_size()) * ceil_div(
                width as nat,
                self.spec_block_size(),
            ) <= usize::MAX,
        ensures
            bits == ceil_div(height as nat, self.spec_block_size()) * ceil_div(
                width as nat,
                self.spec_block_size(),
            ),
    {
        let down = tile_count(height, self.block_size);
        let across = tile_count(width, self.block_size);
        down * across
    }

    /// Name by which the codec is selected.
    pub fn name(&self) -> (tag: &'static str)
        ensures
            tag@ == "DCT"@,
    {
        "DCT"
    }

    /// The table of coefficient positions as a vector.
    pub fn get_mid_frequency_positions(&self) -> (table: Vec<(usize, usize)>)
        ensures
            table@ == mid_frequency_table(),
            table@.len() == TABLE_LEN,
            forall|i: int| 0 <= i < table@.len() ==> (#[trigger] table@[i]) != (0usize, 0usize),
    {
        let table = vec![
            (2usize, 1usize),
            (1usize, 2usize),
            (3usize, 1usize),
            (2usize, 2usize),
            (1usize, 3usize),
            (4usize, 1usize),
            (3usize, 2usize),
            (2usize, 3usize),
            (1usize, 4usize),
            (5usize, 1usize),
            (4usize, 2usize),
            (3usize, 3usize),
            (2usize, 4usize),
            (1usize, 5usize),
            (6usize, 1usize),
            (5usize, 2usize),
            (4usize, 3usize),
            (3usize, 4usize),
            (2usize, 5usize),
            (1usize, 6usize),
        ];
        assert(table@ =~= mid_frequency_table());
        table
    }

    /// Pads `data` to multiples of the block size by mirroring its right and
    /// bottom edges. The result has sides divisible by the block size, and a
    /// grid whose sides already are comes back unchanged.
    pub fn pad_to_block_size<T: Copy>(&self, data: &Grid<T>) -> (padded: Grid<T>)
        requires
            self.spec_block_size() > 0,
            padded_len(data@.rows(), self.spec_block_size()) <= usize::MAX,
            padded_len(data@.cols, self.spec_block_size()) <= usize::MAX,
        ensures
            padded@.wf(),
            padded@ == pad_view(data@, self.spec_block_size()),
            padded@.rows() == padded_len(data@.rows(), self.spec_block_size()),
            padded@.cols == padded_len(data@.cols, self.spec_block_size()),
            padded@.rows() % self.spec_block_size() == 0,
            padded@.cols % self.spec_block_size() == 0,
            data@.rows() % self.spec_block_size() == 0 && data@.cols % self.spec_block_size() == 0
                ==> padded@ == data@,
    {
        let bs = self.block_size;
        let height = data.rows();
        let width = data.cols();
        proof {
            lemma_padded_len(height as nat, bs as nat);
            lemma_padded_len(width as nat, bs as nat);
        }
        let new_height = tile_count(height, bs) * bs;
        let new_width = tile_count(width, bs) * bs;
        let mut lines: Vec<Vec<T>> = Vec::new();
        let mut r: usize = 0;
        while r < new_height
            invariant
                r <= new_height,
                height == data@.rows(),
                width == data@.cols,
                data@.wf(),
                new_height == padded_len(height as nat, bs as nat),
                new_width == padded_len(width as nat, bs as nat),
                height <= new_height < height + bs,
                width <= new_width < width + bs,
                height == 0 ==> new_height == 0,
                width == 0 ==> new_width == 0,
                bs > 0,
                lines@.len() == r,
                forall|q: int|
                    0 <= q < r ==> (#[trigger] lines@[q])@ == Seq::new(
                        new_width as nat,
                        |c: int| padded_at(data@, q, c),
                    ),
            decreases new_height - r,
        {
            let src_r = mirror_index(r, height);
            let mut line: Vec<T> = Vec::new();
            let mut c: usize = 0;
            while c < new_width
                invariant
                    c <= new_width,
                    height == data@.rows(),
                    width == data@.cols,
                    data@.wf(),
                    width == 0 ==> new_width == 0,
                    src_r < height,
                    src_r == mirror(r as int, height as int),
                    line@.len() == c,
                    forall|p: int| 0 <= p < c ==> line@[p] == padded_at(data@, r as int, p),
                decreases new_width - c,
            {
                let src_c = mirror_index(c, width);
                line.push(data.get(src_r, src_c));
                c += 1;
            }
            assert(line@ =~= Seq::new(new_width as nat, |c: int| padded_at(data@, r as int, c)));
            lines.push(line);
            r += 1;
        }
        let padded = Grid::from_lines(new_width, lines);
        assert(padded@ =~~= pad_view(data@, bs as nat));
        proof {
            if height % bs == 0 && width % bs == 0 {
                assert(padded@ =~~= data@);
            }
        }
        padded
    }

    /// Cuts a padded grid back to `original_height` by `original_width`.
    pub fn unpad_from_block_size<T: Copy>(
        &self,
        padded: &Grid<T>,
        original_height: usize,
        original_width: usize,
    ) -> (data: Grid<T>)
        requires
            original_height <= padded@.rows(),
            original_width <= padded@.cols,
        ensures
            data@.wf(),
            data@ == crop_view(padded@, original_height as nat, original_width as nat),
    {
        // The accessor states that the grid is well-formed.
        let _ = padded.rows();
        let mut lines: Vec<Vec<T>> = Vec::new();
        let mut r: usize = 0;
        while r < original_height
            invariant
                r <= original_height,
                original_height <= padded@.rows(),
                original_width <= padded@.cols,
                padded@.wf(),
                lines@.len() == r,
                forall|q: int|
                    0 <= q < r ==> (#[trigger] lines@[q])@ == Seq::new(
                        original_width as nat,
                        |c: int| padded@.at(q, c),
                    ),
            decreases original_height - r,
        {
            let mut line: Vec<T> = Vec::new();
            let mut c: usize = 0;
            while c < original_width
                invariant
                    c <= original_width,
                    r < original_height,
                    original_height <= padded@.rows(),
                    original_width <= padded@.cols,
                    line@.len() == c,
                    forall|p: int| 0 <= p < c ==> line@[p] == padded@.at(r as int, p),
                decreases original_width - c,
            {
                line.push(padded.get(r, c));
                c += 1;
            }
            assert(line@ =~= Seq::new(original_width as nat, |c: int| padded@.at(r as int, c)));
            lines.push(line);
            r += 1;
        }
        let data = Grid::from_lines(original_width, lines);
        assert(data@ =~~= crop_view(padded@, original_height as nat, original_width as nat));
        data
    }

    /// Number of blocks of the padded grid, in a width that cannot overflow.
    fn total_blocks<T: Copy>(&self, data: &Grid<T>) -> (total: u128)
        requires
            self.spec_block_size() > 0,
        ensures
            total == block_count(data@, self.spec_block_size()),
    {
        let down = tile_count(data.rows(), self.block_size);
        let across = tile_count(data.cols(), self.block_size);
        assert(down * across <= u128::MAX) by (nonlinear_arith)
            requires
                down <= usize::MAX,
                across <= usize::MAX,
                usize::MAX <= 0xffff_ffff_ffff_ffff,
                u128::MAX == 0xffff_ffff_ffff_ffff_ffff_ffff_ffff_ffff,
        ;
        down as u128 * across as u128
    }

    /// Copies block `k` out of the padded grid without building that grid.
    #[verifier::rlimit(40)]
    fn padded_block<T: Copy>(&self, data: &Grid<T>, k: usize) -> (blk: Grid<T>)
        requires
            self.spec_block_size() > 0,
            k < block_count(data@, self.spec_block_size()),
        ensures
            blk@.wf(),
            blk@.rows() == self.spec_block_size(),
            blk@.cols == self.spec_block_size(),
            blk@ == block_of(data@, k as int, self.spec_block_size()),
    {
        let bs = self.block_size;
        let height = data.rows();
        let width = data.cols();
        let down = tile_count(height, bs);
        let across = tile_count(width, bs);
        proof {
            lemma_padded_len(height as nat, bs as nat);
            lemma_padded_len(width as nat, bs as nat);
            if across == 0 || down == 0 {
                assert(down * across == 0) by (nonlinear_arith)
                    requires
                        across == 0 || down == 0,
                ;
            }
            lemma_position_split(k as int, across as int);
            lemma_tile_below(k as int, down as int, across as int);
        }
        let by = k / across;
        let bx = k % across;
        let mut lines: Vec<Vec<T>> = Vec::new();
        let mut a: usize = 0;
        while a < bs
            invariant
                a <= bs,
                bs > 0,
                height == data@.rows(),
                width == data@.cols,
                data@.wf(),
                height > 0,
                width > 0,
                lines@.len() == a,
                forall|q: int|
                    0 <= q < a ==> (#[trigger] lines@[q])@ == Seq::new(
                        bs as nat,
                        |b: int| padded_at(data@, by * bs + q, bx * bs + b),
                    ),
            decreases bs - a,
        {
            assert(0 <= by * bs + a <= u128::MAX) by (nonlinear_arith)
                requires
                    0 <= by <= 0xffff_ffff_ffff_ffff,
                    0 <= bs <= 0xffff_ffff_ffff_ffff,
                    0 <= a <= 0xffff_ffff_ffff_ffff,
                    u128::MAX == 0xffff_ffff_ffff_ffff_ffff_ffff_ffff_ffff,
            ;
            assert(0 <= by * bs <= by * bs + a) by (nonlinear_arith)
                requires
                    0 <= by,
                    0 <= bs,
                    0 <= a,
            ;
            let src_r = mirror_wide(by as u128 * bs as u128 + a as u128, height);
            let mut line: Vec<T> = Vec::new();
            let mut b: usize = 0;
            while b < bs
                invariant
                    b <= bs,
                    bs > 0,
                    a < bs,
                    height == data@.rows(),
                    width == data@.cols,
                    data@.wf(),
                    width > 0,
                    src_r < height,
                    src_r == mirror(by * bs + a, height as int),
                    line@.len() == b,
                    forall|p: int|
                        0 <= p < b ==> line@[p] == padded_at(data@, by * bs + a, bx * bs + p),
                decreases bs - b,
            {
                assert(0 <= bx * bs + b <= u128::MAX) by (nonlinear_arith)
                    requires
                        0 <= bx <= 0xffff_ffff_ffff_ffff,
                        0 <= bs <= 0xffff_ffff_ffff_ffff,
                        0 <= b <= 0xffff_ffff_ffff_ffff,
                        u128::MAX == 0xffff_ffff_ffff_ffff_ffff_ffff_ffff_ffff,
                ;
                assert(0 <= bx * bs <= bx * bs + b) by (nonlinear_arith)
                    requires
                        0 <= bx,
                        0 <= bs,
                        0 <= b,
                ;
                let src_c = mirror_wide(bx as u128 * bs as u128 + b as u128, width);
                line.push(data.get(src_r, src_c));
                b += 1;
            }
            assert(line@ =~= Seq::new(
                bs as nat,
                |b: int| padded_at(data@, by * bs + a, bx * bs + b),
            ));
            lines.push(line);
            a += 1;
        }
        let blk = Grid::from_lines(bs, lines);
        assert(blk@ =~~= block_of(data@, k as int, bs as nat));
        blk
    }

    /// The coefficient that carries bit `index`, if it fits into a block.
    fn target(&self, table: &Vec<(usize, usize)>, index: usize) -> (t: Option<(usize, usize)>)
        requires
            table@ == mid_frequency_table(),
        ensures
            t == target_of(index as int, self.spec_block_size()),
    {
        let p = table[index % TABLE_LEN];
        if p.0 < self.block_size && p.1 < self.block_size {
            Some(p)
        } else {
            None
        }
    }

    /// Runs the kernel over the first `watermark.len()` blocks and puts the
    /// grid together again.
    #[verifier::rlimit(40)]
    fn embed_blocks<T: Copy, K: Fn(Grid<T>, Option<(usize, usize)>, bool) -> Grid<T>>(
        &self,
        data: &Grid<T>,
        watermark: &[u8],
        kernel: K,
    ) -> (res: Result<Grid<T>, WatermarkError>)
        requires
            self.spec_block_size() > 0,
            block_kernel(kernel, self.spec_block_size()),
        ensures
            res is Ok <==> admits(data@, watermark@.len(), self.spec_block_size()),
            res matches Err(e) ==> e matches WatermarkError::InvalidArgument(text) && text@
                == overlong_text(
                block_count(data@, self.spec_block_size()),
                watermark@.len(),
            ),
            res matches Ok(out) ==> out@.wf() && out@.same_shape(data@) && embedded(
                data@,
                watermark@,
                self.spec_block_size(),
                kernel,
                out@,
            ),
    {
        let bs = self.block_size;
        let height = data.rows();
        let width = data.cols();
        let total = self.total_blocks(data);
        let n = watermark.len();
        if n as u128 > total {
            return Err(WatermarkError::InvalidArgument(overlong_message(total, n)));
        }
        let across = tile_count(width, bs);
        let table = self.get_mid_frequency_positions();
        let mut marked: Vec<Grid<T>> = Vec::new();
        let ghost mut blocks: Seq<GridView<T>> = Seq::empty();
        let mut k: usize = 0;
        while k < n
            invariant
                k <= n,
                n == watermark@.len(),
                n <= total,
                total == block_count(data@, bs as nat),
                bs == self.spec_block_size(),
                bs > 0,
                block_kernel(kernel, bs as nat),
                table@ == mid_frequency_table(),
                marked@.len() == k,
                blocks.len() == k,
                forall|j: int| 0 <= j < k ==> (#[trigger] marked@[j])@ == blocks[j],
                forall|j: int|
                    0 <= j < k ==> {
                        &&& (#[trigger] blocks[j]).wf()
                        &&& blocks[j].rows() == bs
                        &&& blocks[j].cols == bs
                        &&& marks(
                            kernel,
                            block_of(data@, j, bs as nat),
                            target_of(j, bs as nat),
                            watermark@[j] == 1,
                            blocks[j],
                        )
                    },
            decreases n - k,
        {
            let blk = self.padded_block(data, k);
            let target = self.target(&table, k);
            let flag = watermark[k] == 1;
            let ghost before = blk;
            let ghost earlier = blocks;
            let out = kernel(blk, target, flag);
            // The accessor states that the block is well-formed.
            let _ = out.rows();
            let ghost out_view = out@;
            proof {
                assert(call_ensures(kernel, (before, target, flag), out));
                assert(marks(kernel, before@, target, flag, out_view));
            }
            marked.push(out);
            proof {
                blocks = blocks.push(out_view);
                assert forall|j: int| 0 <= j < k + 1 implies (#[trigger] marked@[j])@
                    == blocks[j] by {
                    if j < k {
                        assert(blocks[j] == earlier[j]);
                    }
                }
                assert forall|j: int| 0 <= j < k + 1 implies {
                    &&& (#[trigger] blocks[j]).wf()
                    &&& blocks[j].rows() == bs
                    &&& blocks[j].cols == bs
                    &&& marks(
                        kernel,
                        block_of(data@, j, bs as nat),
                        target_of(j, bs as nat),
                        watermark@[j] == 1,
                        blocks[j],
                    )
                } by {
                    if j < k {
                        assert(blocks[j] == earlier[j]);
                        assert(earlier[j].wf());
                    }
                }
            }
            k += 1;
        }
        let mut lines: Vec<Vec<T>> = Vec::new();
        let mut r: usize = 0;
        while r < height
            invariant
                r <= height,
                height == data@.rows(),
                width == data@.cols,
                data@.wf(),
                bs > 0,
                across == ceil_div(width as nat, bs as nat),
                n == marked@.len(),
                n == blocks.len(),
                forall|j: int| 0 <= j < n ==> (#[trigger] marked@[j])@ == blocks[j],
                forall|j: int|
                    0 <= j < n ==> {
                        &&& (#[trigger] blocks[j]).wf()
                        &&& blocks[j].rows() == bs
                        &&& blocks[j].cols == bs
                        &&& marks(
                            kernel,
                            block_of(data@, j, bs as nat),
                            target_of(j, bs as nat),
                            watermark@[j] == 1,
                            blocks[j],
                        )
                    },
                lines@.len() == r,
                n == watermark@.len(),
                forall|q: int|
                    0 <= q < r ==> (#[trigger] lines@[q])@ == assemble(data@, blocks, bs as nat).lines[q],
            decreases height - r,
        {
            let mut line: Vec<T> = Vec::new();
            let mut c: usize = 0;
            while c < width
                invariant
                    c <= width,
                    r < height,
                    height == data@.rows(),
                    width == data@.cols,
                    data@.wf(),
                    bs > 0,
                    across == ceil_div(width as nat, bs as nat),
                    n == marked@.len(),
                    n == blocks.len(),
                    forall|j: int| 0 <= j < n ==> (#[trigger] marked@[j])@ == blocks[j],
                    forall|j: int|
                        0 <= j < n ==> {
                            &&& (#[trigger] blocks[j]).wf()
                            &&& blocks[j].rows() == bs
                            &&& blocks[j].cols == bs
                        },
                    line@.len() == c,
                    forall|p: int|
                        0 <= p < c ==> line@[p] == assemble(data@, blocks, bs as nat).at(
                            r as int,
                            p,
                        ),
                decreases width - c,
            {
                let by = r / bs;
                let bx = c / bs;
                assert(by * across + bx <= u128::MAX) by (nonlinear_arith)
                    requires
                        by <= usize::MAX,
                        across <= usize::MAX,
                        bx <= usize::MAX,
                        usize::MAX <= 0xffff_ffff_ffff_ffff,
                        u128::MAX == 0xffff_ffff_ffff_ffff_ffff_ffff_ffff_ffff,
                ;
                assert(by * across <= by * across + bx) by (nonlinear_arith)
                    requires
                        bx >= 0,
                ;
                let index = by as u128 * across as u128 + bx as u128;
                proof {
                    lemma_position_split(r as int, bs as int);
                    lemma_position_split(c as int, bs as int);
                }
                let v = if index < n as u128 {
                    marked[index as usize].get(r % bs, c % bs)
                } else {
                    data.get(r, c)
                };
                line.push(v);
                c += 1;
            }
            assert(line@ =~= assemble(data@, blocks, bs as nat).lines[r as int]);
            lines.push(line);
            r += 1;
        }
        let out = Grid::from_lines(width, lines);
        assert(out@ =~~= assemble(data@, blocks, bs as nat));
        assert(embedded(data@, watermark@, bs as nat, kernel, out@));
        Ok(out)
    }

    /// Embeds `watermark` into `data`, one bit per block in row-major block
    /// order: bit `k` goes to the coefficient `target_of(k, ..)` of block `k`,
    /// where the kernel writes the flag `watermark[k] == 1`. Nothing is
    /// changed unless the whole payload fits.
    pub fn embed<T: Copy, K: Fn(Grid<T>, Option<(usize, usize)>, bool) -> Grid<T>>(
        &self,
        data: &Grid<T>,
        watermark: &[u8],
        kernel: K,
    ) -> (res: Result<Grid<T>, WatermarkError>)
        requires
            self.spec_block_size() > 0,
            block_kernel(kernel, self.spec_block_size()),
        ensures
            res is Ok <==> admits(data@, watermark@.len(), self.spec_block_size()),
            res matches Err(e) ==> e matches WatermarkError::InvalidArgument(text) && text@
                == overlong_text(
                block_count(data@, self.spec_block_size()),
                watermark@.len(),
            ),
            res matches Ok(out) ==> out@.wf() && out@.same_shape(data@) && embedded(
                data@,
                watermark@,
                self.spec_block_size(),
                kernel,
                out@,
            ),
    {
        self.embed_blocks(data, watermark, kernel)
    }

    /// Embeds `watermark` with a kernel tuned for audio. The layout is that
    /// of `embed`, so that `extract` reads the payload back.
    pub fn embed_audio_optimized<
        T: Copy,
        K: Fn(Grid<T>, Option<(usize, usize)>, bool) -> Grid<T>,
    >(&self, data: &Grid<T>, watermark: &[u8], kernel: K) -> (res: Result<
        Grid<T>,
        WatermarkError,
    >)
        requires
            self.spec_block_size() > 0,
            block_kernel(kernel, self.spec_block_size()),
        ensures
            res is Ok <==> admits(data@, watermark@.len(), self.spec_block_size()),
            res matches Err(e) ==> e matches WatermarkError::InvalidArgument(text) && text@
                == overlong_text(
                block_count(data@, self.spec_block_size()),
                watermark@.len(),
            ),
            res matches Ok(out) ==> out@.wf() && out@.same_shape(data@) && embedded(
                data@,
                watermark@,
                self.spec_block_size(),
                kernel,
                out@,
            ),
    {
        self.embed_blocks(data, watermark, kernel)
    }

    /// Reads the first `expected_length` bits back, one per block in
    /// row-major block order, stopping early at a bit whose table entry does
    /// not fit into a block.
    #[verifier::rlimit(40)]
    fn read_blocks<T: Copy, S: Fn(Grid<T>, usize, usize) -> bool>(
        &self,
        data: &Grid<T>,
        expected_length: usize,
        sign: S,
    ) -> (res: Result<Vec<u8>, WatermarkError>)
        requires
            self.spec_block_size() > 0,
            sign_kernel(sign, self.spec_block_size()),
        ensures
            res is Ok <==> admits(data@, expected_length as nat, self.spec_block_size()),
            res matches Err(e) ==> e matches WatermarkError::InvalidArgument(text) && text@
                == overdrawn_text(
                expected_length as nat,
                block_count(data@, self.spec_block_size()),
            ),
            res matches Ok(bits) ==> extracted(
                data@,
                expected_length as nat,
                self.spec_block_size(),
                sign,
                bits@,
            ),
    {
        let bs = self.block_size;
        let total = self.total_blocks(data);
        if expected_length as u128 > total {
            return Err(
                WatermarkError::InvalidArgument(overdrawn_message(expected_length, total)),
            );
        }
        let table = self.get_mid_frequency_positions();
        let mut bits: Vec<u8> = Vec::new();
        let mut k: usize = 0;
        while k < expected_length
            invariant_except_break
                k <= expected_length,
                bits@.len() == k,
                readable(k as nat, bs as nat) == k,
            invariant
                expected_length <= total,
                total == block_count(data@, bs as nat),
                bs == self.spec_block_size(),
                bs > 0,
                sign_kernel(sign, bs as nat),
                table@ == mid_frequency_table(),
                forall|j: int|
                    0 <= j < bits@.len() ==> #[trigger] bit_read(
                        data@,
                        bs as nat,
                        sign,
                        j,
                        bits@[j],
                    ),
            ensures
                bits@.len() == readable(expected_length as nat, bs as nat),
            decreases expected_length - k,
        {
            match self.target(&table, k) {
                None => {
                    proof {
                        lemma_readable_stops(k as nat, expected_length as nat, bs as nat);
                    }
                    break ;
                },
                Some(p) => {
                    let blk = self.padded_block(data, k);
                    let ghost before = blk;
                    let ghost earlier = bits@;
                    let flag = sign(blk, p.0, p.1);
                    let bit: u8 = if flag {
                        1
                    } else {
                        0
                    };
                    bits.push(bit);
                    proof {
                        assert(call_ensures(sign, (before, p.0, p.1), flag));
                        assert(reads(sign, before@, p.0, p.1, flag));
                        assert forall|j: int| 0 <= j < bits@.len() implies #[trigger] bit_read(
                            data@,
                            bs as nat,
                            sign,
                            j,
                            bits@[j],
                        ) by {
                            if j < k {
                                assert(bits@[j] == earlier[j]);
                                assert(bit_read(data@, bs as nat, sign, j, earlier[j]));
                            }
                        }
                    }
                    k += 1;
                },
            }
        }
        Ok(bits)
    }

    /// Extracts `expected_length` bits from `data`: bit `k` is 1 when the
    /// kernel finds the coefficient of bit `k` in block `k` non-negative, and
    /// 0 otherwise.
    pub fn extract<T: Copy, S: Fn(Grid<T>, usize, usize) -> bool>(
        &self,
        data: &Grid<T>,
        expected_length: usize,
        sign: S,
    ) -> (res: Result<Vec<u8>, WatermarkError>)
        requires
            self.spec_block_size() > 0,
            sign_kernel(sign, self.spec_block_size()),
        ensures
            res is Ok <==> admits(data@, expected_length as nat, self.spec_block_size()),
            res matches Err(e) ==> e matches WatermarkError::InvalidArgument(text) && text@
                == overdrawn_text(
                expected_length as nat,
                block_count(data@, self.spec_block_size()),
            ),
            res matches Ok(bits) ==> extracted(
                data@,
                expected_length as nat,
                self.spec_block_size(),
                sign,
                bits@,
            ),
    {
        self.read_blocks(data, expected_length, sign)
    }

    /// Extracts bits that `embed_audio_optimized` wrote; the layout is that
    /// of `extract`.
    pub fn extract_audio_optimized<T: Copy, S: Fn(Grid<T>, usize, usize) -> bool>(
        &self,
        data: &Grid<T>,
        expected_length: usize,
        sign: S,
    ) -> (res: Result<Vec<u8>, WatermarkError>)
        requires
            self.spec_block_size() > 0,
            sign_kernel(sign, self.spec_block_size()),
        ensures
            res is Ok <==> admits(data@, expected_length as nat, self.spec_block_size()),
            res matches Err(e) ==> e matches WatermarkError::InvalidArgument(text) && text@
                == overdrawn_text(
                expected_length as nat,
                block_count(data@, self.spec_block_size()),
            ),
            res matches Ok(bits) ==> extracted(
                data@,
                expected_length as nat,
                self.spec_block_size(),
                sign,
                bits@,
            ),
    {
        self.read_blocks(data, expected_length, sign)
    }
}

} // verus!
