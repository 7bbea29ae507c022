use vstd::prelude::*;
use crate::color::{ChanV, RGBColor, chan_bounded, colors_v, seq_bounded};
use crate::block::{
    Block, BlockV, block_bounded, blocks_bounded, blocks_v, corner, zero_chan,
};
use vstd::arithmetic::div_mod::{lemma_fundamental_div_mod, lemma_fundamental_div_mod_converse};

verus! {

// A coefficient grid of `gw` columns and `gh` rows is tiled into
// non-overlapping 2x2 windows, scanned row-major and advancing by 2 in
// both axes.  Only whole windows count: a trailing odd row or column of
// the grid is dropped — never read by decomposition, and left zero by
// recomposition — matching the truncation rule of the forward transform
// so that indices stay consistent end-to-end.

/// Number of whole 2x2 windows along an axis holding `g` coefficients.
pub open spec fn wcount(g: int) -> int {
    g / 2
}

/// Number of blocks that a `gw` by `gh` grid decomposes into.
pub open spec fn nblocks(gw: int, gh: int) -> int {
    wcount(gw) * wcount(gh)
}

/// The block of the `k`-th whole 2x2 window of the grid, windows numbered
/// row-major.
pub open spec fn block_at(g: Seq<ChanV>, gw: int, k: int) -> BlockV {
    let wy = 2 * (k / wcount(gw));
    let wx = 2 * (k % wcount(gw));
    (
        g[wy * gw + wx],
        g[wy * gw + wx + 1],
        g[(wy + 1) * gw + wx],
        g[(wy + 1) * gw + wx + 1],
    )
}

/// Partition of a grid into its sequence of whole 2x2 blocks, in
/// canonical scan order.
pub open spec fn decompose_grid(g: Seq<ChanV>, gw: int, gh: int) -> Seq<BlockV> {
    Seq::new(nblocks(gw, gh) as nat, |k: int| block_at(g, gw, k))
}

/// The grid obtained by writing each block's four corners back to the
/// four positions of its window; cells of a trailing odd row or column
/// belong to no whole window and stay zero.
pub open spec fn recompose_grid(bs: Seq<BlockV>, gw: int, gh: int) -> Seq<ChanV> {
    Seq::new((gw * gh) as nat, |i: int| {
        let y = i / gw;
        let x = i % gw;
        if y / 2 < wcount(gh) && x / 2 < wcount(gw) {
            corner(bs[(y / 2) * wcount(gw) + x / 2], 2 * (y % 2) + (x % 2))
        } else {
            zero_chan()
        }
    })
}

proof fn lemma_row_major_bound(y: int, x: int, gw: int, gh: int)
    requires
        0 <= y < gh,
        0 <= x < gw,
    ensures
        0 <= y * gw + x < gw * gh,
{
    assert(0 <= y * gw + x < gw * gh) by (nonlinear_arith)
        requires
            0 <= y < gh,
            0 <= x < gw,
    ;
}

/// Encoding a window position as `wy * wc + wx` and decoding it by
/// division and remainder are inverse.
proof fn lemma_encode_decode(wy: int, wx: int, wc: int)
    requires
        0 <= wy,
        0 <= wx < wc,
    ensures
        (wy * wc + wx) / wc == wy,
        (wy * wc + wx) % wc == wx,
{
    lemma_fundamental_div_mod_converse(wy * wc + wx, wc, wy, wx);
}

/// The four grid positions of window `(wy, wx)` exist and lie row-major
/// inside the grid.
proof fn lemma_window_in_grid(gw: int, gh: int, wy: int, wx: int)
    requires
        0 <= gw,
        0 <= gh,
        0 <= wy < wcount(gh),
        0 <= wx < wcount(gw),
    ensures
        2 * wy + 1 < gh,
        2 * wx + 1 < gw,
        0 <= (2 * wy) * gw + 2 * wx,
        ((2 * wy) + 1) * gw + 2 * wx + 1 < gw * gh,
{
    lemma_fundamental_div_mod(gw, 2);
    lemma_fundamental_div_mod(gh, 2);
    assert(2 * wy + 1 < gh && 2 * wx + 1 < gw) by (nonlinear_arith)
        requires
            0 <= wy <= gh / 2 - 1, 0 <= wx <= gw / 2 - 1,
            2 * (gh / 2) <= gh, 2 * (gw / 2) <= gw,
    ;
    assert(0 <= (2 * wy) * gw + 2 * wx && ((2 * wy) + 1) * gw + 2 * wx + 1 < gw * gh)
        by (nonlinear_arith)
        requires
            0 <= wy, 2 * wy + 1 < gh, 0 <= wx, 2 * wx + 1 < gw,
    ;
}

/// Partitions one coefficient grid into its sequence of whole 2x2
/// blocks.
///
/// `orig_width` and `orig_height` are the dimensions of the image the
/// grid came from; the grid itself holds one coefficient per pair of
/// image columns and rows.
pub fn blocking_extract_one(mat: &Vec<RGBColor>, orig_width: usize, orig_height: usize)
    -> (res: Vec<Block>)
    requires
        mat@.len() == (orig_width as int / 2) * (orig_height as int / 2),
    ensures
        blocks_v(res@) == decompose_grid(
            colors_v(mat@), orig_width as int / 2, orig_height as int / 2),
{
    let gw: usize = orig_width / 2;
    let gh: usize = orig_height / 2;
    let wc: usize = gw / 2;
    let wr: usize = gh / 2;
    let ghost g = colors_v(mat@);
    let mut res: Vec<Block> = Vec::new();
    let mut wy: usize = 0;
    while wy < wr
        invariant
            0 <= wy <= wr,
            wc == wcount(gw as int),
            wr == wcount(gh as int),
            mat@.len() == gw * gh,
            g == colors_v(mat@),
            res@.len() == wy * wc,
            forall|k: int| 0 <= k < res@.len()
                ==> (#[trigger] res@[k])@ == block_at(g, gw as int, k),
        decreases wr - wy,
    {
        let mut wx: usize = 0;
        proof {
            assert((wy + 1) * wc == wy * wc + wc) by (nonlinear_arith);
            assert(wy * wc + wc <= wr * wc) by (nonlinear_arith)
                requires wy + 1 <= wr, 0 <= wc;
        }
        while wx < wc
            invariant
                0 <= wx <= wc,
                0 <= wy < wr,
                wc == wcount(gw as int),
                wr == wcount(gh as int),
                mat@.len() == gw * gh,
                g == colors_v(mat@),
                res@.len() == wy * wc + wx,
                forall|k: int| 0 <= k < res@.len()
                    ==> (#[trigger] res@[k])@ == block_at(g, gw as int, k),
            decreases wc - wx,
        {
            proof {
                vstd::std_specs::vec::axiom_spec_len(mat);
                lemma_window_in_grid(gw as int, gh as int, wy as int, wx as int);
                lemma_row_major_bound(2 * wy as int, 2 * wx as int, gw as int, gh as int);
                lemma_row_major_bound(2 * wy as int, 2 * wx as int + 1, gw as int, gh as int);
                lemma_row_major_bound(2 * wy as int + 1, 2 * wx as int, gw as int, gh as int);
                lemma_row_major_bound(2 * wy as int + 1, 2 * wx as int + 1, gw as int,
                    gh as int);
            }
            let b = Block {
                p0: mat[(2 * wy) * gw + 2 * wx],
                p1: mat[(2 * wy) * gw + 2 * wx + 1],
                p2: mat[(2 * wy + 1) * gw + 2 * wx],
                p3: mat[(2 * wy + 1) * gw + 2 * wx + 1],
            };
            proof {
                lemma_encode_decode(wy as int, wx as int, wc as int);
                assert(b@ == block_at(g, gw as int, (wy * wc + wx) as int));
            }
            res.push(b);
            wx = wx + 1;
        }
        wy = wy + 1;
        proof {
            assert(wy * wc == (wy - 1) * wc + wc) by (nonlinear_arith);
        }
    }
    proof {
        assert(nblocks(gw as int, gh as int) == wc * wr
            && nblocks(gw as int, gh as int) == wr * wc) by (nonlinear_arith)
            requires wc == wcount(gw as int), wr == wcount(gh as int);
        assert(blocks_v(res@) =~= decompose_grid(g, gw as int, gh as int));
    }
    res
}

/// Writes a sequence of blocks back into one coefficient grid of `width`
/// columns and `height` rows, the exact inverse of decomposition on the
/// whole windows; cells of a trailing odd row or column stay zero.
pub fn rearrange_one_block(arr: &Vec<Block>, width: usize, height: usize)
    -> (res: Vec<RGBColor>)
    requires
        nblocks(width as int, height as int) <= arr@.len(),
        width * height <= usize::MAX,
    ensures
        colors_v(res@) == recompose_grid(blocks_v(arr@), width as int, height as int),
        res@.len() == width * height,
{
    let ghost bs = blocks_v(arr@);
    let total: usize = width * height;
    let wc: usize = width / 2;
    let wr: usize = height / 2;
    let mut res: Vec<RGBColor> = Vec::new();
    let mut i: usize = 0;
    while i < total
        invariant
            0 <= i <= total,
            total == width * height,
            wc == wcount(width as int),
            wr == wcount(height as int),
            nblocks(width as int, height as int) <= arr@.len(),
            bs == blocks_v(arr@),
            res@.len() == i,
            forall|j: int| 0 <= j < res@.len()
                ==> (#[trigger] res@[j])@ == recompose_grid(bs, width as int, height as int)[j],
        decreases total - i,
    {
        proof {
            assert(width > 0 && height > 0) by (nonlinear_arith)
                requires i < width * height, 0 <= i;
        }
        let y: usize = i / width;
        let x: usize = i % width;
        proof {
            vstd::std_specs::vec::axiom_spec_len(arr);
            vstd::arithmetic::div_mod::lemma_fundamental_div_mod(i as int, width as int);
            assert(y < height) by (nonlinear_arith)
                requires
                    i < width * height, y == i / width, 0 < width,
                    i == width * (i / width) + (i % width), 0 <= i % width,
            ;
            assert((y as int / 2) * wcount(width as int) + (x as int) / 2
                < nblocks(width as int, height as int)
                || !(y as int / 2 < wcount(height as int)
                    && x as int / 2 < wcount(width as int))) by (nonlinear_arith)
                requires
                    0 <= y as int / 2,
                    0 <= x as int / 2,
                    nblocks(width as int, height as int)
                        == wcount(width as int) * wcount(height as int),
            ;
        }
        let c = if y / 2 < wr && x / 2 < wc {
            let bi: usize = (y / 2) * wc + x / 2;
            let block = &arr[bi];
            if y % 2 == 0 && x % 2 == 0 {
                block.p0
            } else if y % 2 == 0 {
                block.p1
            } else if x % 2 == 0 {
                block.p2
            } else {
                block.p3
            }
        } else {
            RGBColor::new(0, 0, 0)
        };
        res.push(c);
        i = i + 1;
    }
    proof {
        assert(colors_v(res@) =~= recompose_grid(bs, width as int, height as int));
    }
    res
}

/// Recomposition inverts decomposition on any grid with both dimensions
/// even: every cell belongs to a whole window and is written back.
pub proof fn lemma_recompose_decompose(g: Seq<ChanV>, gw: int, gh: int)
    requires
        0 <= gw,
        0 <= gh,
        gw % 2 == 0,
        gh % 2 == 0,
        g.len() == gw * gh,
    ensures
        recompose_grid(decompose_grid(g, gw, gh), gw, gh) =~= g,
{
    let bs = decompose_grid(g, gw, gh);
    let r = recompose_grid(bs, gw, gh);
    assert(gw * gh >= 0) by (nonlinear_arith)
        requires 0 <= gw, 0 <= gh;
    assert(r.len() == g.len());
    lemma_fundamental_div_mod(gw, 2);
    lemma_fundamental_div_mod(gh, 2);
    assert(gw == 2 * wcount(gw) && gh == 2 * wcount(gh));
    assert forall|i: int| 0 <= i < g.len() implies r[i] == g[i] by {
        assert(gw > 0 && gh > 0) by (nonlinear_arith)
            requires 0 <= i < gw * gh, 0 <= gw, 0 <= gh;
        let y = i / gw;
        let x = i % gw;
        lemma_fundamental_div_mod(i, gw);
        assert(y < gh) by (nonlinear_arith)
            requires
                i < gw * gh, y == i / gw, 0 < gw,
                i == gw * (i / gw) + (i % gw), 0 <= i % gw < gw,
        ;
        assert(y / 2 < wcount(gh) && x / 2 < wcount(gw)) by (nonlinear_arith)
            requires
                0 <= y < gh, 0 <= x < gw,
                gw == 2 * wcount(gw), gh == 2 * wcount(gh),
        ;
        let k = (y / 2) * wcount(gw) + x / 2;
        assert(0 <= k < nblocks(gw, gh)) by (nonlinear_arith)
            requires
                0 <= y / 2 <= wcount(gh) - 1,
                0 <= x / 2 < wcount(gw),
                k == (y / 2) * wcount(gw) + x / 2,
                nblocks(gw, gh) == wcount(gw) * wcount(gh),
        ;
        lemma_encode_decode(y / 2, x / 2, wcount(gw));
        assert(bs[k] == block_at(g, gw, k));
        assert(2 * (k / wcount(gw)) == 2 * (y / 2));
        assert(y == 2 * (y / 2) + y % 2 && x == 2 * (x / 2) + x % 2);
        assert((2 * (y / 2)) * gw + 2 * (x / 2) + (y % 2) * gw + x % 2 == y * gw + x)
            by (nonlinear_arith)
            requires y == 2 * (y / 2) + y % 2, x == 2 * (x / 2) + x % 2;
        assert(y * gw + x == i) by (nonlinear_arith)
            requires i == gw * (i / gw) + i % gw, y == i / gw, x == i % gw;
        if y % 2 == 0 && x % 2 == 0 {
            assert(r[i] == bs[k].0);
        } else if y % 2 == 0 {
            assert(r[i] == bs[k].1);
        } else if x % 2 == 0 {
            assert(r[i] == bs[k].2);
        } else {
            assert(r[i] == bs[k].3);
        }
    }
}

/// Decomposition inverts recomposition on any block sequence of the
/// right length, whatever the grid dimensions: each block's corners are
/// read back from the very cells its window was written to.
pub proof fn lemma_decompose_recompose(bs: Seq<BlockV>, gw: int, gh: int)
    requires
        0 <= gw,
        0 <= gh,
        bs.len() == nblocks(gw, gh),
    ensures
        decompose_grid(recompose_grid(bs, gw, gh), gw, gh) =~= bs,
{
    let r = recompose_grid(bs, gw, gh);
    let ds = decompose_grid(r, gw, gh);
    assert forall|k: int| 0 <= k < bs.len() implies ds[k] == bs[k] by {
        lemma_block_cell_roundtrip(bs, gw, gh, k);
    }
}

/// One block round-trips through recomposition: each of its four corners
/// is read back from the grid position it was written to.
proof fn lemma_block_cell_roundtrip(bs: Seq<BlockV>, gw: int, gh: int, k: int)
    requires
        0 <= gw,
        0 <= gh,
        bs.len() == nblocks(gw, gh),
        0 <= k < bs.len(),
    ensures
        block_at(recompose_grid(bs, gw, gh), gw, k) == bs[k],
{
    let wc = wcount(gw);
    let wr = wcount(gh);
    assert(0 <= k / wc && k / wc < wr && 0 <= k % wc < wc) by (nonlinear_arith)
        requires 0 <= k < wc * wr, 0 <= wc, 0 <= wr;
    lemma_cell_value(bs, gw, gh, k, 0, 0);
    lemma_cell_value(bs, gw, gh, k, 0, 1);
    lemma_cell_value(bs, gw, gh, k, 1, 0);
    lemma_cell_value(bs, gw, gh, k, 1, 1);
}

/// The value that recomposition leaves at the `(dy, dx)` position of the
/// `k`-th window: the matching corner of `bs[k]`.
proof fn lemma_cell_value(bs: Seq<BlockV>, gw: int, gh: int, k: int, dy: int, dx: int)
    requires
        0 <= gw,
        0 <= gh,
        bs.len() == nblocks(gw, gh),
        0 <= k < bs.len(),
        0 <= dy <= 1,
        0 <= dx <= 1,
    ensures
        recompose_grid(bs, gw, gh)[(2 * (k / wcount(gw)) + dy) * gw
            + 2 * (k % wcount(gw)) + dx] == corner(bs[k], 2 * dy + dx),
{
    let r = recompose_grid(bs, gw, gh);
    let wc = wcount(gw);
    let wr = wcount(gh);
    assert(0 <= k / wc && k / wc < wr && 0 <= k % wc < wc) by (nonlinear_arith)
        requires 0 <= k < wc * wr, 0 <= wc, 0 <= wr;
    lemma_window_in_grid(gw, gh, k / wc, k % wc);
    let y = 2 * (k / wc) + dy;
    let x = 2 * (k % wc) + dx;
    lemma_row_major_bound(y, x, gw, gh);
    let i = y * gw + x;
    assert(r.len() == gw * gh);
    lemma_encode_decode(y, x, gw);
    assert(i / gw == y && i % gw == x) by {
        lemma_fundamental_div_mod_converse(i, gw, y, x);
    }
    assert(y / 2 == k / wc && y % 2 == dy) by {
        lemma_fundamental_div_mod_converse(y, 2, k / wc, dy);
    }
    assert(x / 2 == k % wc && x % 2 == dx) by {
        lemma_fundamental_div_mod_converse(x, 2, k % wc, dx);
    }
    vstd::arithmetic::div_mod::lemma_fundamental_div_mod(k, wc);
    assert((y / 2) * wc + x / 2 == k) by (nonlinear_arith)
        requires
            y / 2 == k / wc, x / 2 == k % wc,
            k == wc * (k / wc) + k % wc,
    ;
    assert(r[i] == corner(bs[k], 2 * dy + dx));
}

/// Decomposition preserves channel bounds: a block's corners are grid
/// values.
pub proof fn lemma_decompose_bounded(g: Seq<ChanV>, gw: int, gh: int, bound: int)
    requires
        0 <= gw,
        0 <= gh,
        g.len() == gw * gh,
        seq_bounded(g, bound),
        bound >= 0,
    ensures
        blocks_bounded(decompose_grid(g, gw, gh), bound),
{
    let bs = decompose_grid(g, gw, gh);
    let wc = wcount(gw);
    let wr = wcount(gh);
    assert forall|k: int| 0 <= k < bs.len() implies block_bounded(#[trigger] bs[k], bound) by {
        assert(0 <= k / wc && k / wc < wr && 0 <= k % wc < wc) by (nonlinear_arith)
            requires 0 <= k < wc * wr, 0 <= wc, 0 <= wr;
        lemma_window_in_grid(gw, gh, k / wc, k % wc);
        lemma_row_major_bound(2 * (k / wc), 2 * (k % wc), gw, gh);
        lemma_row_major_bound(2 * (k / wc), 2 * (k % wc) + 1, gw, gh);
        lemma_row_major_bound(2 * (k / wc) + 1, 2 * (k % wc), gw, gh);
        lemma_row_major_bound(2 * (k / wc) + 1, 2 * (k % wc) + 1, gw, gh);
        assert(chan_bounded(g[(2 * (k / wc)) * gw + 2 * (k % wc)], bound));
        assert(chan_bounded(g[(2 * (k / wc)) * gw + 2 * (k % wc) + 1], bound));
        assert(chan_bounded(g[(2 * (k / wc) + 1) * gw + 2 * (k % wc)], bound));
        assert(chan_bounded(g[(2 * (k / wc) + 1) * gw + 2 * (k % wc) + 1], bound));
    }
}

/// Recomposition preserves channel bounds: every cell is a block corner
/// or zero.
pub proof fn lemma_recompose_bounded(bs: Seq<BlockV>, gw: int, gh: int, bound: int)
    requires
        0 <= gw,
        0 <= gh,
        nblocks(gw, gh) <= bs.len(),
        blocks_bounded(bs, bound),
        bound >= 0,
    ensures
        seq_bounded(recompose_grid(bs, gw, gh), bound),
{
    let r = recompose_grid(bs, gw, gh);
    assert(gw * gh >= 0) by (nonlinear_arith)
        requires 0 <= gw, 0 <= gh;
    assert forall|i: int| 0 <= i < r.len() implies chan_bounded(#[trigger] r[i], bound) by {
        assert(gw > 0 && gh > 0) by (nonlinear_arith)
            requires 0 <= i < gw * gh, 0 <= gw, 0 <= gh;
        let y = i / gw;
        let x = i % gw;
        if y / 2 < wcount(gh) && x / 2 < wcount(gw) {
            assert(0 <= (y / 2) * wcount(gw) + x / 2 < nblocks(gw, gh)) by (nonlinear_arith)
                requires
                    0 <= y / 2 <= wcount(gh) - 1,
                    0 <= x / 2 < wcount(gw),
                    nblocks(gw, gh) == wcount(gw) * wcount(gh),
            ;
            assert(block_bounded(bs[(y / 2) * wcount(gw) + x / 2], bound));
        }
    }
}

/// A grid never decomposes into more blocks than it has coefficients.
pub proof fn lemma_nblocks_le(gw: int, gh: int)
    requires
        0 <= gw,
        0 <= gh,
    ensures
        0 <= nblocks(gw, gh) <= gw * gh,
{
    assert(0 <= wcount(gw) <= gw && 0 <= wcount(gh) <= gh);
    assert(0 <= wcount(gw) * wcount(gh) <= gw * gh) by (nonlinear_arith)
        requires
            0 <= wcount(gw) <= gw,
            0 <= wcount(gh) <= gh,
    ;
}

} // verus!
