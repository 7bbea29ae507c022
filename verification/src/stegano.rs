use vstd::prelude::*;
use crate::block::{
    Block, BlockV, block_bounded, block_sub, blocks_bounded, blocks_v, bsub_v,
    lemma_blocks_bounded_widen, zero_block, zero_block_v,
};
use crate::codec::{
    blocking_extract_one, decompose_grid, lemma_decompose_bounded, lemma_recompose_bounded,
    nblocks, recompose_grid,
};
use crate::color::ChanV;
use crate::error::StegoError;
use crate::image::{PPMImage, ppm_bounded, ppm_wf};
use crate::matching::{
    ERR_LIMIT, best_idx, err_s, find_most_fit_block_index, lemma_best_idx_is_best, matching,
    matching_s, root_mean_square_error,
};
use crate::transform::{
    DWTImage, DwtV, INVERSE_LIMIT, dwt_bounded, dwt_of, dwt_wf, inverse_pixels,
    lemma_forward_bounded, lemma_inverse_pixels_bounded,
};

verus! {

/// Largest pixel channel magnitude the embedding entry point accepts.
pub const EMBED_LIMIT: i32 = 65536;

/// Coefficient bound of a decomposition the embedding engine works on:
/// the forward transform of an `EMBED_LIMIT`-bounded image stays within
/// it, and difference blocks stay within twice of it.
pub const EMBED_BAND_LIMIT: i32 = 262144;

/// The mathematical values of a sequence of indices.
pub open spec fn usizes_v(s: Seq<usize>) -> Seq<int> {
    s.map_values(|u: usize| u as int)
}

/// The mathematical values of a sequence of (band, index) pairs.
pub open spec fn keys_v(s: Seq<(usize, usize)>) -> Seq<(int, int)> {
    s.map_values(|p: (usize, usize)| (p.0 as int, p.1 as int))
}

/// For every target block, its difference from the candidate block its
/// key names.
pub open spec fn diffs_s(sa: Seq<BlockV>, ia: Seq<BlockV>, key1: Seq<int>) -> Seq<BlockV> {
    Seq::new(sa.len(), |i: int| bsub_v(sa[i], ia[key1[i]]))
}

/// Subtracts from every secret approximation block the cover block its
/// key names.
pub fn block_differences_computation(
    sa: &Vec<Block>,
    ia: &Vec<Block>,
    index_arr: &Vec<usize>,
) -> (result: Vec<Block>)
    requires
        index_arr@.len() == sa@.len(),
        forall|i: int| 0 <= i < index_arr@.len() ==> (#[trigger] index_arr@[i]) < ia@.len(),
        blocks_bounded(blocks_v(sa@), EMBED_BAND_LIMIT as int),
        blocks_bounded(blocks_v(ia@), EMBED_BAND_LIMIT as int),
    ensures
        blocks_v(result@) == diffs_s(blocks_v(sa@), blocks_v(ia@), usizes_v(index_arr@)),
        blocks_bounded(blocks_v(result@), 2 * EMBED_BAND_LIMIT as int),
{
    let ghost sav = blocks_v(sa@);
    let ghost iav = blocks_v(ia@);
    let ghost keys = usizes_v(index_arr@);
    let mut result: Vec<Block> = Vec::new();
    let mut i: usize = 0;
    while i < sa.len()
        invariant
            0 <= i <= sa@.len(),
            sav == blocks_v(sa@),
            iav == blocks_v(ia@),
            keys == usizes_v(index_arr@),
            index_arr@.len() == sa@.len(),
            forall|j: int| 0 <= j < index_arr@.len()
                ==> (#[trigger] index_arr@[j]) < ia@.len(),
            blocks_bounded(sav, EMBED_BAND_LIMIT as int),
            blocks_bounded(iav, EMBED_BAND_LIMIT as int),
            result@.len() == i,
            forall|j: int| 0 <= j < i
                ==> (#[trigger] result@[j])@ == bsub_v(sav[j], iav[keys[j]])
                    && block_bounded(result@[j]@, 2 * EMBED_BAND_LIMIT as int),
        decreases sa@.len() - i,
    {
        proof {
            assert(sav[i as int] == sa@[i as int]@);
            assert(iav[index_arr@[i as int] as int] == ia@[index_arr@[i as int] as int]@);
            assert(block_bounded(sav[i as int], EMBED_BAND_LIMIT as int));
            assert(block_bounded(iav[index_arr@[i as int] as int], EMBED_BAND_LIMIT as int));
        }
        let diff = block_sub(&sa[i], &ia[index_arr[i]]);
        result.push(diff);
        i = i + 1;
    }
    proof {
        assert(blocks_v(result@) =~= diffs_s(sav, iav, keys));
    }
    result
}

/// The state of the greedy replacement pass: the three mutable detail
/// block pools and the key entries recorded so far.
pub struct ReplaceState {
    pub ih: Seq<BlockV>,
    pub iv: Seq<BlockV>,
    pub id: Seq<BlockV>,
    pub keys: Seq<(int, int)>,
}

/// The pool of the band a key entry's tag names: 0 for LH, 1 for HL,
/// 2 for HH.
pub open spec fn band_of(st: ReplaceState, band: int) -> Seq<BlockV> {
    if band == 0 {
        st.ih
    } else if band == 1 {
        st.iv
    } else {
        st.id
    }
}

pub open spec fn init_state(ih: Seq<BlockV>, iv: Seq<BlockV>, id: Seq<BlockV>) -> ReplaceState {
    ReplaceState { ih: ih, iv: iv, id: id, keys: Seq::empty() }
}

/// One greedy replacement: the difference block goes to whichever band
/// offers the closest block, distance ties broken in band order LH, HL,
/// HH, and the key records where it was written.
pub open spec fn replace_step(st: ReplaceState, b: BlockV) -> ReplaceState {
    let kh = best_idx(b, st.ih);
    let kv = best_idx(b, st.iv);
    let kd = best_idx(b, st.id);
    let eh = err_s(b, st.ih[kh]);
    let ev = err_s(b, st.iv[kv]);
    let ed = err_s(b, st.id[kd]);
    if eh <= ev && eh <= ed {
        ReplaceState {
            ih: st.ih.update(kh, b),
            iv: st.iv,
            id: st.id,
            keys: st.keys.push((0, kh)),
        }
    } else if ev <= ed {
        ReplaceState {
            ih: st.ih,
            iv: st.iv.update(kv, b),
            id: st.id,
            keys: st.keys.push((1, kv)),
        }
    } else {
        ReplaceState {
            ih: st.ih,
            iv: st.iv,
            id: st.id.update(kd, b),
            keys: st.keys.push((2, kd)),
        }
    }
}

/// The replacement state after the first `n` difference blocks, processed
/// in strictly increasing index order — each replacement mutates the pool
/// that later ones search, so this order is part of the definition.
pub open spec fn replace_upto(bd: Seq<BlockV>, init: ReplaceState, n: int) -> ReplaceState
    decreases n,
{
    if n <= 0 {
        init
    } else {
        replace_step(replace_upto(bd, init, n - 1), bd[n - 1])
    }
}

/// Replacement keeps the pool sizes, records one key per block, and every
/// key entry names a band and a slot inside it.
pub proof fn lemma_replace_upto_wf(bd: Seq<BlockV>, init: ReplaceState, n: int)
    requires
        0 <= n <= bd.len(),
        init.keys.len() == 0,
        n > 0 ==> init.ih.len() >= 1 && init.iv.len() >= 1 && init.id.len() >= 1,
    ensures
        ({
            let st = replace_upto(bd, init, n);
            &&& st.ih.len() == init.ih.len()
            &&& st.iv.len() == init.iv.len()
            &&& st.id.len() == init.id.len()
            &&& st.keys.len() == n
            &&& forall|i: int| 0 <= i < n ==> 0 <= (#[trigger] st.keys[i]).0 <= 2
            &&& forall|i: int| 0 <= i < n
                ==> 0 <= (#[trigger] st.keys[i]).1 < band_of(init, st.keys[i].0).len()
        }),
    decreases n,
{
    if n > 0 {
        lemma_replace_upto_wf(bd, init, n - 1);
        let prev = replace_upto(bd, init, n - 1);
        let b = bd[n - 1];
        lemma_best_idx_is_best(b, prev.ih);
        lemma_best_idx_is_best(b, prev.iv);
        lemma_best_idx_is_best(b, prev.id);
    }
}

/// Replacement keeps the pools bounded when the difference blocks are.
pub proof fn lemma_replace_upto_bounded(bd: Seq<BlockV>, init: ReplaceState, n: int, bound: int)
    requires
        0 <= n <= bd.len(),
        init.keys.len() == 0,
        blocks_bounded(bd, bound),
        blocks_bounded(init.ih, bound),
        blocks_bounded(init.iv, bound),
        blocks_bounded(init.id, bound),
        n > 0 ==> init.ih.len() >= 1 && init.iv.len() >= 1 && init.id.len() >= 1,
    ensures
        blocks_bounded(replace_upto(bd, init, n).ih, bound),
        blocks_bounded(replace_upto(bd, init, n).iv, bound),
        blocks_bounded(replace_upto(bd, init, n).id, bound),
    decreases n,
{
    if n > 0 {
        lemma_replace_upto_bounded(bd, init, n - 1, bound);
        lemma_replace_upto_wf(bd, init, n - 1);
        let prev = replace_upto(bd, init, n - 1);
        let b = bd[n - 1];
        lemma_best_idx_is_best(b, prev.ih);
        lemma_best_idx_is_best(b, prev.iv);
        lemma_best_idx_is_best(b, prev.id);
    }
}

/// What a key entry points at after the whole pass: unless a later
/// replacement chose the same band and slot, the slot still holds the
/// very difference block that was written for index `i`.
pub proof fn lemma_replace_upto_tracks(bd: Seq<BlockV>, init: ReplaceState, n: int, i: int)
    requires
        0 <= i < n <= bd.len(),
        init.keys.len() == 0,
        init.ih.len() >= 1,
        init.iv.len() >= 1,
        init.id.len() >= 1,
        forall|j: int| i < j < n
            ==> (#[trigger] replace_upto(bd, init, n).keys[j])
                != replace_upto(bd, init, n).keys[i],
    ensures
        ({
            let st = replace_upto(bd, init, n);
            band_of(st, st.keys[i].0)[st.keys[i].1] == bd[i]
        }),
    decreases n,
{
    lemma_replace_upto_wf(bd, init, n);
    let st = replace_upto(bd, init, n);
    let prev = replace_upto(bd, init, n - 1);
    lemma_replace_upto_wf(bd, init, n - 1);
    let b = bd[n - 1];
    lemma_best_idx_is_best(b, prev.ih);
    lemma_best_idx_is_best(b, prev.iv);
    lemma_best_idx_is_best(b, prev.id);
    if i == n - 1 {
        assert(st.keys[i] == st.keys.last());
    } else {
        assert(forall|j: int| 0 <= j < n - 1 ==> prev.keys[j] == st.keys[j]);
        assert(forall|j: int| i < j < n - 1
            ==> (#[trigger] prev.keys[j]) != prev.keys[i]);
        lemma_replace_upto_tracks(bd, init, n - 1, i);
        assert(st.keys[n - 1] != st.keys[i]);
    }
}

/// Greedy in-place replacement: writes each difference block over the
/// closest block among the three detail pools and records where.
pub fn block_replacement(
    bd: &Vec<Block>,
    ih: &mut Vec<Block>,
    iv: &mut Vec<Block>,
    id: &mut Vec<Block>,
) -> (index_arr: Vec<(usize, usize)>)
    requires
        bd@.len() > 0 ==> old(ih)@.len() >= 1 && old(iv)@.len() >= 1 && old(id)@.len() >= 1,
        blocks_bounded(blocks_v(bd@), ERR_LIMIT as int),
        blocks_bounded(blocks_v(old(ih)@), ERR_LIMIT as int),
        blocks_bounded(blocks_v(old(iv)@), ERR_LIMIT as int),
        blocks_bounded(blocks_v(old(id)@), ERR_LIMIT as int),
    ensures
        ({
            let st = replace_upto(
                blocks_v(bd@),
                init_state(blocks_v(old(ih)@), blocks_v(old(iv)@), blocks_v(old(id)@)),
                bd@.len() as int,
            );
            &&& blocks_v(final(ih)@) == st.ih
            &&& blocks_v(final(iv)@) == st.iv
            &&& blocks_v(final(id)@) == st.id
            &&& keys_v(index_arr@) == st.keys
        }),
{
    let ghost bdv = blocks_v(bd@);
    let ghost init = init_state(blocks_v(ih@), blocks_v(iv@), blocks_v(id@));
    let mut index_arr: Vec<(usize, usize)> = Vec::new();
    let mut i: usize = 0;
    proof {
        assert(keys_v(index_arr@) =~= init.keys);
    }
    while i < bd.len()
        invariant
            0 <= i <= bd@.len(),
            bdv == blocks_v(bd@),
            blocks_bounded(bdv, ERR_LIMIT as int),
            bd@.len() > 0 ==> init.ih.len() >= 1 && init.iv.len() >= 1 && init.id.len() >= 1,
            init.keys.len() == 0,
            blocks_v(ih@) == replace_upto(bdv, init, i as int).ih,
            blocks_v(iv@) == replace_upto(bdv, init, i as int).iv,
            blocks_v(id@) == replace_upto(bdv, init, i as int).id,
            keys_v(index_arr@) == replace_upto(bdv, init, i as int).keys,
            blocks_bounded(blocks_v(ih@), ERR_LIMIT as int),
            blocks_bounded(blocks_v(iv@), ERR_LIMIT as int),
            blocks_bounded(blocks_v(id@), ERR_LIMIT as int),
        decreases bd@.len() - i,
    {
        let ghost prev = replace_upto(bdv, init, i as int);
        proof {
            lemma_replace_upto_wf(bdv, init, i as int);
            assert(blocks_v(bd@)[i as int] == bd@[i as int]@);
            assert(block_bounded(bdv[i as int], ERR_LIMIT as int));
        }
        let b = bd[i];
        let kh = find_most_fit_block_index(&b, ih);
        let kv = find_most_fit_block_index(&b, iv);
        let kd = find_most_fit_block_index(&b, id);
        proof {
            assert(blocks_v(ih@)[kh as int] == ih@[kh as int]@);
            assert(blocks_v(iv@)[kv as int] == iv@[kv as int]@);
            assert(blocks_v(id@)[kd as int] == id@[kd as int]@);
            assert(block_bounded(blocks_v(ih@)[kh as int], ERR_LIMIT as int));
            assert(block_bounded(blocks_v(iv@)[kv as int], ERR_LIMIT as int));
            assert(block_bounded(blocks_v(id@)[kd as int], ERR_LIMIT as int));
        }
        let eh = root_mean_square_error(&b, &ih[kh]);
        let ev = root_mean_square_error(&b, &iv[kv]);
        let ed = root_mean_square_error(&b, &id[kd]);
        if eh <= ev && eh <= ed {
            ih.set(kh, b);
            index_arr.push((0, kh));
            proof {
                assert(blocks_v(ih@) =~= prev.ih.update(kh as int, b@));
                assert(keys_v(index_arr@) =~= prev.keys.push((0int, kh as int)));
            }
        } else if ev <= ed {
            iv.set(kv, b);
            index_arr.push((1, kv));
            proof {
                assert(blocks_v(iv@) =~= prev.iv.update(kv as int, b@));
                assert(keys_v(index_arr@) =~= prev.keys.push((1int, kv as int)));
            }
        } else {
            id.set(kd, b);
            index_arr.push((2, kd));
            proof {
                assert(blocks_v(id@) =~= prev.id.update(kd as int, b@));
                assert(keys_v(index_arr@) =~= prev.keys.push((2int, kd as int)));
            }
        }
        i = i + 1;
        proof {
            assert(replace_upto(bdv, init, i as int)
                == replace_step(replace_upto(bdv, init, i as int - 1), bdv[i as int - 1]));
        }
    }
    index_arr
}

// The embedding pipeline as one mathematical function of the two
// decompositions, piece by piece.

/// The secret's approximation blocks: what gets hidden.
pub open spec fn sec_blocks(s: DwtV) -> Seq<BlockV> {
    decompose_grid(s.ll, s.w / 2, s.h / 2)
}

/// The cover's approximation blocks: the candidates each secret block is
/// matched against.
pub open spec fn cov_ll_blocks(c: DwtV) -> Seq<BlockV> {
    decompose_grid(c.ll, c.w / 2, c.h / 2)
}

/// Number of blocks in each one of the cover's bands.
pub open spec fn cov_band_count(c: DwtV) -> int {
    nblocks(c.w / 2, c.h / 2)
}

/// Both images have even dimensions, as the transforms need.
pub open spec fn embed_dims_ok(c: DwtV, s: DwtV) -> bool {
    c.w % 2 == 0 && c.h % 2 == 0 && s.w % 2 == 0 && s.h % 2 == 0
}

/// The capacity precondition: no more secret approximation blocks than
/// the cover's three detail bands hold together.
pub open spec fn embed_fits(c: DwtV, s: DwtV) -> bool {
    sec_blocks(s).len() <= 3 * cov_band_count(c)
}

/// For every secret approximation block, the index of the closest cover
/// approximation block.
pub open spec fn embed_key1(c: DwtV, s: DwtV) -> Seq<int> {
    matching_s(sec_blocks(s), cov_ll_blocks(c))
}

/// The difference blocks: each secret block minus its matched cover
/// block.
pub open spec fn embed_diffs(c: DwtV, s: DwtV) -> Seq<BlockV> {
    diffs_s(sec_blocks(s), cov_ll_blocks(c), embed_key1(c, s))
}

/// The replacement pass starts from the cover's three decomposed detail
/// bands.
pub open spec fn embed_init(c: DwtV) -> ReplaceState {
    init_state(
        decompose_grid(c.lh, c.w / 2, c.h / 2),
        decompose_grid(c.hl, c.w / 2, c.h / 2),
        decompose_grid(c.hh, c.w / 2, c.h / 2),
    )
}

/// The replacement state after all difference blocks are embedded.
pub open spec fn embed_final(c: DwtV, s: DwtV) -> ReplaceState {
    replace_upto(embed_diffs(c, s), embed_init(c), sec_blocks(s).len() as int)
}

/// Where each difference block was written: a band tag and a block index.
pub open spec fn embed_key2(c: DwtV, s: DwtV) -> Seq<(int, int)> {
    embed_final(c, s).keys
}

/// The watermarked decomposition: the approximation band untouched, the
/// three detail bands recomposed from the mutated pools.
pub open spec fn embed_wm(c: DwtV, s: DwtV) -> DwtV {
    DwtV {
        ll: recompose_grid(cov_ll_blocks(c), c.w / 2, c.h / 2),
        lh: recompose_grid(embed_final(c, s).ih, c.w / 2, c.h / 2),
        hl: recompose_grid(embed_final(c, s).iv, c.w / 2, c.h / 2),
        hh: recompose_grid(embed_final(c, s).id, c.w / 2, c.h / 2),
        w: c.w,
        h: c.h,
    }
}

/// The watermarked pixel grid.
pub open spec fn embed_pixels(c: DwtV, s: DwtV) -> Seq<ChanV> {
    inverse_pixels(embed_wm(c, s))
}

impl DWTImage {
    /// Fuses the secret's approximation content into the cover's detail
    /// bands and returns the watermarked image together with the key:
    /// for every secret approximation block, the index of the matched
    /// cover block, and the band and slot its difference block
    /// overwrote.
    pub fn hide_message(&self, mess: &DWTImage) -> (r: Result<
        (PPMImage, Vec<usize>, Vec<(usize, usize)>),
        StegoError,
    >)
        requires
            dwt_wf(self@),
            dwt_wf(mess@),
            dwt_bounded(self@, EMBED_BAND_LIMIT as int),
            dwt_bounded(mess@, EMBED_BAND_LIMIT as int),
            self@.w * self@.h <= usize::MAX,
        ensures
            !embed_dims_ok(self@, mess@)
                ==> (r matches Err(e) && e == StegoError::IncompatibleDimensions),
            embed_dims_ok(self@, mess@) && !embed_fits(self@, mess@)
                ==> (r matches Err(StegoError::CapacityExceeded { needed, available })
                    && needed == sec_blocks(mess@).len()
                    && available == 3 * cov_band_count(self@)),
            embed_dims_ok(self@, mess@) && embed_fits(self@, mess@)
                ==> (r matches Ok((img, key1, key2)) && {
                    &&& usizes_v(key1@) == embed_key1(self@, mess@)
                    &&& keys_v(key2@) == embed_key2(self@, mess@)
                    &&& img@.data == embed_pixels(self@, mess@)
                    &&& img@.width == self@.w
                    &&& img@.height == self@.h
                    &&& img@.max_val == 255
                    &&& img@.img_type == "P6"@
                    &&& ppm_wf(img@)
                    &&& ppm_bounded(img@, 2 * EMBED_BAND_LIMIT as int)
                }),
    {
        let ghost c = self@;
        let ghost s = mess@;
        if self.orig_width % 2 != 0 || self.orig_height % 2 != 0 || mess.orig_width % 2 != 0
            || mess.orig_height % 2 != 0 {
            return Err(StegoError::IncompatibleDimensions);
        }
        let ia = blocking_extract_one(&self.ll, self.orig_width, self.orig_height);
        let mut ih = blocking_extract_one(&self.lh, self.orig_width, self.orig_height);
        let mut iv = blocking_extract_one(&self.hl, self.orig_width, self.orig_height);
        let mut id = blocking_extract_one(&self.hh, self.orig_width, self.orig_height);
        let sa = blocking_extract_one(&mess.ll, mess.orig_width, mess.orig_height);
        let needed = sa.len();
        proof {
            crate::codec::lemma_nblocks_le(c.w / 2, c.h / 2);
            vstd::std_specs::vec::axiom_spec_len(&self.ll);
            vstd::arithmetic::div_mod::lemma_fundamental_div_mod(c.w, 2);
            vstd::arithmetic::div_mod::lemma_fundamental_div_mod(c.h, 2);
            assert(4 * ((c.w / 2) * (c.h / 2)) == c.w * c.h) by (nonlinear_arith)
                requires c.w == 2 * (c.w / 2), c.h == 2 * (c.h / 2);
            assert(ih@.len() == cov_band_count(c)) by {
                assert(blocks_v(ih@).len() == ih@.len());
            }
            assert(iv@.len() == cov_band_count(c) && id@.len() == cov_band_count(c)) by {
                assert(blocks_v(iv@).len() == iv@.len());
                assert(blocks_v(id@).len() == id@.len());
            }
            assert(3 * cov_band_count(c) <= usize::MAX);
        }
        let available: usize = ih.len() + iv.len() + id.len();
        if needed > available {
            return Err(StegoError::CapacityExceeded { needed, available });
        }
        proof {
            lemma_decompose_bounded(c.ll, c.w / 2, c.h / 2, EMBED_BAND_LIMIT as int);
            lemma_decompose_bounded(c.lh, c.w / 2, c.h / 2, EMBED_BAND_LIMIT as int);
            lemma_decompose_bounded(c.hl, c.w / 2, c.h / 2, EMBED_BAND_LIMIT as int);
            lemma_decompose_bounded(c.hh, c.w / 2, c.h / 2, EMBED_BAND_LIMIT as int);
            lemma_decompose_bounded(s.ll, s.w / 2, s.h / 2, EMBED_BAND_LIMIT as int);
            lemma_blocks_bounded_widen(blocks_v(sa@), EMBED_BAND_LIMIT as int,
                ERR_LIMIT as int);
            lemma_blocks_bounded_widen(blocks_v(ia@), EMBED_BAND_LIMIT as int,
                ERR_LIMIT as int);
            lemma_blocks_bounded_widen(blocks_v(ih@), EMBED_BAND_LIMIT as int,
                ERR_LIMIT as int);
            lemma_blocks_bounded_widen(blocks_v(iv@), EMBED_BAND_LIMIT as int,
                ERR_LIMIT as int);
            lemma_blocks_bounded_widen(blocks_v(id@), EMBED_BAND_LIMIT as int,
                ERR_LIMIT as int);
        }
        proof {
            assert(ia@.len() == cov_band_count(c)) by {
                assert(blocks_v(ia@).len() == ia@.len());
            }
            assert(sa@.len() == needed) by {
                assert(blocks_v(sa@).len() == sa@.len());
            }
        }
        let key1 = matching(&sa, &ia);
        let bd = block_differences_computation(&sa, &ia, &key1);
        proof {
            assert(usizes_v(key1@) =~= embed_key1(c, s));
            assert(blocks_v(bd@) == embed_diffs(c, s));
            assert(2 * EMBED_BAND_LIMIT as int == ERR_LIMIT as int);
        }
        let index_arr = block_replacement(&bd, &mut ih, &mut iv, &mut id);
        proof {
            lemma_replace_upto_wf(embed_diffs(c, s), embed_init(c),
                sec_blocks(s).len() as int);
            vstd::std_specs::vec::axiom_spec_len(&self.ll);
        }
        let watermarked = DWTImage::rearrange_blocks(&ia, &ih, &iv, &id, self.orig_width,
            self.orig_height);
        proof {
            lemma_replace_upto_bounded(embed_diffs(c, s), embed_init(c),
                sec_blocks(s).len() as int, ERR_LIMIT as int);
            lemma_recompose_bounded(cov_ll_blocks(c), c.w / 2, c.h / 2, ERR_LIMIT as int);
            lemma_recompose_bounded(embed_final(c, s).ih, c.w / 2, c.h / 2,
                ERR_LIMIT as int);
            lemma_recompose_bounded(embed_final(c, s).iv, c.w / 2, c.h / 2,
                ERR_LIMIT as int);
            lemma_recompose_bounded(embed_final(c, s).id, c.w / 2, c.h / 2,
                ERR_LIMIT as int);
            assert(watermarked@ == embed_wm(c, s));
            lemma_blocks_bounded_widen(blocks_v(ia@), ERR_LIMIT as int, ERR_LIMIT as int);
            assert(dwt_bounded(watermarked@, ERR_LIMIT as int));
            lemma_seq_bounded_widen_dwt(watermarked@, ERR_LIMIT as int, INVERSE_LIMIT as int);
        }
        let img = watermarked.inverse_dwt();
        proof {
            lemma_inverse_pixels_bounded(embed_wm(c, s), ERR_LIMIT as int);
            assert(ppm_bounded(img@, 2 * EMBED_BAND_LIMIT as int));
        }
        Ok((img, key1, index_arr))
    }
}

impl DWTImage {
    /// Hides the secret image inside the cover image.  Both are
    /// forward-transformed, the secret's approximation content is fused
    /// into the cover's detail bands, and the result is inverted back to
    /// pixels.  Returns the watermarked image, the two key sequences,
    /// and the secret's original dimensions — everything extraction
    /// needs.
    pub fn hide_image(cover: &PPMImage, secret: &PPMImage) -> (r: Result<
        (PPMImage, Vec<usize>, Vec<(usize, usize)>, usize, usize),
        StegoError,
    >)
        requires
            ppm_wf(cover@),
            ppm_wf(secret@),
            ppm_bounded(cover@, EMBED_LIMIT as int),
            ppm_bounded(secret@, EMBED_LIMIT as int),
        ensures
            !embed_dims_ok(dwt_of(cover@), dwt_of(secret@))
                ==> (r matches Err(e) && e == StegoError::IncompatibleDimensions),
            embed_dims_ok(dwt_of(cover@), dwt_of(secret@))
                && !embed_fits(dwt_of(cover@), dwt_of(secret@))
                ==> (r matches Err(StegoError::CapacityExceeded { needed, available })
                    && needed == sec_blocks(dwt_of(secret@)).len()
                    && available == 3 * cov_band_count(dwt_of(cover@))),
            embed_dims_ok(dwt_of(cover@), dwt_of(secret@))
                && embed_fits(dwt_of(cover@), dwt_of(secret@))
                ==> (r matches Ok((img, key1, key2, sw, sh)) && {
                    &&& usizes_v(key1@) == embed_key1(dwt_of(cover@), dwt_of(secret@))
                    &&& keys_v(key2@) == embed_key2(dwt_of(cover@), dwt_of(secret@))
                    &&& img@.data == embed_pixels(dwt_of(cover@), dwt_of(secret@))
                    &&& img@.width == cover@.width
                    &&& img@.height == cover@.height
                    &&& img@.max_val == 255
                    &&& img@.img_type == "P6"@
                    &&& ppm_wf(img@)
                    &&& ppm_bounded(img@, 2 * EMBED_BAND_LIMIT as int)
                    &&& sw == secret@.width
                    &&& sh == secret@.height
                }),
    {
        proof {
            lemma_ppm_bounded_widen(cover@, EMBED_LIMIT as int,
                crate::transform::TRANSFORM_LIMIT as int);
            lemma_ppm_bounded_widen(secret@, EMBED_LIMIT as int,
                crate::transform::TRANSFORM_LIMIT as int);
        }
        let cd = DWTImage::from_ppm(cover);
        let sd = DWTImage::from_ppm(secret);
        proof {
            assert(cd@ == dwt_of(cover@));
            assert(sd@ == dwt_of(secret@));
            lemma_forward_bounded(cover@.data, cover@.width, cover@.height,
                EMBED_LIMIT as int);
            lemma_forward_bounded(secret@.data, secret@.width, secret@.height,
                EMBED_LIMIT as int);
            vstd::std_specs::vec::axiom_spec_len(&cover.data);
        }
        match cd.hide_message(&sd) {
            Ok((img, key1, key2)) => Ok((img, key1, key2, secret.width, secret.height)),
            Err(e) => Err(e),
        }
    }
}

// The extraction pipeline as one mathematical function of the
// watermarked image and the key, piece by piece.

/// Block slots in each reconstruction buffer: one per 2x2 pixel region
/// of the secret's original dimensions.
pub open spec fn extract_buf_len(ow: int, oh: int) -> int {
    (ow * oh) / 4
}

/// Every key entry indexes inside the watermarked decomposition and the
/// reconstruction buffers, and the two key sequences pair up.
pub open spec fn extract_keys_ok(
    v: crate::image::PpmV,
    key1: Seq<int>,
    key2: Seq<(int, int)>,
    ow: int,
    oh: int,
) -> bool {
    let n = nblocks(v.width / 2, v.height / 2);
    let buf = extract_buf_len(ow, oh);
    &&& key1.len() == key2.len()
    &&& key1.len() <= buf
    &&& forall|i: int| 0 <= i < key1.len() ==> 0 <= #[trigger] key1[i] < n
    &&& forall|i: int| 0 <= i < key2.len()
        ==> 0 <= (#[trigger] key2[i]).0 <= 2 && 0 <= key2[i].1 < n && key2[i].1 < buf
}

/// The gathered approximation buffer after the first `upto` entries:
/// slot `k` holds the cover block `key1[k]` names, later slots zero.
pub open spec fn gathered(blocks: Seq<BlockV>, key1: Seq<int>, buf: int, upto: int)
    -> Seq<BlockV> {
    Seq::new(buf as nat, |k: int|
        if k < upto {
            blocks[key1[k]]
        } else {
            zero_block_v()
        })
}

/// The reconstructed approximation buffer: for each key position, the
/// watermarked approximation block its entry names.
pub open spec fn gather_ll(blocks: Seq<BlockV>, key1: Seq<int>, buf: int) -> Seq<BlockV> {
    gathered(blocks, key1, buf, key1.len() as int)
}

/// One detail buffer after the first `upto` entries: a slot holds the
/// watermarked band block at its own index exactly when some processed
/// entry named this band and slot, and zero otherwise.
pub open spec fn placed(blocks: Seq<BlockV>, key2: Seq<(int, int)>, band: int, buf: int,
    upto: int) -> Seq<BlockV> {
    Seq::new(buf as nat, |k: int|
        if exists|j: int| 0 <= j < upto && key2[j] == (band, k) {
            blocks[k]
        } else {
            zero_block_v()
        })
}

/// The reconstructed buffer of one detail band.
pub open spec fn place_band(blocks: Seq<BlockV>, key2: Seq<(int, int)>, band: int, buf: int)
    -> Seq<BlockV> {
    placed(blocks, key2, band, buf, key2.len() as int)
}

/// The recovered decomposition, sized to the secret's original
/// dimensions: the approximation band gathered through the first key,
/// the detail bands filled with the stored difference blocks the second
/// key points at.
pub open spec fn extract_dwt(v: crate::image::PpmV, key1: Seq<int>, key2: Seq<(int, int)>,
    ow: int, oh: int) -> DwtV {
    let d = dwt_of(v);
    let buf = extract_buf_len(ow, oh);
    DwtV {
        ll: recompose_grid(
            gather_ll(decompose_grid(d.ll, d.w / 2, d.h / 2), key1, buf), ow / 2, oh / 2),
        lh: recompose_grid(
            place_band(decompose_grid(d.lh, d.w / 2, d.h / 2), key2, 0, buf), ow / 2, oh / 2),
        hl: recompose_grid(
            place_band(decompose_grid(d.hl, d.w / 2, d.h / 2), key2, 1, buf), ow / 2, oh / 2),
        hh: recompose_grid(
            place_band(decompose_grid(d.hh, d.w / 2, d.h / 2), key2, 2, buf), ow / 2, oh / 2),
        w: ow,
        h: oh,
    }
}

/// The recovered pixel grid.
pub open spec fn extract_pixels(v: crate::image::PpmV, key1: Seq<int>, key2: Seq<(int, int)>,
    ow: int, oh: int) -> Seq<ChanV> {
    inverse_pixels(extract_dwt(v, key1, key2, ow, oh))
}

/// A vector of `count` all-zero blocks.
fn zero_blocks(count: usize) -> (res: Vec<Block>)
    ensures
        res@.len() == count,
        forall|k: int| 0 <= k < count ==> (#[trigger] res@[k])@ == zero_block_v(),
{
    let mut res: Vec<Block> = Vec::new();
    let mut i: usize = 0;
    while i < count
        invariant
            0 <= i <= count,
            res@.len() == i,
            forall|k: int| 0 <= k < i ==> (#[trigger] res@[k])@ == zero_block_v(),
        decreases count - i,
    {
        res.push(zero_block());
        i = i + 1;
    }
    res
}

impl DWTImage {
    /// Recovers the secret's encoded content from the watermarked image
    /// alone, using the key produced at embedding time: the watermarked
    /// image is forward-transformed, the stored difference blocks are
    /// looked up where the key says they were written, the matched
    /// approximation blocks are gathered, and the result is inverted
    /// back to pixels at the secret's original dimensions.
    #[verifier::loop_isolation(false)]
    pub fn extract_message_from_image(
        watermarked: &PPMImage,
        key1: &Vec<usize>,
        key2: &Vec<(usize, usize)>,
        orig_width: usize,
        orig_height: usize,
    ) -> (r: Result<PPMImage, StegoError>)
        requires
            ppm_wf(watermarked@),
            ppm_bounded(watermarked@, crate::transform::TRANSFORM_LIMIT as int),
            orig_width * orig_height <= usize::MAX,
        ensures
            !(orig_width % 2 == 0 && orig_height % 2 == 0)
                ==> (r matches Err(e) && e == StegoError::IncompatibleDimensions),
            orig_width % 2 == 0 && orig_height % 2 == 0 && !extract_keys_ok(
                watermarked@, usizes_v(key1@), keys_v(key2@), orig_width as int,
                orig_height as int)
                ==> (r matches Err(e) && e == StegoError::InvalidKey),
            orig_width % 2 == 0 && orig_height % 2 == 0 && extract_keys_ok(
                watermarked@, usizes_v(key1@), keys_v(key2@), orig_width as int,
                orig_height as int)
                ==> (r matches Ok(img) && {
                    &&& img@.data == extract_pixels(watermarked@, usizes_v(key1@),
                        keys_v(key2@), orig_width as int, orig_height as int)
                    &&& img@.width == orig_width
                    &&& img@.height == orig_height
                    &&& img@.max_val == 255
                    &&& img@.img_type == "P6"@
                    &&& ppm_wf(img@)
                }),
    {
        let ghost v = watermarked@;
        let ghost key1v = usizes_v(key1@);
        let ghost key2v = keys_v(key2@);
        let ghost ow = orig_width as int;
        let ghost oh = orig_height as int;
        if orig_width % 2 != 0 || orig_height % 2 != 0 {
            return Err(StegoError::IncompatibleDimensions);
        }
        let secret = DWTImage::from_ppm(watermarked);
        let ia = blocking_extract_one(&secret.ll, secret.orig_width, secret.orig_height);
        let ih = blocking_extract_one(&secret.lh, secret.orig_width, secret.orig_height);
        let iv = blocking_extract_one(&secret.hl, secret.orig_width, secret.orig_height);
        let id = blocking_extract_one(&secret.hh, secret.orig_width, secret.orig_height);
        let ghost n = nblocks(v.width / 2, v.height / 2);
        let ghost buf = extract_buf_len(ow, oh);
        proof {
            assert(secret@ == dwt_of(v));
            assert(ia@.len() == n) by {
                assert(blocks_v(ia@).len() == ia@.len());
            }
            assert(ih@.len() == n && iv@.len() == n && id@.len() == n) by {
                assert(blocks_v(ih@).len() == ih@.len());
                assert(blocks_v(iv@).len() == iv@.len());
                assert(blocks_v(id@).len() == id@.len());
            }
        }
        let buf_len: usize = (orig_width * orig_height) / 4;
        if key1.len() != key2.len() {
            return Err(StegoError::InvalidKey);
        }
        if key1.len() > buf_len {
            return Err(StegoError::InvalidKey);
        }
        let mut i: usize = 0;
        while i < key1.len()
            invariant
                0 <= i <= key1@.len(),
                key1@.len() == key2@.len(),
                key1v == usizes_v(key1@),
                key2v == keys_v(key2@),
                n == ia@.len(),
                n == ih@.len(),
                buf == buf_len,
                forall|j: int| 0 <= j < i ==> 0 <= #[trigger] key1v[j] < n,
                forall|j: int| 0 <= j < i
                    ==> 0 <= (#[trigger] key2v[j]).0 <= 2 && 0 <= key2v[j].1 < n
                        && key2v[j].1 < buf,
            decreases key1@.len() - i,
        {
            if key1[i] >= ia.len() {
                proof {
                    assert(key1v[i as int] == key1@[i as int] as int);
                }
                return Err(StegoError::InvalidKey);
            }
            let p = key2[i];
            if p.0 > 2 || p.1 >= ih.len() || p.1 >= buf_len {
                proof {
                    assert(key2v[i as int] == (p.0 as int, p.1 as int));
                }
                return Err(StegoError::InvalidKey);
            }
            proof {
                assert(key1v[i as int] == key1@[i as int] as int);
                assert(key2v[i as int] == (p.0 as int, p.1 as int));
            }
            i = i + 1;
        }
        proof {
            assert(extract_keys_ok(v, key1v, key2v, ow, oh));
        }
        let ghost iav = blocks_v(ia@);
        let ghost ihv = blocks_v(ih@);
        let ghost ivv = blocks_v(iv@);
        let ghost idv = blocks_v(id@);
        let mut bia = zero_blocks(buf_len);
        proof {
            assert(blocks_v(bia@) =~= gathered(iav, key1v, buf, 0));
        }
        let mut k: usize = 0;
        while k < key1.len()
            invariant
                0 <= k <= key1@.len(),
                key1v == usizes_v(key1@),
                key1@.len() <= buf_len,
                buf == buf_len,
                n == ia@.len(),
                iav == blocks_v(ia@),
                forall|j: int| 0 <= j < key1@.len() ==> 0 <= #[trigger] key1v[j] < n,
                bia@.len() == buf_len,
                blocks_v(bia@) == gathered(iav, key1v, buf, k as int),
            decreases key1@.len() - k,
        {
            let ghost before = blocks_v(bia@);
            proof {
                assert(key1v[k as int] == key1@[k as int] as int);
            }
            bia.set(k, ia[key1[k]]);
            proof {
                assert(blocks_v(bia@) =~= before.update(k as int, iav[key1v[k as int]]));
                assert(gathered(iav, key1v, buf, k as int + 1)
                    =~= before.update(k as int, iav[key1v[k as int]]));
            }
            k = k + 1;
        }
        proof {
            assert(blocks_v(bia@) == gather_ll(iav, key1v, buf));
        }
        let mut dih = zero_blocks(buf_len);
        let mut div = zero_blocks(buf_len);
        let mut did = zero_blocks(buf_len);
        proof {
            assert(blocks_v(dih@) =~= placed(ihv, key2v, 0, buf, 0));
            assert(blocks_v(div@) =~= placed(ivv, key2v, 1, buf, 0));
            assert(blocks_v(did@) =~= placed(idv, key2v, 2, buf, 0));
        }
        let mut m: usize = 0;
        while m < key2.len()
            invariant
                0 <= m <= key2@.len(),
                key2v == keys_v(key2@),
                buf == buf_len,
                n == ih@.len(),
                n == iv@.len(),
                n == id@.len(),
                ihv == blocks_v(ih@),
                ivv == blocks_v(iv@),
                idv == blocks_v(id@),
                forall|j: int| 0 <= j < key2@.len()
                    ==> 0 <= (#[trigger] key2v[j]).0 <= 2 && 0 <= key2v[j].1 < n
                        && key2v[j].1 < buf,
                dih@.len() == buf_len,
                div@.len() == buf_len,
                did@.len() == buf_len,
                blocks_v(dih@) == placed(ihv, key2v, 0, buf, m as int),
                blocks_v(div@) == placed(ivv, key2v, 1, buf, m as int),
                blocks_v(did@) == placed(idv, key2v, 2, buf, m as int),
            decreases key2@.len() - m,
        {
            let p = key2[m];
            proof {
                assert(key2v[m as int] == (p.0 as int, p.1 as int));
                lemma_placed_step(ihv, key2v, 0, buf, m as int);
                lemma_placed_step(ivv, key2v, 1, buf, m as int);
                lemma_placed_step(idv, key2v, 2, buf, m as int);
            }
            if p.0 == 0 {
                let ghost before = blocks_v(dih@);
                dih.set(p.1, ih[p.1]);
                proof {
                    assert(blocks_v(dih@) =~= before.update(p.1 as int, ihv[p.1 as int]));
                }
            } else if p.0 == 1 {
                let ghost before = blocks_v(div@);
                div.set(p.1, iv[p.1]);
                proof {
                    assert(blocks_v(div@) =~= before.update(p.1 as int, ivv[p.1 as int]));
                }
            } else {
                let ghost before = blocks_v(did@);
                did.set(p.1, id[p.1]);
                proof {
                    assert(blocks_v(did@) =~= before.update(p.1 as int, idv[p.1 as int]));
                }
            }
            m = m + 1;
        }
        proof {
            lemma_extract_prepare(v, key1v, key2v, ow, oh);
            assert(nblocks(ow / 2, oh / 2) <= buf);
            assert((ow / 2) * (oh / 2) <= usize::MAX);
        }
        let image = DWTImage::rearrange_blocks(&bia, &dih, &div, &did, orig_width,
            orig_height);
        proof {
            let wmb = 4 * crate::transform::TRANSFORM_LIMIT as int;
            lemma_forward_bounded(v.data, v.width, v.height,
                crate::transform::TRANSFORM_LIMIT as int);
            lemma_decompose_bounded(dwt_of(v).ll, v.width / 2, v.height / 2, wmb);
            lemma_decompose_bounded(dwt_of(v).lh, v.width / 2, v.height / 2, wmb);
            lemma_decompose_bounded(dwt_of(v).hl, v.width / 2, v.height / 2, wmb);
            lemma_decompose_bounded(dwt_of(v).hh, v.width / 2, v.height / 2, wmb);
            lemma_gathered_bounded(iav, key1v, buf, wmb);
            lemma_placed_bounded(ihv, key2v, 0, buf, wmb);
            lemma_placed_bounded(ivv, key2v, 1, buf, wmb);
            lemma_placed_bounded(idv, key2v, 2, buf, wmb);
            lemma_recompose_bounded(gather_ll(iav, key1v, buf), ow / 2, oh / 2, wmb);
            lemma_recompose_bounded(place_band(ihv, key2v, 0, buf), ow / 2, oh / 2, wmb);
            lemma_recompose_bounded(place_band(ivv, key2v, 1, buf), ow / 2, oh / 2, wmb);
            lemma_recompose_bounded(place_band(idv, key2v, 2, buf), ow / 2, oh / 2, wmb);
            assert(image@ == extract_dwt(v, key1v, key2v, ow, oh));
            lemma_seq_bounded_widen_dwt(image@, wmb, INVERSE_LIMIT as int);
        }
        let result = image.inverse_dwt();
        Ok(result)
    }
}

/// A gathered buffer holds source blocks and zeros only, so a bound on
/// the source bounds it.
proof fn lemma_gathered_bounded(blocks: Seq<BlockV>, key1: Seq<int>, buf: int, bound: int)
    requires
        blocks_bounded(blocks, bound),
        0 <= bound,
        forall|i: int| 0 <= i < key1.len() ==> 0 <= #[trigger] key1[i] < blocks.len(),
    ensures
        blocks_bounded(gather_ll(blocks, key1, buf), bound),
{
    let g = gather_ll(blocks, key1, buf);
    assert forall|k: int| 0 <= k < g.len() implies block_bounded(#[trigger] g[k], bound) by {
        if k < key1.len() {
            assert(block_bounded(blocks[key1[k]], bound));
        }
    }
}

/// A placement buffer holds source blocks and zeros only, so a bound on
/// the source bounds it.
proof fn lemma_placed_bounded(blocks: Seq<BlockV>, key2: Seq<(int, int)>, band: int,
    buf: int, bound: int)
    requires
        blocks_bounded(blocks, bound),
        0 <= bound,
        forall|i: int| 0 <= i < key2.len() ==> 0 <= (#[trigger] key2[i]).1 < blocks.len(),
    ensures
        blocks_bounded(place_band(blocks, key2, band, buf), bound),
{
    let g = place_band(blocks, key2, band, buf);
    assert forall|k: int| 0 <= k < g.len() implies block_bounded(#[trigger] g[k], bound) by {
        if exists|j: int| 0 <= j < key2.len() && key2[j] == (band, k) {
            let j = choose|j: int| 0 <= j < key2.len() && key2[j] == (band, k);
            assert(0 <= k < blocks.len());
            assert(block_bounded(blocks[k], bound));
        }
    }
}

/// Dimension arithmetic for the recovered image: the buffers hold at
/// least one block per window of its grids.
proof fn lemma_extract_prepare(v: crate::image::PpmV, key1: Seq<int>, key2: Seq<(int, int)>,
    ow: int, oh: int)
    requires
        0 <= ow,
        0 <= oh,
        ow % 2 == 0,
        oh % 2 == 0,
        ow * oh <= usize::MAX,
    ensures
        nblocks(ow / 2, oh / 2) <= extract_buf_len(ow, oh),
        (ow / 2) * (oh / 2) <= usize::MAX,
        extract_buf_len(ow, oh) == (ow / 2) * (oh / 2),
{
    crate::codec::lemma_nblocks_le(ow / 2, oh / 2);
    vstd::arithmetic::div_mod::lemma_fundamental_div_mod(ow, 2);
    vstd::arithmetic::div_mod::lemma_fundamental_div_mod(oh, 2);
    assert(4 * ((ow / 2) * (oh / 2)) == ow * oh) by (nonlinear_arith)
        requires ow == 2 * (ow / 2), oh == 2 * (oh / 2);
    vstd::arithmetic::div_mod::lemma_fundamental_div_mod_converse(
        ow * oh, 4, (ow / 2) * (oh / 2), 0);
    assert(0 <= (ow / 2) * (oh / 2)) by (nonlinear_arith)
        requires 0 <= ow / 2, 0 <= oh / 2;
}

/// How one placement changes a detail buffer: the named slot takes its
/// band block if the entry names this band, and nothing else moves.
proof fn lemma_placed_step(blocks: Seq<BlockV>, key2: Seq<(int, int)>, band: int, buf: int,
    i: int)
    requires
        0 <= i < key2.len(),
    ensures
        key2[i].0 == band && 0 <= key2[i].1 < buf
            ==> placed(blocks, key2, band, buf, i + 1)
                =~= placed(blocks, key2, band, buf, i).update(key2[i].1, blocks[key2[i].1]),
        key2[i].0 != band
            ==> placed(blocks, key2, band, buf, i + 1) =~= placed(blocks, key2, band, buf, i),
{
    let a = placed(blocks, key2, band, buf, i);
    let b = placed(blocks, key2, band, buf, i + 1);
    if key2[i].0 == band && 0 <= key2[i].1 < buf {
        let slot = key2[i].1;
        assert forall|k: int| 0 <= k < buf
            implies b[k] == a.update(slot, blocks[slot])[k] by {
            if k == slot {
                assert(key2[i] == (band, k));
                assert(exists|j: int| 0 <= j < i + 1 && key2[j] == (band, k));
            } else {
                if exists|j: int| 0 <= j < i + 1 && key2[j] == (band, k) {
                    let j = choose|j: int| 0 <= j < i + 1 && key2[j] == (band, k);
                    assert(j != i);
                    assert(0 <= j < i && key2[j] == (band, k));
                }
            }
        }
    } else if key2[i].0 != band {
        assert forall|k: int| 0 <= k < buf implies b[k] == a[k] by {
            if exists|j: int| 0 <= j < i + 1 && key2[j] == (band, k) {
                let j = choose|j: int| 0 <= j < i + 1 && key2[j] == (band, k);
                assert(j != i);
                assert(0 <= j < i && key2[j] == (band, k));
            }
        }
    }
}

/// The detail band of a decomposition that a band tag names: 0 for LH,
/// 1 for HL, 2 for HH.
pub open spec fn dwt_band(d: DwtV, band: int) -> Seq<ChanV> {
    if band == 0 {
        d.lh
    } else if band == 1 {
        d.hl
    } else {
        d.hh
    }
}

/// Embed/extract round trip.  Under the capacity precondition, when the
/// inverse transform of the watermarked decomposition loses nothing to
/// rounding, extraction's buffers recover the embedding exactly: the
/// watermarked approximation band decomposes back into the cover's own
/// blocks, so each gathered block is the cover block its key entry
/// names; and each difference block is read back bit-exactly from the
/// band and slot recorded for it, unless a later difference block was
/// written over the same band and slot.
pub proof fn lemma_embed_extract_recovers(c: DwtV, s: DwtV, wmv: crate::image::PpmV)
    requires
        dwt_wf(c),
        dwt_wf(s),
        0 <= c.w,
        0 <= c.h,
        embed_dims_ok(c, s),
        embed_fits(c, s),
        wmv.width == c.w,
        wmv.height == c.h,
        dwt_of(wmv) == embed_wm(c, s),
    ensures
        embed_key1(c, s).len() == sec_blocks(s).len(),
        embed_key2(c, s).len() == sec_blocks(s).len(),
        forall|i: int| 0 <= i < sec_blocks(s).len()
            ==> 0 <= #[trigger] embed_key1(c, s)[i] < cov_ll_blocks(c).len(),
        forall|i: int| 0 <= i < sec_blocks(s).len()
            ==> 0 <= (#[trigger] embed_key2(c, s)[i]).0 <= 2
                && 0 <= embed_key2(c, s)[i].1 < cov_band_count(c),
        decompose_grid(dwt_of(wmv).ll, c.w / 2, c.h / 2) == cov_ll_blocks(c),
        sec_blocks(s).len() <= extract_buf_len(s.w, s.h)
            && (forall|i: int| 0 <= i < sec_blocks(s).len()
                ==> (#[trigger] embed_key2(c, s)[i]).1 < extract_buf_len(s.w, s.h))
            ==> extract_keys_ok(wmv, embed_key1(c, s), embed_key2(c, s), s.w, s.h),
        forall|i: int|
            0 <= i < sec_blocks(s).len()
                && (#[trigger] embed_key2(c, s)[i]).1 < extract_buf_len(s.w, s.h)
                && (forall|j: int| i < j < sec_blocks(s).len()
                    ==> #[trigger] embed_key2(c, s)[j] != embed_key2(c, s)[i])
            ==> place_band(
                    decompose_grid(dwt_band(dwt_of(wmv), embed_key2(c, s)[i].0),
                        c.w / 2, c.h / 2),
                    embed_key2(c, s), embed_key2(c, s)[i].0,
                    extract_buf_len(s.w, s.h))[embed_key2(c, s)[i].1]
                == embed_diffs(c, s)[i],
{
    let gw = c.w / 2;
    let gh = c.h / 2;
    let count = cov_band_count(c);
    let n = sec_blocks(s).len() as int;
    let diffs = embed_diffs(c, s);
    let init = embed_init(c);
    let st = embed_final(c, s);
    let key1 = embed_key1(c, s);
    let key2 = embed_key2(c, s);
    crate::codec::lemma_nblocks_le(gw, gh);
    lemma_replace_upto_wf(diffs, init, n);
    assert(st.keys.len() == n);
    assert forall|i: int| 0 <= i < n
        implies 0 <= #[trigger] key1[i] < cov_ll_blocks(c).len() by {
        lemma_best_idx_is_best(sec_blocks(s)[i], cov_ll_blocks(c));
    }
    assert forall|i: int| 0 <= i < n
        implies 0 <= (#[trigger] key2[i]).0 <= 2 && 0 <= key2[i].1 < count by {
        assert(0 <= st.keys[i].1 < band_of(init, st.keys[i].0).len());
        assert(band_of(init, st.keys[i].0).len() == count);
    }
    assert(decompose_grid(dwt_of(wmv).ll, gw, gh) == cov_ll_blocks(c)) by {
        crate::codec::lemma_decompose_recompose(cov_ll_blocks(c), gw, gh);
    }
    assert(decompose_grid(dwt_of(wmv).lh, gw, gh) == st.ih) by {
        crate::codec::lemma_decompose_recompose(st.ih, gw, gh);
    }
    assert(decompose_grid(dwt_of(wmv).hl, gw, gh) == st.iv) by {
        crate::codec::lemma_decompose_recompose(st.iv, gw, gh);
    }
    assert(decompose_grid(dwt_of(wmv).hh, gw, gh) == st.id) by {
        crate::codec::lemma_decompose_recompose(st.id, gw, gh);
    }
    let buf = extract_buf_len(s.w, s.h);
    assert forall|i: int|
        0 <= i < n && (#[trigger] key2[i]).1 < buf
            && (forall|j: int| i < j < n ==> #[trigger] key2[j] != key2[i])
        implies place_band(decompose_grid(dwt_band(dwt_of(wmv), key2[i].0), gw, gh),
            key2, key2[i].0, buf)[key2[i].1] == diffs[i] by {
        lemma_replace_upto_tracks(diffs, init, n, i);
        let t = key2[i].0;
        let k = key2[i].1;
        let blocks = decompose_grid(dwt_band(dwt_of(wmv), t), gw, gh);
        assert(blocks == band_of(st, t));
        assert(band_of(st, t)[k] == diffs[i]);
        assert(key2[i] == (t, k));
        assert(exists|j: int| 0 <= j < key2.len() && key2[j] == (t, k));
        assert(place_band(blocks, key2, t, buf)[k] == blocks[k]);
    }
}

/// A pixel bound also holds for any larger bound.
proof fn lemma_ppm_bounded_widen(v: crate::image::PpmV, b1: int, b2: int)
    requires
        ppm_bounded(v, b1),
        b1 <= b2,
    ensures
        ppm_bounded(v, b2),
{
    assert forall|i: int| 0 <= i < v.data.len()
        implies crate::color::chan_bounded(#[trigger] v.data[i], b2) by {
        assert(crate::color::chan_bounded(v.data[i], b1));
    }
}

/// A coefficient bound on a decomposition also holds for any larger
/// bound.
proof fn lemma_seq_bounded_widen_dwt(d: DwtV, b1: int, b2: int)
    requires
        dwt_bounded(d, b1),
        b1 <= b2,
    ensures
        dwt_bounded(d, b2),
{
    assert forall|i: int| 0 <= i < d.ll.len()
        implies crate::color::chan_bounded(#[trigger] d.ll[i], b2) by {
        assert(crate::color::chan_bounded(d.ll[i], b1));
    }
    assert forall|i: int| 0 <= i < d.lh.len()
        implies crate::color::chan_bounded(#[trigger] d.lh[i], b2) by {
        assert(crate::color::chan_bounded(d.lh[i], b1));
    }
    assert forall|i: int| 0 <= i < d.hl.len()
        implies crate::color::chan_bounded(#[trigger] d.hl[i], b2) by {
        assert(crate::color::chan_bounded(d.hl[i], b1));
    }
    assert forall|i: int| 0 <= i < d.hh.len()
        implies crate::color::chan_bounded(#[trigger] d.hh[i], b2) by {
        assert(crate::color::chan_bounded(d.hh[i], b1));
    }
}

} // verus!
