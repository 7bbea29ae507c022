use vstd::prelude::*;
use crate::color::{ChanV, RGBColor, cadd, cdiv, csub, chan_bounded, colors_v, seq_bounded};
use crate::image::{PPMImage, ppm_wf, ppm_bounded};
use crate::block::blocks_v;
use crate::codec::{nblocks, recompose_grid, rearrange_one_block};
use vstd::arithmetic::div_mod::{lemma_fundamental_div_mod, lemma_fundamental_div_mod_converse};

verus! {

/// Largest pixel channel magnitude the forward transform accepts.
pub const TRANSFORM_LIMIT: i32 = 524288;

/// Largest coefficient channel magnitude the inverse transform accepts;
/// the forward transform of a `TRANSFORM_LIMIT`-bounded image stays within
/// it.
pub const INVERSE_LIMIT: i32 = 2097152;

/// One level of 2-D wavelet decomposition of an image: the approximation
/// band LL and the vertical, horizontal and diagonal detail bands LH, HL
/// and HH, each holding one coefficient per 2x2 pixel region, together
/// with the dimensions of the image they came from.
#[derive(Debug)]
pub struct DWTImage {
    pub ll: Vec<RGBColor>,
    pub lh: Vec<RGBColor>,
    pub hl: Vec<RGBColor>,
    pub hh: Vec<RGBColor>,
    pub orig_width: usize,
    pub orig_height: usize,
}

/// The mathematical value of a decomposition: four coefficient grids of
/// `(w/2) * (h/2)` channel triples each, row-major.
pub struct DwtV {
    pub ll: Seq<ChanV>,
    pub lh: Seq<ChanV>,
    pub hl: Seq<ChanV>,
    pub hh: Seq<ChanV>,
    pub w: int,
    pub h: int,
}

impl View for DWTImage {
    type V = DwtV;

    open spec fn view(&self) -> DwtV {
        DwtV {
            ll: colors_v(self.ll@),
            lh: colors_v(self.lh@),
            hl: colors_v(self.hl@),
            hh: colors_v(self.hh@),
            w: self.orig_width as int,
            h: self.orig_height as int,
        }
    }
}

/// All four grids hold exactly one coefficient per 2x2 pixel region.
pub open spec fn dwt_wf(d: DwtV) -> bool {
    &&& d.ll.len() == (d.w / 2) * (d.h / 2)
    &&& d.lh.len() == (d.w / 2) * (d.h / 2)
    &&& d.hl.len() == (d.w / 2) * (d.h / 2)
    &&& d.hh.len() == (d.w / 2) * (d.h / 2)
}

/// Both recorded dimensions are even, as the inverse transform needs.
pub open spec fn dwt_even(d: DwtV) -> bool {
    d.w % 2 == 0 && d.h % 2 == 0
}

/// Every channel of every coefficient lies within `-bound ..= bound`.
pub open spec fn dwt_bounded(d: DwtV, bound: int) -> bool {
    &&& seq_bounded(d.ll, bound)
    &&& seq_bounded(d.lh, bound)
    &&& seq_bounded(d.hl, bound)
    &&& seq_bounded(d.hh, bound)
}

// Forward transform, horizontal pass: scanning each row's column pairs
// left to right, the low sequence holds the pair sums and the high
// sequence the pair differences.  An odd trailing column is dropped.

/// Horizontal low-pass value for row `y` and column pair `x`.
pub open spec fn low_at(data: Seq<ChanV>, w: int, y: int, x: int) -> ChanV {
    cadd(data[y * w + 2 * x], data[y * w + 2 * x + 1])
}

/// Horizontal high-pass value for row `y` and column pair `x`.
pub open spec fn high_at(data: Seq<ChanV>, w: int, y: int, x: int) -> ChanV {
    csub(data[y * w + 2 * x], data[y * w + 2 * x + 1])
}

pub open spec fn low_seq(data: Seq<ChanV>, w: int, h: int) -> Seq<ChanV> {
    Seq::new((h * (w / 2)) as nat, |i: int| low_at(data, w, i / (w / 2), i % (w / 2)))
}

pub open spec fn high_seq(data: Seq<ChanV>, w: int, h: int) -> Seq<ChanV> {
    Seq::new((h * (w / 2)) as nat, |i: int| high_at(data, w, i / (w / 2), i % (w / 2)))
}

// Forward transform, vertical pass: scanning row pairs top to bottom over
// the half-width sequences.  An odd trailing row is dropped.  This is the
// unnormalized lifting transform: sums and differences, with no division
// on the forward path.

/// Approximation coefficient for grid position `(gy, gx)`.
pub open spec fn ll_at(data: Seq<ChanV>, w: int, gy: int, gx: int) -> ChanV {
    cadd(low_at(data, w, 2 * gy + 1, gx), low_at(data, w, 2 * gy, gx))
}

/// Horizontal detail coefficient for grid position `(gy, gx)`.
pub open spec fn hl_at(data: Seq<ChanV>, w: int, gy: int, gx: int) -> ChanV {
    cadd(high_at(data, w, 2 * gy + 1, gx), high_at(data, w, 2 * gy, gx))
}

/// Vertical detail coefficient for grid position `(gy, gx)`.
pub open spec fn lh_at(data: Seq<ChanV>, w: int, gy: int, gx: int) -> ChanV {
    csub(low_at(data, w, 2 * gy, gx), low_at(data, w, 2 * gy + 1, gx))
}

/// Diagonal detail coefficient for grid position `(gy, gx)`.
pub open spec fn hh_at(data: Seq<ChanV>, w: int, gy: int, gx: int) -> ChanV {
    csub(high_at(data, w, 2 * gy, gx), high_at(data, w, 2 * gy + 1, gx))
}

pub open spec fn band_len(w: int, h: int) -> int {
    (h / 2) * (w / 2)
}

pub open spec fn ll_band(data: Seq<ChanV>, w: int, h: int) -> Seq<ChanV> {
    Seq::new(band_len(w, h) as nat, |gi: int| ll_at(data, w, gi / (w / 2), gi % (w / 2)))
}

pub open spec fn lh_band(data: Seq<ChanV>, w: int, h: int) -> Seq<ChanV> {
    Seq::new(band_len(w, h) as nat, |gi: int| lh_at(data, w, gi / (w / 2), gi % (w / 2)))
}

pub open spec fn hl_band(data: Seq<ChanV>, w: int, h: int) -> Seq<ChanV> {
    Seq::new(band_len(w, h) as nat, |gi: int| hl_at(data, w, gi / (w / 2), gi % (w / 2)))
}

pub open spec fn hh_band(data: Seq<ChanV>, w: int, h: int) -> Seq<ChanV> {
    Seq::new(band_len(w, h) as nat, |gi: int| hh_at(data, w, gi / (w / 2), gi % (w / 2)))
}

impl DWTImage {
    pub fn new(
        ll: Vec<RGBColor>,
        lh: Vec<RGBColor>,
        hl: Vec<RGBColor>,
        hh: Vec<RGBColor>,
        orig_width: usize,
        orig_height: usize,
    ) -> (d: DWTImage)
        ensures
            d@.ll == colors_v(ll@),
            d@.lh == colors_v(lh@),
            d@.hl == colors_v(hl@),
            d@.hh == colors_v(hh@),
            d@.w == orig_width,
            d@.h == orig_height,
    {
        DWTImage { ll, lh, hl, hh, orig_width, orig_height }
    }

    /// Horizontal pass of the forward transform: per row, the sums and
    /// differences of the column pairs.
    pub fn horizontal_transform(img: &PPMImage) -> (r: (Vec<RGBColor>, Vec<RGBColor>))
        requires
            ppm_wf(img@),
            ppm_bounded(img@, TRANSFORM_LIMIT as int),
        ensures
            colors_v(r.0@) == low_seq(img@.data, img@.width, img@.height),
            colors_v(r.1@) == high_seq(img@.data, img@.width, img@.height),
    {
        let w: usize = img.width;
        let h: usize = img.height;
        let w2: usize = w / 2;
        let ghost data = img@.data;
        let mut vec_low: Vec<RGBColor> = Vec::new();
        let mut vec_high: Vec<RGBColor> = Vec::new();
        let mut y: usize = 0;
        while y < h
            invariant
                0 <= y <= h,
                w2 == w as int / 2,
                ppm_wf(img@),
                ppm_bounded(img@, TRANSFORM_LIMIT as int),
                w == img@.width,
                h == img@.height,
                data == img@.data,
                vec_low@.len() == y * w2,
                vec_high@.len() == y * w2,
                forall|i: int| 0 <= i < vec_low@.len()
                    ==> (#[trigger] vec_low@[i])@ == low_at(data, w as int, i / (w2 as int),
                        i % (w2 as int)),
                forall|i: int| 0 <= i < vec_high@.len()
                    ==> (#[trigger] vec_high@[i])@ == high_at(data, w as int, i / (w2 as int),
                        i % (w2 as int)),
            decreases h - y,
        {
            let mut gx: usize = 0;
            proof {
                assert((y + 1) * w2 == y * w2 + w2) by (nonlinear_arith);
                assert(y * w2 + w2 <= h * w2) by (nonlinear_arith)
                    requires y + 1 <= h, 0 <= w2;
            }
            while gx < w2
                invariant
                    0 <= gx <= w2,
                    0 <= y < h,
                    w2 == w as int / 2,
                    ppm_wf(img@),
                    ppm_bounded(img@, TRANSFORM_LIMIT as int),
                    w == img@.width,
                    h == img@.height,
                    data == img@.data,
                    vec_low@.len() == y * w2 + gx,
                    vec_high@.len() == y * w2 + gx,
                    forall|i: int| 0 <= i < vec_low@.len()
                        ==> (#[trigger] vec_low@[i])@ == low_at(data, w as int, i / (w2 as int),
                            i % (w2 as int)),
                    forall|i: int| 0 <= i < vec_high@.len()
                        ==> (#[trigger] vec_high@[i])@ == high_at(data, w as int, i / (w2 as int),
                            i % (w2 as int)),
                decreases w2 - gx,
            {
                proof {
                    vstd::std_specs::vec::axiom_spec_len(&img.data);
                    assert(2 * gx + 1 < w) by (nonlinear_arith)
                        requires gx < w2, w2 == w as int / 2;
                    assert(y * w + 2 * gx + 1 < w * h) by (nonlinear_arith)
                        requires 0 <= y < h, 0 <= 2 * gx + 1 < w;
                    assert(chan_bounded(data[y as int * w + 2 * gx], TRANSFORM_LIMIT as int));
                    assert(chan_bounded(data[y as int * w + 2 * gx + 1], TRANSFORM_LIMIT as int));
                }
                let p0 = img.data[y * w + 2 * gx];
                let p1 = img.data[y * w + 2 * gx + 1];
                proof {
                    assert(p0@ == data[y as int * w + 2 * gx]);
                    assert(p1@ == data[y as int * w + 2 * gx + 1]);
                    lemma_fundamental_div_mod_converse(
                        y as int * w2 + gx, w2 as int, y as int, gx as int);
                }
                vec_low.push(p0.add(&p1));
                vec_high.push(p0.sub(&p1));
                gx = gx + 1;
            }
            y = y + 1;
            proof {
                assert(y * w2 == (y - 1) * w2 + w2) by (nonlinear_arith);
            }
        }
        proof {
            assert(colors_v(vec_low@) =~= low_seq(data, w as int, h as int));
            assert(colors_v(vec_high@) =~= high_seq(data, w as int, h as int));
        }
        (vec_low, vec_high)
    }

    /// Forward transform: one level of 2-D wavelet decomposition.  An
    /// image with an odd dimension loses its trailing row or column.
    pub fn from_ppm(img: &PPMImage) -> (d: DWTImage)
        requires
            ppm_wf(img@),
            ppm_bounded(img@, TRANSFORM_LIMIT as int),
        ensures
            d@.ll == ll_band(img@.data, img@.width, img@.height),
            d@.lh == lh_band(img@.data, img@.width, img@.height),
            d@.hl == hl_band(img@.data, img@.width, img@.height),
            d@.hh == hh_band(img@.data, img@.width, img@.height),
            d@.w == img@.width,
            d@.h == img@.height,
            dwt_wf(d@),
    {
        let w: usize = img.width;
        let h: usize = img.height;
        let w2: usize = w / 2;
        let h2: usize = h / 2;
        let ghost data = img@.data;
        let (vec_low, vec_high) = DWTImage::horizontal_transform(img);
        let ghost lows = low_seq(data, w as int, h as int);
        let ghost highs = high_seq(data, w as int, h as int);
        let mut ll: Vec<RGBColor> = Vec::new();
        let mut lh: Vec<RGBColor> = Vec::new();
        let mut hl: Vec<RGBColor> = Vec::new();
        let mut hh: Vec<RGBColor> = Vec::new();
        let mut gy: usize = 0;
        while gy < h2
            invariant
                0 <= gy <= h2,
                w2 == w as int / 2,
                h2 == h as int / 2,
                ppm_wf(img@),
                ppm_bounded(img@, TRANSFORM_LIMIT as int),
                w == img@.width,
                h == img@.height,
                data == img@.data,
                colors_v(vec_low@) == lows,
                colors_v(vec_high@) == highs,
                lows == low_seq(data, w as int, h as int),
                highs == high_seq(data, w as int, h as int),
                ll@.len() == gy * w2,
                lh@.len() == gy * w2,
                hl@.len() == gy * w2,
                hh@.len() == gy * w2,
                forall|k: int| 0 <= k < ll@.len()
                    ==> (#[trigger] ll@[k])@ == ll_at(data, w as int, k / (w2 as int),
                        k % (w2 as int)),
                forall|k: int| 0 <= k < lh@.len()
                    ==> (#[trigger] lh@[k])@ == lh_at(data, w as int, k / (w2 as int),
                        k % (w2 as int)),
                forall|k: int| 0 <= k < hl@.len()
                    ==> (#[trigger] hl@[k])@ == hl_at(data, w as int, k / (w2 as int),
                        k % (w2 as int)),
                forall|k: int| 0 <= k < hh@.len()
                    ==> (#[trigger] hh@[k])@ == hh_at(data, w as int, k / (w2 as int),
                        k % (w2 as int)),
            decreases h2 - gy,
        {
            let mut gx: usize = 0;
            proof {
                assert((gy + 1) * w2 == gy * w2 + w2) by (nonlinear_arith);
                assert(gy * w2 + w2 <= h2 * w2) by (nonlinear_arith)
                    requires gy + 1 <= h2, 0 <= w2;
                assert(h2 * w2 <= h * w2) by (nonlinear_arith)
                    requires h2 <= h, 0 <= w2;
            }
            while gx < w2
                invariant
                    0 <= gx <= w2,
                    0 <= gy < h2,
                    w2 == w as int / 2,
                    h2 == h as int / 2,
                    ppm_wf(img@),
                    ppm_bounded(img@, TRANSFORM_LIMIT as int),
                    w == img@.width,
                    h == img@.height,
                    data == img@.data,
                    colors_v(vec_low@) == lows,
                    colors_v(vec_high@) == highs,
                    lows == low_seq(data, w as int, h as int),
                    highs == high_seq(data, w as int, h as int),
                    ll@.len() == gy * w2 + gx,
                    lh@.len() == gy * w2 + gx,
                    hl@.len() == gy * w2 + gx,
                    hh@.len() == gy * w2 + gx,
                    forall|k: int| 0 <= k < ll@.len()
                        ==> (#[trigger] ll@[k])@ == ll_at(data, w as int, k / (w2 as int),
                            k % (w2 as int)),
                    forall|k: int| 0 <= k < lh@.len()
                        ==> (#[trigger] lh@[k])@ == lh_at(data, w as int, k / (w2 as int),
                            k % (w2 as int)),
                    forall|k: int| 0 <= k < hl@.len()
                        ==> (#[trigger] hl@[k])@ == hl_at(data, w as int, k / (w2 as int),
                            k % (w2 as int)),
                    forall|k: int| 0 <= k < hh@.len()
                        ==> (#[trigger] hh@[k])@ == hh_at(data, w as int, k / (w2 as int),
                            k % (w2 as int)),
                decreases w2 - gx,
            {
                proof {
                    vstd::std_specs::vec::axiom_spec_len(&vec_low);
                    vstd::std_specs::vec::axiom_spec_len(&vec_high);
                    vstd::std_specs::vec::axiom_spec_len(&img.data);
                    assert(2 * gy + 1 < h) by (nonlinear_arith)
                        requires gy < h2, h2 == h as int / 2;
                    assert(2 * gx + 1 < w) by (nonlinear_arith)
                        requires gx < w2, w2 == w as int / 2;
                    assert(0 <= h * w2 && h2 * w2 <= h * w2 && h * w2 <= w * h)
                        by (nonlinear_arith)
                        requires 0 <= h2 <= h, 0 <= w2 <= w;
                    assert((2 * gy + 1) * w2 + gx < h * w2) by (nonlinear_arith)
                        requires 0 <= 2 * gy + 1 < h, 0 <= gx < w2;
                    assert((2 * gy) * w2 + gx < h * w2) by (nonlinear_arith)
                        requires 0 <= 2 * gy < h, 0 <= gx < w2;
                    lemma_fundamental_div_mod_converse(
                        (2 * gy + 1) as int * w2 + gx, w2 as int, 2 * gy + 1, gx as int);
                    lemma_fundamental_div_mod_converse(
                        (2 * gy) as int * w2 + gx, w2 as int, 2 * gy, gx as int);
                    assert(lows.len() == h * w2);
                    assert(highs.len() == h * w2);
                    assert(vec_low@.len() == lows.len());
                    assert(vec_high@.len() == highs.len());
                }
                let bot_low = vec_low[(2 * gy + 1) * w2 + gx];
                let top_low = vec_low[(2 * gy) * w2 + gx];
                let bot_high = vec_high[(2 * gy + 1) * w2 + gx];
                let top_high = vec_high[(2 * gy) * w2 + gx];
                proof {
                    assert(bot_low@ == lows[(2 * gy + 1) as int * w2 + gx]);
                    assert(top_low@ == lows[(2 * gy) as int * w2 + gx]);
                    assert(bot_high@ == highs[(2 * gy + 1) as int * w2 + gx]);
                    assert(top_high@ == highs[(2 * gy) as int * w2 + gx]);
                    assert(bot_low@ == low_at(data, w as int, 2 * gy + 1, gx as int));
                    assert(top_low@ == low_at(data, w as int, 2 * gy, gx as int));
                    assert(bot_high@ == high_at(data, w as int, 2 * gy + 1, gx as int));
                    assert(top_high@ == high_at(data, w as int, 2 * gy, gx as int));
                    assert((2 * gy + 1) * w + 2 * gx + 1 < w * h) by (nonlinear_arith)
                        requires 0 <= 2 * gy + 1 < h, 0 <= 2 * gx + 1 < w;
                    assert((2 * gy) * w + 2 * gx + 1 < w * h) by (nonlinear_arith)
                        requires 0 <= 2 * gy < h, 0 <= 2 * gx + 1 < w;
                    assert(chan_bounded(data[(2 * gy + 1) as int * w + 2 * gx],
                        TRANSFORM_LIMIT as int));
                    assert(chan_bounded(data[(2 * gy + 1) as int * w + 2 * gx + 1],
                        TRANSFORM_LIMIT as int));
                    assert(chan_bounded(data[(2 * gy) as int * w + 2 * gx],
                        TRANSFORM_LIMIT as int));
                    assert(chan_bounded(data[(2 * gy) as int * w + 2 * gx + 1],
                        TRANSFORM_LIMIT as int));
                    lemma_fundamental_div_mod_converse(
                        gy as int * w2 + gx, w2 as int, gy as int, gx as int);
                }
                ll.push(bot_low.add(&top_low));
                hl.push(bot_high.add(&top_high));
                lh.push(top_low.sub(&bot_low));
                hh.push(top_high.sub(&bot_high));
                gx = gx + 1;
            }
            gy = gy + 1;
            proof {
                assert(gy * w2 == (gy - 1) * w2 + w2) by (nonlinear_arith);
            }
        }
        let d = DWTImage::new(ll, lh, hl, hh, w, h);
        proof {
            assert(band_len(w as int, h as int) == h2 * w2);
            assert(h2 * w2 >= 0) by (nonlinear_arith)
                requires 0 <= h2, 0 <= w2;
            assert(d@.ll =~= ll_band(data, w as int, h as int));
            assert(d@.lh =~= lh_band(data, w as int, h as int));
            assert(d@.hl =~= hl_band(data, w as int, h as int));
            assert(d@.hh =~= hh_band(data, w as int, h as int));
        }
        d
    }

    /// Inverse transform: reconstructs the pixel grid from the four
    /// coefficient grids.  Each value passes through a fractional
    /// intermediate (halving is not exact on integers) and is rounded by
    /// truncation toward zero only at the final write, so the whole
    /// computation collapses to one truncated division by four per pixel.
    pub fn inverse_dwt(&self) -> (res: PPMImage)
        requires
            dwt_wf(self@),
            dwt_even(self@),
            dwt_bounded(self@, INVERSE_LIMIT as int),
            self@.w * self@.h <= usize::MAX,
        ensures
            res@.width == self@.w,
            res@.height == self@.h,
            res@.max_val == 255,
            res@.img_type == "P6"@,
            res@.data == inverse_pixels(self@),
            ppm_wf(res@),
            ppm_bounded(res@, INVERSE_LIMIT as int),
    {
        let w: usize = self.orig_width;
        let h: usize = self.orig_height;
        let w2: usize = w / 2;
        let total: usize = w * h;
        let ghost dv = self@;
        let mut data: Vec<RGBColor> = Vec::new();
        let mut i: usize = 0;
        while i < total
            invariant
                0 <= i <= total,
                total == w * h,
                w == self@.w,
                h == self@.h,
                w2 == w as int / 2,
                dv == self@,
                dwt_wf(self@),
                dwt_even(self@),
                dwt_bounded(self@, INVERSE_LIMIT as int),
                data@.len() == i,
                forall|j: int| 0 <= j < data@.len()
                    ==> (#[trigger] data@[j])@ == inverse_pixels(dv)[j]
                        && chan_bounded(data@[j]@, INVERSE_LIMIT as int),
            decreases total - i,
        {
            proof {
                assert(w > 0 && h > 0) by (nonlinear_arith)
                    requires i < w * h, 0 <= i;
            }
            let y: usize = i / w;
            let x: usize = i % w;
            proof {
                vstd::std_specs::vec::axiom_spec_len(&self.ll);
                vstd::std_specs::vec::axiom_spec_len(&self.lh);
                vstd::std_specs::vec::axiom_spec_len(&self.hl);
                vstd::std_specs::vec::axiom_spec_len(&self.hh);
                lemma_fundamental_div_mod(i as int, w as int);
                assert(y < h) by (nonlinear_arith)
                    requires
                        i < w * h, y == i / w, 0 < w,
                        i == w * (i / w) + (i % w), 0 <= i % w,
                ;
                assert(y / 2 < h as int / 2 && x / 2 < w as int / 2) by (nonlinear_arith)
                    requires
                        0 <= y < h, 0 <= x < w,
                        w as int % 2 == 0, h as int % 2 == 0,
                ;
                assert((y as int / 2) * (w as int / 2) + (x as int) / 2
                    < (w as int / 2) * (h as int / 2)) by (nonlinear_arith)
                    requires
                        0 <= y as int / 2 <= h as int / 2 - 1,
                        0 <= x as int / 2 < w as int / 2,
                ;
            }
            let gi: usize = (y / 2) * w2 + x / 2;
            let vll = self.ll[gi];
            let vlh = self.lh[gi];
            let vhl = self.hl[gi];
            let vhh = self.hh[gi];
            proof {
                assert(vll@ == dv.ll[gi as int]);
                assert(vlh@ == dv.lh[gi as int]);
                assert(vhl@ == dv.hl[gi as int]);
                assert(vhh@ == dv.hh[gi as int]);
            }
            let s1 = if y % 2 == 0 { vll.add(&vlh) } else { vll.sub(&vlh) };
            let s2 = if y % 2 == 0 { vhl.add(&vhh) } else { vhl.sub(&vhh) };
            let s = if x % 2 == 0 { s1.add(&s2) } else { s1.sub(&s2) };
            proof {
                lemma_tdiv4_bound(s@.0, INVERSE_LIMIT as int);
                lemma_tdiv4_bound(s@.1, INVERSE_LIMIT as int);
                lemma_tdiv4_bound(s@.2, INVERSE_LIMIT as int);
            }
            let px = s.div_by(4);
            proof {
                assert(px@ == inv_corner(dv.ll[gi as int], dv.lh[gi as int],
                    dv.hl[gi as int], dv.hh[gi as int], y as int % 2, x as int % 2));
            }
            data.push(px);
            i = i + 1;
        }
        let mut res = PPMImage::new();
        res.img_type = "P6".to_string();
        res.width = w;
        res.height = h;
        res.max_val = 255;
        res.data = data;
        proof {
            assert(res@.data =~= inverse_pixels(dv));
        }
        res
    }
}

/// The pixel that the inverse transform reconstructs at offset
/// `(dy, dx)` of a 2x2 region, from the region's four coefficients.
pub open spec fn inv_corner(llv: ChanV, lhv: ChanV, hlv: ChanV, hhv: ChanV, dy: int, dx: int)
    -> ChanV {
    cdiv(inv_sum(llv, lhv, hlv, hhv, dy, dx), 4)
}

/// The full reconstructed pixel grid: the 2x2 pixel region at `(2gy, 2gx)`
/// is rebuilt from the coefficients at grid position `(gy, gx)`, scanned
/// row-major in steps of two — the same order as decomposition.
pub open spec fn inverse_pixels(d: DwtV) -> Seq<ChanV> {
    Seq::new((d.w * d.h) as nat, |i: int| {
        let y = i / d.w;
        let x = i % d.w;
        let gi = (y / 2) * (d.w / 2) + x / 2;
        inv_corner(d.ll[gi], d.lh[gi], d.hl[gi], d.hh[gi], y % 2, x % 2)
    })
}

impl DWTImage {
    /// Rebuilds a decomposition from the block sequences of its four
    /// bands.
    pub fn rearrange_blocks(
        ia: &Vec<crate::block::Block>,
        ih: &Vec<crate::block::Block>,
        iv: &Vec<crate::block::Block>,
        id: &Vec<crate::block::Block>,
        width: usize,
        height: usize,
    ) -> (d: DWTImage)
        requires
            nblocks(width as int / 2, height as int / 2) <= ia@.len(),
            nblocks(width as int / 2, height as int / 2) <= ih@.len(),
            nblocks(width as int / 2, height as int / 2) <= iv@.len(),
            nblocks(width as int / 2, height as int / 2) <= id@.len(),
            (width as int / 2) * (height as int / 2) <= usize::MAX,
        ensures
            d@.ll == recompose_grid(blocks_v(ia@), width as int / 2, height as int / 2),
            d@.lh == recompose_grid(blocks_v(ih@), width as int / 2, height as int / 2),
            d@.hl == recompose_grid(blocks_v(iv@), width as int / 2, height as int / 2),
            d@.hh == recompose_grid(blocks_v(id@), width as int / 2, height as int / 2),
            d@.w == width,
            d@.h == height,
            dwt_wf(d@),
    {
        let w2: usize = width / 2;
        let h2: usize = height / 2;
        let ll = rearrange_one_block(ia, w2, h2);
        let lh = rearrange_one_block(ih, w2, h2);
        let hl = rearrange_one_block(iv, w2, h2);
        let hh = rearrange_one_block(id, w2, h2);
        let d = DWTImage::new(ll, lh, hl, hh, width, height);
        proof {
            assert((width as int / 2) * (height as int / 2)
                == (height as int / 2) * (width as int / 2)) by (nonlinear_arith);
        }
        d
    }
}

/// Round trip without embedding: the inverse transform of the forward
/// transform of any even-dimensioned pixel grid reproduces the original
/// pixel values exactly — every truncated division divides a multiple of
/// four.
pub proof fn lemma_transform_round_trip(data: Seq<ChanV>, w: int, h: int)
    requires
        0 <= w,
        0 <= h,
        w % 2 == 0,
        h % 2 == 0,
        data.len() == w * h,
    ensures
        inverse_pixels(DwtV {
            ll: ll_band(data, w, h),
            lh: lh_band(data, w, h),
            hl: hl_band(data, w, h),
            hh: hh_band(data, w, h),
            w: w,
            h: h,
        }) =~= data,
{
    let d = DwtV {
        ll: ll_band(data, w, h),
        lh: lh_band(data, w, h),
        hl: hl_band(data, w, h),
        hh: hh_band(data, w, h),
        w: w,
        h: h,
    };
    assert(w * h >= 0) by (nonlinear_arith)
        requires 0 <= w, 0 <= h;
    let inv = inverse_pixels(d);
    assert(inv.len() == data.len());
    assert forall|i: int| 0 <= i < data.len() implies inv[i] == data[i] by {
        lemma_round_trip_at(data, w, h, i);
    }
}

/// One pixel of the round trip: its reconstructed value is the truncated
/// quarter of four times itself.
proof fn lemma_round_trip_at(data: Seq<ChanV>, w: int, h: int, i: int)
    requires
        0 <= w,
        0 <= h,
        w % 2 == 0,
        h % 2 == 0,
        data.len() == w * h,
        0 <= i < w * h,
    ensures
        inverse_pixels(DwtV {
            ll: ll_band(data, w, h),
            lh: lh_band(data, w, h),
            hl: hl_band(data, w, h),
            hh: hh_band(data, w, h),
            w: w,
            h: h,
        })[i] == data[i],
{
    let d = DwtV {
        ll: ll_band(data, w, h),
        lh: lh_band(data, w, h),
        hl: hl_band(data, w, h),
        hh: hh_band(data, w, h),
        w: w,
        h: h,
    };
    assert(w > 0 && h > 0) by (nonlinear_arith)
        requires 0 <= i < w * h, 0 <= w, 0 <= h;
    let w2 = w / 2;
    let h2 = h / 2;
    lemma_fundamental_div_mod(w, 2);
    lemma_fundamental_div_mod(h, 2);
    assert(w == 2 * w2 && h == 2 * h2);
    let y = i / w;
    let x = i % w;
    lemma_fundamental_div_mod(i, w);
    assert(y < h) by (nonlinear_arith)
        requires
            i < w * h, y == i / w, 0 < w,
            i == w * (i / w) + (i % w), 0 <= i % w,
    ;
    let gy = y / 2;
    let dy = y % 2;
    let gx = x / 2;
    let dx = x % 2;
    lemma_fundamental_div_mod(y, 2);
    lemma_fundamental_div_mod(x, 2);
    assert(gy < h2 && gx < w2) by (nonlinear_arith)
        requires
            0 <= y < h, h == 2 * h2, y == 2 * gy + dy, 0 <= dy < 2,
            0 <= x < w, w == 2 * w2, x == 2 * gx + dx, 0 <= dx < 2,
    ;
    let gi = gy * w2 + gx;
    assert(0 <= gi < h2 * w2) by (nonlinear_arith)
        requires 0 <= gy <= h2 - 1, 0 <= gx < w2, gi == gy * w2 + gx;
    lemma_fundamental_div_mod_converse(gi, w2, gy, gx);
    assert(d.ll[gi] == ll_at(data, w, gy, gx));
    assert(d.lh[gi] == lh_at(data, w, gy, gx));
    assert(d.hl[gi] == hl_at(data, w, gy, gx));
    assert(d.hh[gi] == hh_at(data, w, gy, gx));
    let ia = (2 * gy) * w + 2 * gx;
    let ic = (2 * gy + 1) * w + 2 * gx;
    assert(0 <= ia && ia + 1 < w * h && 0 <= ic && ic + 1 < w * h) by (nonlinear_arith)
        requires
            0 <= gy, 2 * gy + 1 < h, 0 <= gx, 2 * gx + 1 < w,
            ia == (2 * gy) * w + 2 * gx, ic == (2 * gy + 1) * w + 2 * gx,
    ;
    let a = data[ia];
    let b = data[ia + 1];
    let c = data[ic];
    let e = data[ic + 1];
    assert(low_at(data, w, 2 * gy, gx) == cadd(a, b));
    assert(high_at(data, w, 2 * gy, gx) == csub(a, b));
    assert(low_at(data, w, 2 * gy + 1, gx) == cadd(c, e));
    assert(high_at(data, w, 2 * gy + 1, gx) == csub(c, e));
    let llv = d.ll[gi];
    let lhv = d.lh[gi];
    let hlv = d.hl[gi];
    let hhv = d.hh[gi];
    assert(inverse_pixels(d)[i] == inv_corner(llv, lhv, hlv, hhv, dy, dx));
    if dy == 0 && dx == 0 {
        assert(i == ia) by (nonlinear_arith)
            requires
                i == w * y + x, y == 2 * gy, x == 2 * gx,
                ia == (2 * gy) * w + 2 * gx,
        ;
        assert(cadd(cadd(llv, lhv), cadd(hlv, hhv)) == (4 * a.0, 4 * a.1, 4 * a.2));
        lemma_tdiv4_exact(a.0);
        lemma_tdiv4_exact(a.1);
        lemma_tdiv4_exact(a.2);
    } else if dy == 0 {
        assert(i == ia + 1) by (nonlinear_arith)
            requires
                i == w * y + x, y == 2 * gy, x == 2 * gx + 1,
                ia == (2 * gy) * w + 2 * gx,
        ;
        assert(csub(cadd(llv, lhv), cadd(hlv, hhv)) == (4 * b.0, 4 * b.1, 4 * b.2));
        lemma_tdiv4_exact(b.0);
        lemma_tdiv4_exact(b.1);
        lemma_tdiv4_exact(b.2);
    } else if dx == 0 {
        assert(i == ic) by (nonlinear_arith)
            requires
                i == w * y + x, y == 2 * gy + 1, x == 2 * gx,
                ic == (2 * gy + 1) * w + 2 * gx,
        ;
        assert(cadd(csub(llv, lhv), csub(hlv, hhv)) == (4 * c.0, 4 * c.1, 4 * c.2));
        lemma_tdiv4_exact(c.0);
        lemma_tdiv4_exact(c.1);
        lemma_tdiv4_exact(c.2);
    } else {
        assert(i == ic + 1) by (nonlinear_arith)
            requires
                i == w * y + x, y == 2 * gy + 1, x == 2 * gx + 1,
                ic == (2 * gy + 1) * w + 2 * gx,
        ;
        assert(csub(csub(llv, lhv), csub(hlv, hhv)) == (4 * e.0, 4 * e.1, 4 * e.2));
        lemma_tdiv4_exact(e.0);
        lemma_tdiv4_exact(e.1);
        lemma_tdiv4_exact(e.2);
    }
}

/// Four times any value, divided by four with truncation, is the value.
proof fn lemma_tdiv4_exact(a: int)
    ensures
        crate::color::tdiv(4 * a, 4) == a,
{
    if a >= 0 {
        lemma_fundamental_div_mod_converse(4 * a, 4, a, 0);
    } else {
        lemma_fundamental_div_mod_converse(-(4 * a), 4, -a, 0);
    }
}

/// The forward transform of a bounded image is bounded by four times the
/// pixel bound: each coefficient is a sum or difference of four pixels.
pub proof fn lemma_forward_bounded(data: Seq<ChanV>, w: int, h: int, b: int)
    requires
        0 <= w,
        0 <= h,
        data.len() == w * h,
        seq_bounded(data, b),
        0 <= b,
    ensures
        seq_bounded(ll_band(data, w, h), 4 * b),
        seq_bounded(lh_band(data, w, h), 4 * b),
        seq_bounded(hl_band(data, w, h), 4 * b),
        seq_bounded(hh_band(data, w, h), 4 * b),
{
    assert forall|gi: int| 0 <= gi < band_len(w, h)
        implies chan_bounded(#[trigger] ll_band(data, w, h)[gi], 4 * b) by {
        lemma_forward_bounded_at(data, w, h, b, gi);
    }
    assert forall|gi: int| 0 <= gi < band_len(w, h)
        implies chan_bounded(#[trigger] lh_band(data, w, h)[gi], 4 * b) by {
        lemma_forward_bounded_at(data, w, h, b, gi);
    }
    assert forall|gi: int| 0 <= gi < band_len(w, h)
        implies chan_bounded(#[trigger] hl_band(data, w, h)[gi], 4 * b) by {
        lemma_forward_bounded_at(data, w, h, b, gi);
    }
    assert forall|gi: int| 0 <= gi < band_len(w, h)
        implies chan_bounded(#[trigger] hh_band(data, w, h)[gi], 4 * b) by {
        lemma_forward_bounded_at(data, w, h, b, gi);
    }
}

/// The four coefficients at one grid position are bounded by four times
/// the pixel bound.
proof fn lemma_forward_bounded_at(data: Seq<ChanV>, w: int, h: int, b: int, gi: int)
    requires
        0 <= w,
        0 <= h,
        data.len() == w * h,
        seq_bounded(data, b),
        0 <= b,
        0 <= gi < band_len(w, h),
    ensures
        chan_bounded(ll_band(data, w, h)[gi], 4 * b),
        chan_bounded(lh_band(data, w, h)[gi], 4 * b),
        chan_bounded(hl_band(data, w, h)[gi], 4 * b),
        chan_bounded(hh_band(data, w, h)[gi], 4 * b),
{
    let w2 = w / 2;
    let h2 = h / 2;
    {
        assert(w2 > 0 && h2 > 0) by (nonlinear_arith)
            requires 0 <= gi < h2 * w2, 0 <= w2, 0 <= h2;
        let gy = gi / w2;
        let gx = gi % w2;
        lemma_fundamental_div_mod(gi, w2);
        assert(gy < h2) by (nonlinear_arith)
            requires
                gi < h2 * w2, gy == gi / w2, 0 < w2,
                gi == w2 * (gi / w2) + (gi % w2), 0 <= gi % w2,
        ;
        lemma_fundamental_div_mod(h, 2);
        lemma_fundamental_div_mod(w, 2);
        assert(2 * gy + 1 < h && 2 * gx + 1 < w) by (nonlinear_arith)
            requires 0 <= gy < h2, 0 <= gx < w2, 2 * h2 <= h, 2 * w2 <= w;
        let ia = (2 * gy) * w + 2 * gx;
        let ic = (2 * gy + 1) * w + 2 * gx;
        assert(0 <= ia && ia + 1 < w * h && 0 <= ic && ic + 1 < w * h)
            by (nonlinear_arith)
            requires
                0 <= gy, 2 * gy + 1 < h, 0 <= gx, 2 * gx + 1 < w,
                ia == (2 * gy) * w + 2 * gx, ic == (2 * gy + 1) * w + 2 * gx,
        ;
        assert(chan_bounded(data[ia], b));
        assert(chan_bounded(data[ia + 1], b));
        assert(chan_bounded(data[ic], b));
        assert(chan_bounded(data[ic + 1], b));
    }
}

/// The decomposition a pixel grid's forward transform would produce.
pub open spec fn dwt_of(v: crate::image::PpmV) -> DwtV {
    DwtV {
        ll: ll_band(v.data, v.width, v.height),
        lh: lh_band(v.data, v.width, v.height),
        hl: hl_band(v.data, v.width, v.height),
        hh: hh_band(v.data, v.width, v.height),
        w: v.width,
        h: v.height,
    }
}

/// The inverse transform keeps the coefficient bound: every pixel is a
/// truncated quarter of a sum of four bounded coefficients.
pub proof fn lemma_inverse_pixels_bounded(d: DwtV, b: int)
    requires
        dwt_wf(d),
        dwt_even(d),
        dwt_bounded(d, b),
        0 <= d.w,
        0 <= d.h,
        0 <= b,
    ensures
        seq_bounded(inverse_pixels(d), b),
{
    let w = d.w;
    let h = d.h;
    assert(w * h >= 0) by (nonlinear_arith)
        requires 0 <= w, 0 <= h;
    let pix = inverse_pixels(d);
    assert(pix.len() == w * h);
    assert forall|i: int| 0 <= i < pix.len() implies chan_bounded(#[trigger] pix[i], b) by {
        assert(w > 0 && h > 0) by (nonlinear_arith)
            requires 0 <= i < w * h, 0 <= w, 0 <= h;
        let y = i / w;
        let x = i % w;
        lemma_fundamental_div_mod(i, w);
        assert(y < h) by (nonlinear_arith)
            requires
                i < w * h, y == i / w, 0 < w,
                i == w * (i / w) + (i % w), 0 <= i % w,
        ;
        let gi = (y / 2) * (w / 2) + x / 2;
        assert(y / 2 < h / 2 && x / 2 < w / 2) by (nonlinear_arith)
            requires 0 <= y < h, 0 <= x < w, w % 2 == 0, h % 2 == 0;
        assert(0 <= gi < (w / 2) * (h / 2)) by (nonlinear_arith)
            requires
                0 <= y / 2 <= h / 2 - 1, 0 <= x / 2 < w / 2,
                gi == (y / 2) * (w / 2) + x / 2,
        ;
        assert(chan_bounded(d.ll[gi], b));
        assert(chan_bounded(d.lh[gi], b));
        assert(chan_bounded(d.hl[gi], b));
        assert(chan_bounded(d.hh[gi], b));
        lemma_tdiv4_bound(
            (inv_sum(d.ll[gi], d.lh[gi], d.hl[gi], d.hh[gi], y % 2, x % 2)).0, b);
        lemma_tdiv4_bound(
            (inv_sum(d.ll[gi], d.lh[gi], d.hl[gi], d.hh[gi], y % 2, x % 2)).1, b);
        lemma_tdiv4_bound(
            (inv_sum(d.ll[gi], d.lh[gi], d.hl[gi], d.hh[gi], y % 2, x % 2)).2, b);
    }
}

/// The signed sum the inverse transform truncates for the `(dy, dx)`
/// corner, before its division by four.
pub open spec fn inv_sum(llv: ChanV, lhv: ChanV, hlv: ChanV, hhv: ChanV, dy: int, dx: int)
    -> ChanV {
    if dy == 0 && dx == 0 {
        cadd(cadd(llv, lhv), cadd(hlv, hhv))
    } else if dy == 0 {
        csub(cadd(llv, lhv), cadd(hlv, hhv))
    } else if dx == 0 {
        cadd(csub(llv, lhv), csub(hlv, hhv))
    } else {
        csub(csub(llv, lhv), csub(hlv, hhv))
    }
}

/// Truncated division by four keeps a fourfold bound.
proof fn lemma_tdiv4_bound(s: int, b: int)
    requires
        0 <= b,
        -4 * b <= s <= 4 * b,
    ensures
        -b <= crate::color::tdiv(s, 4) <= b,
{
    if s >= 0 {
        lemma_fundamental_div_mod_converse(4 * b, 4, b, 0);
        vstd::arithmetic::div_mod::lemma_div_is_ordered(s, 4 * b, 4);
        vstd::arithmetic::div_mod::lemma_div_pos_is_pos(s, 4);
    } else {
        lemma_fundamental_div_mod_converse(4 * b, 4, b, 0);
        vstd::arithmetic::div_mod::lemma_div_is_ordered(-s, 4 * b, 4);
        vstd::arithmetic::div_mod::lemma_div_pos_is_pos(-s, 4);
    }
}

} // verus!
