use vstd::prelude::*;

verus! {

/// One pixel or coefficient value: a red/green/blue channel triple.
///
/// Display images hold channel values in `0..=255`; wavelet coefficients and
/// block differences need a signed, wider range, so every channel is an
/// `i32`, which comfortably holds sums and differences of channel values
/// throughout the pipeline.  Contracts speak of the view: the triple of
/// channel values as unbounded integers.
#[derive(Clone, Copy, PartialEq, Eq, Structural, Debug)]
pub struct RGBColor {
    pub red: i32,
    pub green: i32,
    pub blue: i32,
}

/// The mathematical value of a channel triple.
pub type ChanV = (int, int, int);

impl View for RGBColor {
    type V = ChanV;

    open spec fn view(&self) -> ChanV {
        (self.red as int, self.green as int, self.blue as int)
    }
}

/// Channel-wise sum of two channel triples.
pub open spec fn cadd(a: ChanV, b: ChanV) -> ChanV {
    (a.0 + b.0, a.1 + b.1, a.2 + b.2)
}

/// Channel-wise difference of two channel triples.
pub open spec fn csub(a: ChanV, b: ChanV) -> ChanV {
    (a.0 - b.0, a.1 - b.1, a.2 - b.2)
}

/// Quotient truncated toward zero, the rounding that Rust's `/` performs.
pub open spec fn tdiv(a: int, d: int) -> int {
    if a >= 0 {
        a / d
    } else {
        -((-a) / d)
    }
}

/// Channel-wise quotient, truncated toward zero.
pub open spec fn cdiv(a: ChanV, d: int) -> ChanV {
    (tdiv(a.0, d), tdiv(a.1, d), tdiv(a.2, d))
}

pub open spec fn fits_i32(x: int) -> bool {
    i32::MIN <= x <= i32::MAX
}

/// Every channel of the triple is representable as an `i32`.
pub open spec fn chan_fits(c: ChanV) -> bool {
    fits_i32(c.0) && fits_i32(c.1) && fits_i32(c.2)
}

/// Every channel lies within `-bound ..= bound`.
pub open spec fn chan_bounded(c: ChanV, bound: int) -> bool {
    &&& -bound <= c.0 <= bound
    &&& -bound <= c.1 <= bound
    &&& -bound <= c.2 <= bound
}

/// Every channel of every triple of the sequence lies within
/// `-bound ..= bound`.
pub open spec fn seq_bounded(s: Seq<ChanV>, bound: int) -> bool {
    forall|i: int| 0 <= i < s.len() ==> chan_bounded(#[trigger] s[i], bound)
}

/// The mathematical values of a sequence of channel triples.
pub open spec fn colors_v(s: Seq<RGBColor>) -> Seq<ChanV> {
    s.map_values(|c: RGBColor| c@)
}

impl RGBColor {
    pub fn new(red: i32, green: i32, blue: i32) -> (c: RGBColor)
        ensures
            c@ == (red as int, green as int, blue as int),
    {
        RGBColor { red, green, blue }
    }

    /// Channel-wise sum.
    pub fn add(self, color: &RGBColor) -> (r: RGBColor)
        requires
            chan_fits(cadd(self@, color@)),
        ensures
            r@ == cadd(self@, color@),
    {
        RGBColor {
            red: self.red + color.red,
            green: self.green + color.green,
            blue: self.blue + color.blue,
        }
    }

    /// Channel-wise difference.
    pub fn sub(self, color: &RGBColor) -> (r: RGBColor)
        requires
            chan_fits(csub(self@, color@)),
        ensures
            r@ == csub(self@, color@),
    {
        RGBColor {
            red: self.red - color.red,
            green: self.green - color.green,
            blue: self.blue - color.blue,
        }
    }

    /// Channel-wise division by a scalar, truncated toward zero.
    pub fn div_by(self, number: i32) -> (r: RGBColor)
        requires
            number != 0,
            chan_fits(cdiv(self@, number as int)),
        ensures
            r@ == cdiv(self@, number as int),
    {
        RGBColor {
            red: self.red / number,
            green: self.green / number,
            blue: self.blue / number,
        }
    }
}

} // verus!
