use vstd::prelude::*;
use crate::color::{ChanV, RGBColor, chan_bounded};

verus! {

/// A decoded raster image: a row-major grid of channel triples.
///
/// The header fields (`img_type`, `max_val`) are carried along so that a
/// caller can write the image back out in the format it came from; the
/// pipeline itself only reads `width`, `height` and `data`.
#[derive(Debug)]
pub struct PPMImage {
    pub img_type: String,
    pub width: usize,
    pub height: usize,
    pub max_val: usize,
    pub data: Vec<RGBColor>,
}

/// The mathematical value of an image: its dimensions and the sequence of
/// channel triples in row-major order.
pub struct PpmV {
    pub img_type: Seq<char>,
    pub width: int,
    pub height: int,
    pub max_val: int,
    pub data: Seq<ChanV>,
}

impl View for PPMImage {
    type V = PpmV;

    open spec fn view(&self) -> PpmV {
        PpmV {
            img_type: self.img_type@,
            width: self.width as int,
            height: self.height as int,
            max_val: self.max_val as int,
            data: self.data@.map_values(|c: RGBColor| c@),
        }
    }
}

/// The grid holds exactly one channel triple per pixel.
pub open spec fn ppm_wf(v: PpmV) -> bool {
    v.data.len() == v.width * v.height
}

/// Every channel of every pixel lies within `-bound ..= bound`.
pub open spec fn ppm_bounded(v: PpmV, bound: int) -> bool {
    forall|i: int| 0 <= i < v.data.len() ==> chan_bounded(#[trigger] v.data[i], bound)
}

impl PPMImage {
    /// An empty image with no pixels and a blank header.
    pub fn new() -> (img: PPMImage)
        ensures
            img@.img_type.len() == 0,
            img@.width == 0,
            img@.height == 0,
            img@.max_val == 0,
            img@.data.len() == 0,
            ppm_wf(img@),
    {
        let img = PPMImage {
            img_type: String::new(),
            width: 0,
            height: 0,
            max_val: 0,
            data: Vec::new(),
        };
        proof {
            assert(img@.data =~= Seq::<ChanV>::empty());
        }
        img
    }
}

/// Whether `c` is a decimal digit.
pub open spec fn is_digit(c: char) -> bool {
    48 <= c as u32 <= 57
}

/// The numeric value of a decimal digit.
pub open spec fn digit_of(c: char) -> int {
    c as u32 - 48
}

/// Every character of the sequence is a decimal digit.
pub open spec fn all_digits(s: Seq<char>) -> bool {
    forall|i: int| 0 <= i < s.len() ==> is_digit(#[trigger] s[i])
}

/// The value of a sequence of decimal digits, most significant first.
/// The empty sequence has value 0.
pub open spec fn digits_value(s: Seq<char>) -> int
    decreases s.len(),
{
    if s.len() == 0 {
        0
    } else {
        digits_value(s.drop_last()) * 10 + digit_of(s.last())
    }
}

proof fn lemma_digits_value_nonneg(s: Seq<char>)
    requires
        all_digits(s),
    ensures
        digits_value(s) >= 0,
    decreases s.len(),
{
    if s.len() > 0 {
        assert(all_digits(s.drop_last()));
        lemma_digits_value_nonneg(s.drop_last());
    }
}

/// Parses a sequence of decimal digit characters as a `u32`, most
/// significant digit first.  Returns `None` when some character is not a
/// decimal digit or the value does not fit in a `u32`.
pub fn vec_to_u32(digits: &Vec<char>) -> (r: Option<u32>)
    ensures
        r is Some <==> all_digits(digits@) && digits_value(digits@) <= u32::MAX,
        r matches Some(v) ==> v == digits_value(digits@),
{
    let mut acc: u32 = 0;
    let mut i: usize = 0;
    while i < digits.len()
        invariant
            0 <= i <= digits.len(),
            all_digits(digits@.take(i as int)),
            acc == digits_value(digits@.take(i as int)),
        decreases digits.len() - i,
    {
        let c = digits[i];
        let cv = c as u32;
        proof {
            assert(digits@.take(i as int + 1).drop_last() =~= digits@.take(i as int));
            assert(digits@.take(i as int + 1).last() == digits@[i as int]);
        }
        if cv < 48 || cv > 57 {
            proof {
                assert(!is_digit(digits@[i as int]));
            }
            return None;
        }
        let d = cv - 48;
        let wide: u64 = acc as u64 * 10 + d as u64;
        if wide > u32::MAX as u64 {
            proof {
                lemma_take_prefix_value_monotonic(digits@, i as int + 1);
            }
            return None;
        }
        acc = wide as u32;
        i = i + 1;
    }
    proof {
        assert(digits@.take(digits@.len() as int) =~= digits@);
    }
    Some(acc)
}

/// Once all characters are digits, the value of a prefix never exceeds the
/// value of the whole sequence; and if some later character is not a digit,
/// the whole sequence is not all digits.
proof fn lemma_take_prefix_value_monotonic(s: Seq<char>, n: int)
    requires
        0 <= n <= s.len(),
        all_digits(s.take(n)),
    ensures
        all_digits(s) ==> digits_value(s) >= digits_value(s.take(n)),
    decreases s.len() - n,
{
    if all_digits(s) {
        if n < s.len() {
            assert(s.take(n + 1).drop_last() =~= s.take(n));
            assert(is_digit(s.take(n + 1).last()));
            lemma_digits_value_nonneg(s.take(n));
            assert(all_digits(s.take(n + 1)));
            lemma_take_prefix_value_monotonic(s, n + 1);
            assert(digits_value(s.take(n + 1))
                == digits_value(s.take(n)) * 10 + digit_of(s.take(n + 1).last()));
        } else {
            assert(s.take(n) =~= s);
        }
    }
}

} // verus!
