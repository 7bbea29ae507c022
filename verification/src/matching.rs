use vstd::prelude::*;
use std::cmp::Ordering;
use crate::block::{Block, BlockV, block_bounded, blocks_bounded, blocks_v};
use crate::color::ChanV;
use crate::sqrt::{is_isqrt, isqrt, isqrt_s, lemma_isqrt_is};

verus! {

/// Largest channel magnitude the distance computation accepts; keeps the
/// scaled squared sums within a `u64`.
pub const ERR_LIMIT: i32 = 524288;

/// Fixed-point scale applied to each squared channel sum before its square
/// root is taken: errors are compared at a granularity of 2^-10 square
/// roots.
pub const ERR_SCALE: u64 = 1048576;

pub open spec fn sq(x: int) -> int {
    x * x
}

/// Channel `ch` (0 red, 1 green, 2 blue) of a channel triple.
pub open spec fn chan_of(c: ChanV, ch: int) -> int {
    if ch == 0 {
        c.0
    } else if ch == 1 {
        c.1
    } else {
        c.2
    }
}

/// Sum over the four corners of the squared difference of channel `ch`.
pub open spec fn sq_sum(b1: BlockV, b2: BlockV, ch: int) -> int {
    sq(chan_of(b2.0, ch) - chan_of(b1.0, ch))
        + sq(chan_of(b2.1, ch) - chan_of(b1.1, ch))
        + sq(chan_of(b2.2, ch) - chan_of(b1.2, ch))
        + sq(chan_of(b2.3, ch) - chan_of(b1.3, ch))
}

/// The block distance: per channel, the square root of the scaled sum of
/// squared corner differences, rounded down and summed over the three
/// channels.
///
/// Up to the constant factor `6 * sqrt(ERR_SCALE)` and the rounding of
/// each square root, this is the root-mean-square channel error
/// `(1/3) * sum_ch sqrt((1/4) * sum_corner d^2)`; the pipeline only ever
/// compares distances, so the scale drops out and only the fixed-point
/// granularity remains.
pub open spec fn err_s(b1: BlockV, b2: BlockV) -> int {
    isqrt_s(ERR_SCALE * sq_sum(b1, b2, 0))
        + isqrt_s(ERR_SCALE * sq_sum(b1, b2, 1))
        + isqrt_s(ERR_SCALE * sq_sum(b1, b2, 2))
}

/// Squared difference of two channel values, exact in a `u64`.
fn sq_diff(a: i32, b: i32) -> (s: u64)
    requires
        -ERR_LIMIT <= a <= ERR_LIMIT,
        -ERR_LIMIT <= b <= ERR_LIMIT,
    ensures
        s as int == sq(b - a),
        s <= 0x100_0000_0000,
{
    let d: i64 = (b as i64) - (a as i64);
    proof {
        assert(0 <= d * d <= 0x100_0000_0000) by (nonlinear_arith)
            requires -0x100000 <= d as int <= 0x100000;
    }
    (d * d) as u64
}

/// The block distance, computed exactly as `err_s` states it.
pub fn root_mean_square_error(vec1: &Block, vec2: &Block) -> (e: u64)
    requires
        block_bounded(vec1@, ERR_LIMIT as int),
        block_bounded(vec2@, ERR_LIMIT as int),
    ensures
        e as int == err_s(vec1@, vec2@),
{
    let sr: u64 = sq_diff(vec1.p0.red, vec2.p0.red) + sq_diff(vec1.p1.red, vec2.p1.red)
        + sq_diff(vec1.p2.red, vec2.p2.red) + sq_diff(vec1.p3.red, vec2.p3.red);
    let sg: u64 = sq_diff(vec1.p0.green, vec2.p0.green) + sq_diff(vec1.p1.green, vec2.p1.green)
        + sq_diff(vec1.p2.green, vec2.p2.green) + sq_diff(vec1.p3.green, vec2.p3.green);
    let sb: u64 = sq_diff(vec1.p0.blue, vec2.p0.blue) + sq_diff(vec1.p1.blue, vec2.p1.blue)
        + sq_diff(vec1.p2.blue, vec2.p2.blue) + sq_diff(vec1.p3.blue, vec2.p3.blue);
    proof {
        assert(sr as int == sq_sum(vec1@, vec2@, 0));
        assert(sg as int == sq_sum(vec1@, vec2@, 1));
        assert(sb as int == sq_sum(vec1@, vec2@, 2));
    }
    let er: u64 = isqrt(ERR_SCALE * sr);
    let eg: u64 = isqrt(ERR_SCALE * sg);
    let eb: u64 = isqrt(ERR_SCALE * sb);
    proof {
        lemma_isqrt_le(ERR_SCALE * sr as int, er as int);
        lemma_isqrt_le(ERR_SCALE * sg as int, eg as int);
        lemma_isqrt_le(ERR_SCALE * sb as int, eb as int);
    }
    er + eg + eb
}

/// A root of a value below 2^63 is below 2^32.
proof fn lemma_isqrt_le(n: int, r: int)
    requires
        is_isqrt(n, r),
        n < 0x8000_0000_0000_0000,
    ensures
        r < 0x1_0000_0000,
{
    assert(r >= 0x1_0000_0000 ==> r * r >= 0x1_0000_0000_0000_0000) by (nonlinear_arith)
        requires r >= 0;
}

/// Lexicographic order on (distance, index) pairs: the total order that
/// breaks distance ties by the lower index.
pub open spec fn pair_le(a: (u64, usize), b: (u64, usize)) -> bool {
    a.0 < b.0 || (a.0 == b.0 && a.1 <= b.1)
}

/// Comparator realizing `pair_le`.
fn error_pair_compare(e1: &(u64, usize), e2: &(u64, usize)) -> (o: Ordering)
    ensures
        o == Ordering::Less <==> (e1.0 < e2.0 || (e1.0 == e2.0 && e1.1 < e2.1)),
        o == Ordering::Equal <==> (e1.0 == e2.0 && e1.1 == e2.1),
{
    if e1.0 < e2.0 {
        Ordering::Less
    } else if e1.0 > e2.0 {
        Ordering::Greater
    } else if e1.1 < e2.1 {
        Ordering::Less
    } else if e1.1 > e2.1 {
        Ordering::Greater
    } else {
        Ordering::Equal
    }
}

/// Relies on quicksort::quicksort_by, the crate's in-place three-way
/// quicksort (Sedgewick/Bentley): run with a comparator implementing a
/// total order — here `error_pair_compare`, the lexicographic order on
/// (distance, index) pairs — it permutes the slice into nondecreasing
/// order under that comparator and touches nothing else.
#[verifier::external_body]
fn sort_error_pairs(v: &mut Vec<(u64, usize)>)
    ensures
        final(v)@.len() == old(v)@.len(),
        final(v)@.to_multiset() == old(v)@.to_multiset(),
        forall|i: int, j: int|
            0 <= i <= j < final(v)@.len() ==> pair_le(final(v)@[i], final(v)@[j]),
{
    quicksort::quicksort_by(v.as_mut_slice(), error_pair_compare);
}

/// `k` indexes the candidate with the least distance to `t`, distance ties
/// broken by the lower index.
pub open spec fn is_best_match(t: BlockV, cands: Seq<BlockV>, k: int) -> bool {
    &&& 0 <= k < cands.len()
    &&& forall|j: int| 0 <= j < cands.len()
        ==> err_s(t, cands[k]) < err_s(t, #[trigger] cands[j])
            || (err_s(t, cands[k]) == err_s(t, cands[j]) && k <= j)
}

/// Best-match selection is a function of its inputs: there is exactly one
/// best index, so identical inputs always yield the same answer.
pub proof fn lemma_best_match_deterministic(t: BlockV, cands: Seq<BlockV>, k1: int, k2: int)
    requires
        is_best_match(t, cands, k1),
        is_best_match(t, cands, k2),
    ensures
        k1 == k2,
{
    assert(err_s(t, cands[k1]) < err_s(t, cands[k2])
        || (err_s(t, cands[k1]) == err_s(t, cands[k2]) && k1 <= k2));
    assert(err_s(t, cands[k2]) < err_s(t, cands[k1])
        || (err_s(t, cands[k2]) == err_s(t, cands[k1]) && k2 <= k1));
}

/// The distance is symmetric.
pub proof fn lemma_err_symmetric(b1: BlockV, b2: BlockV)
    ensures
        err_s(b1, b2) == err_s(b2, b1),
{
    assert forall|ch: int| 0 <= ch < 3 implies sq_sum(b1, b2, ch) == sq_sum(b2, b1, ch) by {
        lemma_sq_neg(chan_of(b2.0, ch) - chan_of(b1.0, ch));
        lemma_sq_neg(chan_of(b2.1, ch) - chan_of(b1.1, ch));
        lemma_sq_neg(chan_of(b2.2, ch) - chan_of(b1.2, ch));
        lemma_sq_neg(chan_of(b2.3, ch) - chan_of(b1.3, ch));
    }
    assert(sq_sum(b1, b2, 0) == sq_sum(b2, b1, 0));
    assert(sq_sum(b1, b2, 1) == sq_sum(b2, b1, 1));
    assert(sq_sum(b1, b2, 2) == sq_sum(b2, b1, 2));
}

proof fn lemma_sq_neg(x: int)
    ensures
        sq(x) == sq(-x),
{
    assert(x * x == (-x) * (-x)) by (nonlinear_arith);
}

/// A block is at distance zero from itself.
pub proof fn lemma_err_self_zero(b: BlockV)
    ensures
        err_s(b, b) == 0,
{
    assert(sq_sum(b, b, 0) == 0);
    assert(sq_sum(b, b, 1) == 0);
    assert(sq_sum(b, b, 2) == 0);
    lemma_isqrt_is(0, 0);
}

/// The best-match index among candidates `k ..`, computed recursively:
/// the leftmost candidate from `k` on with the least distance to `t`.
pub open spec fn best_from(t: BlockV, cands: Seq<BlockV>, k: int) -> int
    decreases cands.len() - k,
{
    if k + 1 >= cands.len() {
        k
    } else {
        let r = best_from(t, cands, k + 1);
        if err_s(t, cands[k]) <= err_s(t, cands[r]) {
            k
        } else {
            r
        }
    }
}

/// The index of the candidate closest to `t`, distance ties broken by the
/// lower index.
pub open spec fn best_idx(t: BlockV, cands: Seq<BlockV>) -> int {
    best_from(t, cands, 0)
}

/// For every target, the index of the candidate closest to it.
pub open spec fn matching_s(sa: Seq<BlockV>, ia: Seq<BlockV>) -> Seq<int> {
    Seq::new(sa.len(), |i: int| best_idx(sa[i], ia))
}

proof fn lemma_best_from_is_best(t: BlockV, cands: Seq<BlockV>, k: int)
    requires
        0 <= k < cands.len(),
    ensures
        k <= best_from(t, cands, k) < cands.len(),
        forall|j: int| k <= j < cands.len()
            ==> err_s(t, cands[best_from(t, cands, k)]) < err_s(t, #[trigger] cands[j])
                || (err_s(t, cands[best_from(t, cands, k)]) == err_s(t, cands[j])
                    && best_from(t, cands, k) <= j),
    decreases cands.len() - k,
{
    if k + 1 < cands.len() {
        lemma_best_from_is_best(t, cands, k + 1);
    }
}

/// `best_idx` names the block that best-match selection must return.
pub proof fn lemma_best_idx_is_best(t: BlockV, cands: Seq<BlockV>)
    requires
        cands.len() >= 1,
    ensures
        is_best_match(t, cands, best_idx(t, cands)),
{
    lemma_best_from_is_best(t, cands, 0);
}

/// Index of the candidate block closest to `bdc`, distance ties broken by
/// the lower index.
pub fn find_most_fit_block_index(bdc: &Block, arr: &Vec<Block>) -> (idx: usize)
    requires
        arr@.len() >= 1,
        block_bounded(bdc@, ERR_LIMIT as int),
        blocks_bounded(blocks_v(arr@), ERR_LIMIT as int),
    ensures
        is_best_match(bdc@, blocks_v(arr@), idx as int),
        idx as int == best_idx(bdc@, blocks_v(arr@)),
{
    let ghost cands = blocks_v(arr@);
    let mut result: Vec<(u64, usize)> = Vec::new();
    let mut i: usize = 0;
    while i < arr.len()
        invariant
            0 <= i <= arr@.len(),
            cands == blocks_v(arr@),
            block_bounded(bdc@, ERR_LIMIT as int),
            blocks_bounded(cands, ERR_LIMIT as int),
            result@.len() == i,
            forall|j: int| 0 <= j < i
                ==> (#[trigger] result@[j]).0 as int == err_s(bdc@, cands[j])
                    && result@[j].1 == j,
        decreases arr@.len() - i,
    {
        proof {
            assert(cands[i as int] == arr@[i as int]@);
            assert(block_bounded(cands[i as int], ERR_LIMIT as int));
        }
        let e = root_mean_square_error(bdc, &arr[i]);
        result.push((e, i));
        i = i + 1;
    }
    let ghost orig = result@;
    sort_error_pairs(&mut result);
    let ghost sorted = result@;
    let best = result[0];
    proof {
        broadcast use vstd::seq_lib::group_to_multiset_ensures;
        assert(sorted[0] == best);
        assert(sorted.contains(best));
        assert(sorted.to_multiset().count(best) > 0);
        assert(orig.to_multiset().count(best) > 0);
        assert(orig.contains(best));
        let k = choose|m: int| 0 <= m < orig.len() && orig[m] == best;
        assert(orig[k] == best);
        assert(best.1 == k && best.0 as int == err_s(bdc@, cands[k]));
        assert forall|j: int| 0 <= j < cands.len()
            implies err_s(bdc@, cands[k]) < err_s(bdc@, #[trigger] cands[j])
                || (err_s(bdc@, cands[k]) == err_s(bdc@, cands[j]) && k <= j) by {
            assert(orig.contains(orig[j]));
            assert(orig.to_multiset().count(orig[j]) > 0);
            assert(sorted.to_multiset().count(orig[j]) > 0);
            assert(sorted.contains(orig[j]));
            let m = choose|m: int| 0 <= m < sorted.len() && sorted[m] == orig[j];
            assert(pair_le(sorted[0], sorted[m]));
            assert(orig[j].0 as int == err_s(bdc@, cands[j]) && orig[j].1 == j);
        }
        assert(is_best_match(bdc@, cands, best.1 as int));
        lemma_best_idx_is_best(bdc@, cands);
        lemma_best_match_deterministic(bdc@, cands, best.1 as int, best_idx(bdc@, cands));
    }
    best.1
}

/// Independently finds, for every target block, the closest candidate.
pub fn matching(sa: &Vec<Block>, ia: &Vec<Block>) -> (index_arr: Vec<usize>)
    requires
        sa@.len() > 0 ==> ia@.len() >= 1,
        blocks_bounded(blocks_v(sa@), ERR_LIMIT as int),
        blocks_bounded(blocks_v(ia@), ERR_LIMIT as int),
    ensures
        index_arr@.len() == sa@.len(),
        forall|i: int| 0 <= i < sa@.len()
            ==> is_best_match(blocks_v(sa@)[i], blocks_v(ia@), #[trigger] index_arr@[i] as int),
        forall|i: int| 0 <= i < sa@.len()
            ==> (#[trigger] index_arr@[i]) as int == matching_s(blocks_v(sa@), blocks_v(ia@))[i],
{
    let mut index_arr: Vec<usize> = Vec::new();
    let mut i: usize = 0;
    while i < sa.len()
        invariant
            0 <= i <= sa@.len(),
            sa@.len() > 0 ==> ia@.len() >= 1,
            blocks_bounded(blocks_v(sa@), ERR_LIMIT as int),
            blocks_bounded(blocks_v(ia@), ERR_LIMIT as int),
            index_arr@.len() == i,
            forall|j: int| 0 <= j < i
                ==> is_best_match(blocks_v(sa@)[j], blocks_v(ia@),
                    #[trigger] index_arr@[j] as int),
            forall|j: int| 0 <= j < i
                ==> (#[trigger] index_arr@[j]) as int
                    == best_idx(blocks_v(sa@)[j], blocks_v(ia@)),
        decreases sa@.len() - i,
    {
        proof {
            assert(blocks_v(sa@)[i as int] == sa@[i as int]@);
            assert(block_bounded(blocks_v(sa@)[i as int], ERR_LIMIT as int));
        }
        let idx = find_most_fit_block_index(&sa[i], ia);
        index_arr.push(idx);
        i = i + 1;
    }
    index_arr
}

} // verus!
