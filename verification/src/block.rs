use vstd::prelude::*;
use crate::color::{ChanV, RGBColor, cadd, csub, chan_bounded, chan_fits};

verus! {

/// The atomic unit of matching and replacement: the four channel triples of
/// a 2x2 neighborhood, in fixed corner order — top-left, top-right,
/// bottom-left, bottom-right.  Blocks are never addressed at
/// individual-coefficient granularity by the embedding protocol.
#[derive(Clone, Copy, PartialEq, Eq, Structural, Debug)]
pub struct Block {
    pub p0: RGBColor,
    pub p1: RGBColor,
    pub p2: RGBColor,
    pub p3: RGBColor,
}

/// The mathematical value of a block: its four corners.
pub type BlockV = (ChanV, ChanV, ChanV, ChanV);

impl View for Block {
    type V = BlockV;

    open spec fn view(&self) -> BlockV {
        (self.p0@, self.p1@, self.p2@, self.p3@)
    }
}

/// The corner of a block at position `k`, with corners numbered
/// `2*dy + dx` for row offset `dy` and column offset `dx`.
pub open spec fn corner(b: BlockV, k: int) -> ChanV {
    if k == 0 {
        b.0
    } else if k == 1 {
        b.1
    } else if k == 2 {
        b.2
    } else {
        b.3
    }
}

pub open spec fn zero_chan() -> ChanV {
    (0, 0, 0)
}

pub open spec fn zero_block_v() -> BlockV {
    (zero_chan(), zero_chan(), zero_chan(), zero_chan())
}

/// A block whose twelve channel values are all zero.
pub fn zero_block() -> (b: Block)
    ensures
        b@ == zero_block_v(),
{
    let z = RGBColor::new(0, 0, 0);
    Block { p0: z, p1: z, p2: z, p3: z }
}

/// Corner-wise sum of two blocks.
pub open spec fn badd_v(a: BlockV, b: BlockV) -> BlockV {
    (cadd(a.0, b.0), cadd(a.1, b.1), cadd(a.2, b.2), cadd(a.3, b.3))
}

/// Corner-wise difference of two blocks.
pub open spec fn bsub_v(a: BlockV, b: BlockV) -> BlockV {
    (csub(a.0, b.0), csub(a.1, b.1), csub(a.2, b.2), csub(a.3, b.3))
}

/// Every channel of every corner is representable as an `i32`.
pub open spec fn block_v_fits(b: BlockV) -> bool {
    chan_fits(b.0) && chan_fits(b.1) && chan_fits(b.2) && chan_fits(b.3)
}

/// Every channel of every corner lies within `-bound ..= bound`.
pub open spec fn block_bounded(b: BlockV, bound: int) -> bool {
    &&& chan_bounded(b.0, bound)
    &&& chan_bounded(b.1, bound)
    &&& chan_bounded(b.2, bound)
    &&& chan_bounded(b.3, bound)
}

/// Every block of the sequence is bounded by `bound`.
pub open spec fn blocks_bounded(bs: Seq<BlockV>, bound: int) -> bool {
    forall|k: int| 0 <= k < bs.len() ==> block_bounded(#[trigger] bs[k], bound)
}

/// The mathematical values of a sequence of blocks.
pub open spec fn blocks_v(s: Seq<Block>) -> Seq<BlockV> {
    s.map_values(|b: Block| b@)
}

/// A bound on a block sequence also holds for any larger bound.
pub proof fn lemma_blocks_bounded_widen(bs: Seq<BlockV>, b1: int, b2: int)
    requires
        blocks_bounded(bs, b1),
        b1 <= b2,
    ensures
        blocks_bounded(bs, b2),
{
    assert forall|k: int| 0 <= k < bs.len() implies block_bounded(#[trigger] bs[k], b2) by {
        assert(block_bounded(bs[k], b1));
    }
}

/// Corner-wise sum of two blocks.
pub fn block_add(b1: &Block, b2: &Block) -> (r: Block)
    requires
        block_v_fits(badd_v(b1@, b2@)),
    ensures
        r@ == badd_v(b1@, b2@),
{
    Block {
        p0: b1.p0.add(&b2.p0),
        p1: b1.p1.add(&b2.p1),
        p2: b1.p2.add(&b2.p2),
        p3: b1.p3.add(&b2.p3),
    }
}

/// Corner-wise difference of two blocks.
pub fn block_sub(b1: &Block, b2: &Block) -> (r: Block)
    requires
        block_v_fits(bsub_v(b1@, b2@)),
    ensures
        r@ == bsub_v(b1@, b2@),
{
    Block {
        p0: b1.p0.sub(&b2.p0),
        p1: b1.p1.sub(&b2.p1),
        p2: b1.p2.sub(&b2.p2),
        p3: b1.p3.sub(&b2.p3),
    }
}

} // verus!
