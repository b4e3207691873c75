//! The final filter: a block survives only with at least 60 s of total
//! duration and at least two hops admitted by the strict 15 s-grid test.
//! It runs after the merge and extension passes on purpose: both may add
//! non-standard hops and length that a block needs to qualify.

use vstd::prelude::*;

use crate::types::{push_block, BlockModel, CandidateModel, CmBlock};

verus! {

/// Number of hops admitted by the strict standard-grid test.
pub open spec fn spec_count_standard(segs: Seq<CandidateModel>) -> int
    decreases segs.len(),
{
    if segs.len() == 0 {
        0
    } else {
        spec_count_standard(segs.drop_last()) + if segs.last().is_standard {
            1int
        } else {
            0int
        }
    }
}

/// The final filter's test: at least 60 s long and at least two strict
/// standard hops.
pub open spec fn spec_block_passes_filter(b: BlockModel) -> bool {
    b.duration_ms >= 60_000 && spec_count_standard(b.segments) >= 2
}

/// The blocks surviving the final filter, in their original order.
pub open spec fn spec_filter_blocks(bs: Seq<BlockModel>) -> Seq<BlockModel>
    decreases bs.len(),
{
    if bs.len() == 0 {
        Seq::empty()
    } else {
        spec_filter_blocks(bs.drop_last()) + if spec_block_passes_filter(bs.last()) {
            seq![bs.last()]
        } else {
            Seq::empty()
        }
    }
}

/// Count the hops of a block that the strict standard-grid test admitted.
pub fn count_standard_units(block: &CmBlock) -> (r: usize)
    ensures
        r == spec_count_standard(block@.segments),
{
    let mut count: usize = 0;
    let mut j: usize = 0;
    while j < block.segments.len()
        invariant
            0 <= j <= block.segments@.len(),
            count <= j,
            count == spec_count_standard(block@.segments.take(j as int)),
        decreases block.segments@.len() - j,
    {
        let ghost prefix = block@.segments.take(j as int);
        if block.segments[j].is_standard {
            count = count + 1;
        }
        proof {
            let next = block@.segments.take(j + 1int);
            assert(next.drop_last() =~= prefix);
            assert(next.last() == block@.segments[j as int]);
        }
        j = j + 1;
    }
    proof {
        assert(block@.segments.take(block.segments@.len() as int) =~= block@.segments);
    }
    count
}

/// Keep only the blocks that meet the minimum duration and the minimum
/// strict-standard hop count.
pub fn filter_blocks_by_standard_units(blocks: Vec<CmBlock>) -> (r: Vec<CmBlock>)
    ensures
        r.deep_view() == spec_filter_blocks(blocks.deep_view()),
{
    let mut r: Vec<CmBlock> = Vec::new();
    let mut i: usize = 0;
    proof {
        assert(r.deep_view() =~= Seq::<BlockModel>::empty());
        assert(blocks.deep_view().take(0) =~= Seq::<BlockModel>::empty());
    }
    let n = blocks.len();
    while i < n
        invariant
            0 <= i <= n,
            n == blocks@.len(),
            r.deep_view() == spec_filter_blocks(blocks.deep_view().take(i as int)),
        decreases n - i,
    {
        let ghost prefix = blocks.deep_view().take(i as int);
        let block = &blocks[i];
        let standard_count = count_standard_units(block);
        let meets_duration = block.duration_ms >= 60_000;
        let meets_standard_units = standard_count >= 2;
        proof {
            assert(blocks.deep_view()[i as int] == blocks@[i as int]@);
            let next = blocks.deep_view().take(i + 1int);
            assert(next.drop_last() =~= prefix);
            assert(next.last() == blocks.deep_view()[i as int]);
        }
        if meets_duration && meets_standard_units {
            let kept = crate::types::clone_block(block);
            push_block(&mut r, kept);
            proof {
                assert(r.deep_view() =~= spec_filter_blocks(
                    blocks.deep_view().take(i + 1int),
                ));
            }
        } else {
            proof {
                assert(r.deep_view() =~= spec_filter_blocks(
                    blocks.deep_view().take(i + 1int),
                ));
            }
        }
        i = i + 1;
    }
    proof {
        assert(blocks.deep_view().take(n as int) =~= blocks.deep_view());
    }
    r
}

} // verus!
