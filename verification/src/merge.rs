//! Short-unit merging of adjacent provisional blocks. Two neighbouring
//! blocks fuse when the gap between them can be read as a run of 5 s / 10 s
//! bumpers: either the bare gap is one short unit, or — when whole silences
//! lie inside the gap — its total length is `n` short units within the
//! scaled tolerance `n * 500 ms`.

use vstd::prelude::*;

use crate::types::{
    clone_block, clone_blocks, clone_candidates, push_block, BlockModel, CandidateModel,
    CmBlock, CmCandidate, SilenceSegment, MAX_TIME_MS,
};
use crate::units::{is_short_unit_ms, spec_is_short_unit_ms};

verus! {

/// Some whole silence lies inside the gap `[gs, ge]`.
pub open spec fn spec_gap_has_silence(ss: Seq<SilenceSegment>, gs: int, ge: int) -> bool {
    exists|j: int|
        0 <= j < ss.len() && (#[trigger] ss[j]).start_ms >= gs && ss[j].end_ms <= ge
}

/// `gap` lies within `n * 500 ms` of `n` units of length `unit`.
pub open spec fn within_scaled_tolerance(gap: int, n: int, unit: int) -> bool {
    n * unit - 500 * n <= gap <= n * unit + 500 * n
}

/// `gap` matches some run of `n` short units, for `n` between `lo` and 6.
pub open spec fn combo_from(gap: int, lo: int) -> bool
    decreases 7 - lo,
{
    if lo > 6 {
        false
    } else {
        within_scaled_tolerance(gap, lo, 5_000) || within_scaled_tolerance(gap, lo, 10_000)
            || combo_from(gap, lo + 1)
    }
}

/// `gap` is expressible as 1 to 6 short units within scaled tolerance.
pub open spec fn spec_short_combo(gap: int) -> bool {
    combo_from(gap, 1)
}

/// The merge test on the gap `[gs, ge]` between two blocks: a bare gap must
/// itself be one short unit; a gap holding whole silences may be any short
/// combination.
pub open spec fn spec_check_short_units_in_gap(
    ss: Seq<SilenceSegment>,
    gs: int,
    ge: int,
) -> bool {
    if !spec_gap_has_silence(ss, gs, ge) {
        spec_is_short_unit_ms(ge - gs)
    } else {
        spec_short_combo(ge - gs)
    }
}

/// Decide whether the gap `[gap_start, gap_end]` between two blocks can be
/// bridged by short units, so that the blocks merge.
pub fn check_short_units_in_gap(
    silence_segments: &Vec<SilenceSegment>,
    gap_start: i64,
    gap_end: i64,
) -> (r: bool)
    requires
        -MAX_TIME_MS <= gap_start <= MAX_TIME_MS,
        -MAX_TIME_MS <= gap_end <= MAX_TIME_MS,
    ensures
        r == spec_check_short_units_in_gap(
            silence_segments@,
            gap_start as int,
            gap_end as int,
        ),
{
    // Is any whole silence inside the gap?
    let mut has_inside = false;
    let mut j: usize = 0;
    while j < silence_segments.len()
        invariant
            0 <= j <= silence_segments@.len(),
            has_inside ==> spec_gap_has_silence(
                silence_segments@,
                gap_start as int,
                gap_end as int,
            ),
            !has_inside ==> forall|k: int|
                0 <= k < j ==> !((#[trigger] silence_segments@[k]).start_ms >= gap_start
                    && silence_segments@[k].end_ms <= gap_end),
        decreases silence_segments@.len() - j,
    {
        let s = &silence_segments[j];
        if s.start_ms >= gap_start && s.end_ms <= gap_end {
            proof {
                assert(silence_segments@[j as int].start_ms >= gap_start
                    && silence_segments@[j as int].end_ms <= gap_end);
            }
            has_inside = true;
        }
        j = j + 1;
    }

    let total_gap_ms: i64 = gap_end - gap_start;

    if !has_inside {
        // No silence inside: the whole gap must be a single short unit.
        return is_short_unit_ms(total_gap_ms);
    }

    // Silences inside: test the gap length against n short units with the
    // scaled tolerance n * 500 ms, for n = 1 ..= 6.
    let mut n: i64 = 1;
    while n <= 6
        invariant
            1 <= n <= 7,
            total_gap_ms == gap_end - gap_start,
            spec_gap_has_silence(silence_segments@, gap_start as int, gap_end as int),
            spec_short_combo(total_gap_ms as int) == combo_from(total_gap_ms as int, n as int),
        decreases 7 - n,
    {
        let expected5: i64 = n * 5_000;
        if total_gap_ms >= expected5 - 500 * n && total_gap_ms <= expected5 + 500 * n {
            proof {
                assert(within_scaled_tolerance(total_gap_ms as int, n as int, 5_000));
                assert(combo_from(total_gap_ms as int, n as int));
            }
            return true;
        }
        let expected10: i64 = n * 10_000;
        if total_gap_ms >= expected10 - 500 * n && total_gap_ms <= expected10 + 500 * n {
            proof {
                assert(within_scaled_tolerance(total_gap_ms as int, n as int, 10_000));
                assert(combo_from(total_gap_ms as int, n as int));
            }
            return true;
        }
        n = n + 1;
    }
    false
}

/// The synthesized hop spanning the gap between two fused blocks.
pub open spec fn gap_hop(cur: BlockModel, nxt: BlockModel) -> CandidateModel {
    CandidateModel {
        start_ms: cur.end_ms,
        end_ms: nxt.start_ms,
        duration_ms: nxt.start_ms - cur.end_ms,
        is_standard: false,
    }
}

/// Fuse two blocks across their gap: the result spans from the first
/// block's start to the second one's end, with one non-standard hop
/// bridging the gap.
pub open spec fn fuse_blocks(cur: BlockModel, nxt: BlockModel) -> BlockModel {
    BlockModel {
        start_ms: cur.start_ms,
        end_ms: nxt.end_ms,
        duration_ms: nxt.end_ms - cur.start_ms,
        segments: cur.segments + seq![gap_hop(cur, nxt)] + nxt.segments,
    }
}

/// The merge walk from block `i` on, with `done` committed, `cur` open.
pub open spec fn merge_run(
    ss: Seq<SilenceSegment>,
    bs: Seq<BlockModel>,
    i: int,
    done: Seq<BlockModel>,
    cur: BlockModel,
) -> Seq<BlockModel>
    decreases bs.len() - i,
{
    if i >= bs.len() {
        done.push(cur)
    } else if spec_check_short_units_in_gap(ss, cur.end_ms, bs[i].start_ms) {
        merge_run(ss, bs, i + 1, done, fuse_blocks(cur, bs[i]))
    } else {
        merge_run(ss, bs, i + 1, done.push(cur), bs[i])
    }
}

/// The merged block list: walk left to right, greedily absorbing each next
/// block whose gap to the current one passes the short-unit test.
pub open spec fn spec_merge_blocks(
    ss: Seq<SilenceSegment>,
    bs: Seq<BlockModel>,
) -> Seq<BlockModel> {
    if bs.len() < 2 {
        bs
    } else {
        merge_run(ss, bs, 1, Seq::empty(), bs[0])
    }
}

/// Every block's boundary points are sane, bounded timestamps.
pub open spec fn blocks_bounded(bs: Seq<BlockModel>) -> bool {
    forall|i: int|
        0 <= i < bs.len() ==> 0 <= (#[trigger] bs[i]).start_ms <= MAX_TIME_MS && 0 <= bs[i].end_ms
            <= MAX_TIME_MS
}

/// Walk the provisional blocks in order and fuse each pair of neighbours
/// whose gap passes the short-unit test, bridging it with one synthesized
/// non-standard hop.
pub fn merge_blocks_with_short_units(
    blocks: &Vec<CmBlock>,
    silence_segments: &Vec<SilenceSegment>,
) -> (r: Vec<CmBlock>)
    requires
        blocks_bounded(blocks.deep_view()),
    ensures
        r.deep_view() == spec_merge_blocks(silence_segments@, blocks.deep_view()),
{
    if blocks.len() < 2 {
        return clone_blocks(blocks);
    }

    let mut merged: Vec<CmBlock> = Vec::new();
    let mut current_block = clone_block(&blocks[0]);
    proof {
        assert(current_block@ == blocks.deep_view()[0]);
        assert(merged.deep_view() =~= Seq::<BlockModel>::empty());
    }
    let mut i: usize = 1;
    while i < blocks.len()
        invariant
            1 <= i <= blocks@.len(),
            2 <= blocks@.len(),
            blocks_bounded(blocks.deep_view()),
            0 <= current_block@.start_ms <= MAX_TIME_MS,
            0 <= current_block@.end_ms <= MAX_TIME_MS,
            merge_run(
                silence_segments@,
                blocks.deep_view(),
                i as int,
                merged.deep_view(),
                current_block@,
            ) == spec_merge_blocks(silence_segments@, blocks.deep_view()),
        decreases blocks@.len() - i,
    {
        let ghost cur_m = current_block@;
        let ghost nxt_m = blocks.deep_view()[i as int];
        let next_block = &blocks[i];

        let gap_start: i64 = current_block.end_ms;
        let gap_end: i64 = next_block.start_ms;

        let can_merge = check_short_units_in_gap(silence_segments, gap_start, gap_end);

        if can_merge {
            // Fuse: current's hops, one synthesized gap hop, next's hops.
            let mut merged_segments = clone_candidates(&current_block.segments);
            let gap_duration_ms: i64 = gap_end - gap_start;
            merged_segments.push(
                CmCandidate {
                    start_ms: gap_start,
                    end_ms: gap_end,
                    duration_ms: gap_duration_ms,
                    is_standard: false,
                },
            );
            let mut next_segments = clone_candidates(&next_block.segments);
            merged_segments.append(&mut next_segments);

            let total_duration_ms: i64 = next_block.end_ms - current_block.start_ms;
            current_block = CmBlock {
                start_ms: current_block.start_ms,
                end_ms: next_block.end_ms,
                duration_ms: total_duration_ms,
                segments: merged_segments,
            };
            proof {
                let target = cur_m.segments + seq![gap_hop(cur_m, nxt_m)] + nxt_m.segments;
                assert forall|k: int|
                    0 <= k < current_block.segments.deep_view().len() implies current_block
                    .segments.deep_view()[k] == target[k] by {
                    if k < cur_m.segments.len() {
                        assert(current_block.segments@[k]@ == cur_m.segments[k]);
                    } else if k == cur_m.segments.len() {
                        assert(current_block.segments@[k]@ == gap_hop(cur_m, nxt_m));
                    } else {
                        assert(current_block.segments@[k]@ == nxt_m.segments[k - cur_m.segments.len()
                            - 1]);
                    }
                }
                assert(current_block.segments.deep_view() =~= target);
                assert(current_block@ =~= fuse_blocks(cur_m, nxt_m));
            }
        } else {
            // Keep them apart: commit the current block and move on.
            push_block(&mut merged, current_block);
            current_block = clone_block(next_block);
            proof {
                assert(current_block@ == blocks.deep_view()[i as int]);
            }
        }
        i = i + 1;
    }

    push_block(&mut merged, current_block);
    merged
}

} // verus!
