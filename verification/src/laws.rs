//! Laws of the detection pipeline, stated over the ghost models and proved
//! once and for all. The structural block invariants — segments meeting the
//! block edges, weak time monotonicity, duration consistency — are carried
//! from the chainer through merging, extension and the final filter.

use vstd::prelude::*;

use crate::chain::{
    chainer_init, chainer_run, chainer_step, spec_close_chain, spec_detect_blocks, ChainHop,
    ChainerState,
};
use crate::extend::{
    find_center_idx, find_center_idx_from, lead_extension, spec_extend_all, spec_extend_one,
    trail_extension,
};
use crate::filter::{spec_block_passes_filter, spec_filter_blocks};
use crate::merge::{
    combo_from, fuse_blocks, merge_run, spec_check_short_units_in_gap, spec_merge_blocks,
    within_scaled_tolerance,
};
use crate::types::{seg_center, silences_sorted, silences_wf, BlockModel, SilenceSegment,
    MAX_TIME_MS};

verus! {

/// The block's hop list is non-empty and meets the block edges exactly:
/// the first hop starts at `start_ms`, the last ends at `end_ms`.
pub open spec fn block_edges_match(b: BlockModel) -> bool {
    &&& b.segments.len() > 0
    &&& b.segments[0].start_ms == b.start_ms
    &&& b.segments.last().end_ms == b.end_ms
}

/// Hops run weakly forward in time: no hop ends before it starts, and no
/// hop starts before the one before it ended.
pub open spec fn block_time_monotonic(b: BlockModel) -> bool {
    &&& (forall|j: int|
        0 <= j < b.segments.len() ==> (#[trigger] b.segments[j]).start_ms
            <= b.segments[j].end_ms)
    &&& (forall|j: int|
        0 < j < b.segments.len() ==> (#[trigger] b.segments[j]).start_ms >= b.segments[j
            - 1].end_ms)
}

/// The reported duration is exactly the block's time span.
pub open spec fn block_duration_consistent(b: BlockModel) -> bool {
    b.duration_ms == b.end_ms - b.start_ms
}

/// The block occupies a non-empty, bounded span of the time axis.
pub open spec fn block_bounded_in_time(b: BlockModel) -> bool {
    0 <= b.start_ms < b.end_ms <= MAX_TIME_MS
}

/// The structural invariant every block of the pipeline keeps.
pub open spec fn block_shape(b: BlockModel) -> bool {
    &&& block_edges_match(b)
    &&& block_time_monotonic(b)
    &&& block_duration_consistent(b)
    &&& block_bounded_in_time(b)
}

/// All blocks of a list keep the structural invariant.
pub open spec fn blocks_shaped(bs: Seq<BlockModel>) -> bool {
    forall|i: int| 0 <= i < bs.len() ==> block_shape(#[trigger] bs[i])
}

/// No block of the list runs past the 360 s sanity bound.
pub open spec fn blocks_within_360s(bs: Seq<BlockModel>) -> bool {
    forall|i: int| 0 <= i < bs.len() ==> (#[trigger] bs[i]).duration_ms <= 360_000
}

/// Consecutive blocks do not overlap: each ends no later than the next
/// starts. With `block_bounded_in_time` this also sorts them by `start_ms`.
pub open spec fn blocks_disjoint_ordered(bs: Seq<BlockModel>) -> bool {
    forall|i: int| 0 <= i < bs.len() - 1 ==> (#[trigger] bs[i]).end_ms <= bs[i + 1].start_ms
}

/// An earlier silence ends no later than a later one starts.
pub proof fn lemma_silence_order(ss: Seq<SilenceSegment>, a: int, b: int)
    requires
        silences_wf(ss),
        silences_sorted(ss),
        0 <= a < b < ss.len(),
    ensures
        ss[a].end_ms <= ss[b].start_ms,
    decreases b - a,
{
    if a + 1 < b {
        lemma_silence_order(ss, a, b - 1);
        assert(ss[b - 1].end_ms <= ss[b].start_ms);
    }
}

/// Centers of silences come in input order.
pub proof fn lemma_center_order(ss: Seq<SilenceSegment>, a: int, b: int)
    requires
        silences_wf(ss),
        silences_sorted(ss),
        0 <= a <= b < ss.len(),
    ensures
        seg_center(ss[a]) <= seg_center(ss[b]),
{
    if a < b {
        lemma_silence_order(ss, a, b);
    }
}

/// A well-formed silence's center lies inside it, hence in bounds.
pub proof fn lemma_center_in_segment(ss: Seq<SilenceSegment>, a: int)
    requires
        silences_wf(ss),
        0 <= a < ss.len(),
    ensures
        ss[a].start_ms <= seg_center(ss[a]) <= ss[a].end_ms,
        0 <= seg_center(ss[a]) <= MAX_TIME_MS,
{
    let s = ss[a];
    assert(s.start_ms <= (s.start_ms + s.end_ms) / 2 <= s.end_ms) by {
        assert(s.start_ms + s.start_ms <= s.start_ms + s.end_ms <= s.end_ms + s.end_ms);
    }
}

/// Shape of the executable chain list inside the chainer at step `i`: hops
/// join consecutive silences, follow one another, and end at silence
/// `i - 1`.
pub open spec fn chain_wf(chain: Seq<ChainHop>, i: int) -> bool {
    &&& (forall|j: int|
        0 <= j < chain.len() ==> 0 <= (#[trigger] chain[j]).from && chain[j].to == chain[j].from
            + 1 && chain[j].to < i)
    &&& (forall|j: int| 0 < j < chain.len() ==> (#[trigger] chain[j]).from == chain[j - 1].to)
    &&& (chain.len() > 0 ==> chain.last().to == i - 1)
}

/// Closing a well-formed chain yields a block with the full structural
/// invariant, within the 360 s bound, anchored at the centers of the
/// chain's outermost silences.
pub proof fn lemma_close_chain_shape(ss: Seq<SilenceSegment>, chain: Seq<ChainHop>, i: int)
    requires
        silences_wf(ss),
        silences_sorted(ss),
        chain_wf(chain, i),
        1 <= i <= ss.len(),
    ensures
        (match spec_close_chain(ss, chain) {
            Some(b) => {
                &&& block_shape(b)
                &&& b.duration_ms <= 360_000
                &&& chain.len() > 0
                &&& b.start_ms == seg_center(ss[chain[0].from])
                &&& b.end_ms == seg_center(ss[chain.last().to])
                &&& b.segments.len() == chain.len()
            },
            None => true,
        }),
{
    if chain.len() > 0 {
        let a = chain[0].from;
        let k = chain.last().to;
        let n = chain.len() as int;
        assert(0 <= a && a < k && k < i) by {
            assert(chain[0].to == a + 1);
            if n > 1 {
                assert(forall|j: int|
                    0 <= j < n ==> a + j <= (#[trigger] chain[j]).from) by {
                    assert forall|j: int| 0 <= j < n implies a + j <= (#[trigger] chain[j]).from by {
                        lemma_chain_from_grows(chain, i, j);
                    }
                }
                assert(a + (n - 1) <= chain[n - 1].from);
            }
        }
        let start = seg_center(ss[a]);
        let end = seg_center(ss[k]);
        let dur = end - start;
        lemma_center_in_segment(ss, a);
        lemma_center_in_segment(ss, k);
        if 0 < dur && dur <= 360_000 {
            let b = spec_close_chain(ss, chain).unwrap();
            let segs = b.segments;
            assert(segs.len() == n);
            assert(segs[0].start_ms == start);
            assert(segs[n - 1].end_ms == end);
            assert forall|j: int| 0 <= j < n implies (#[trigger] segs[j]).start_ms
                <= segs[j].end_ms by {
                let f = chain[j].from;
                let t = chain[j].to;
                lemma_center_in_segment(ss, a);
                lemma_center_in_segment(ss, k);
                if j == 0 && j == n - 1 {
                    lemma_center_order(ss, a, k);
                } else if j == 0 {
                    // starts at center(ss[a]), ends at ss[a + 1].start_ms
                    lemma_silence_order(ss, a, t);
                } else if j == n - 1 {
                    // starts at ss[k - 1].end_ms, ends at center(ss[k])
                    lemma_silence_order(ss, f, k);
                } else {
                    lemma_silence_order(ss, f, t);
                }
            }
            assert forall|j: int| 0 < j < n implies (#[trigger] segs[j]).start_ms >= segs[j
                - 1].end_ms by {
                // segs[j] starts where silence chain[j].from ends; the hop
                // before ended where that same silence starts.
                assert(chain[j].from == chain[j - 1].to);
            }
            assert(block_shape(b));
        }
    }
}

/// Hop start indices grow along a well-formed chain.
proof fn lemma_chain_from_grows(chain: Seq<ChainHop>, i: int, j: int)
    requires
        chain_wf(chain, i),
        0 <= j < chain.len(),
    ensures
        chain[0].from + j <= chain[j].from,
    decreases j,
{
    if j > 0 {
        lemma_chain_from_grows(chain, i, j - 1);
        assert(chain[j].from == chain[j - 1].to);
    }
}

/// The index the next closed block will start from: the open chain's first
/// silence, or the silence the state was reseeded with.
pub open spec fn chain_anchor(i: int, st: ChainerState) -> int {
    if st.chain.len() > 0 {
        st.chain[0].from
    } else {
        i - 1
    }
}

/// Everything the structural induction carries through the chainer: a
/// well-formed open chain, a feasible range inside silence `i - 1`, and
/// emitted blocks that are shaped, within 360 s, disjoint, ordered, and
/// all ending before the anchor of the next block.
pub open spec fn chainer_inv(ss: Seq<SilenceSegment>, i: int, st: ChainerState) -> bool {
    &&& chain_wf(st.chain, i)
    &&& st.prev.start <= st.prev.end
    &&& ss[i - 1].start_ms <= st.prev.start
    &&& st.prev.end <= ss[i - 1].end_ms
    &&& blocks_shaped(st.blocks)
    &&& blocks_within_360s(st.blocks)
    &&& blocks_disjoint_ordered(st.blocks)
    &&& (st.blocks.len() > 0 ==> st.blocks.last().end_ms <= seg_center(
        ss[chain_anchor(i, st)],
    ))
}

/// One chainer step preserves the structural invariant.
proof fn lemma_chainer_step_inv(ss: Seq<SilenceSegment>, i: int, st: ChainerState)
    requires
        silences_wf(ss),
        silences_sorted(ss),
        1 <= i < ss.len(),
        chainer_inv(ss, i, st),
    ensures
        chainer_inv(ss, i + 1, chainer_step(ss, i, st)),
{
    let st2 = chainer_step(ss, i, st);
    let anchor = chain_anchor(i, st);
    assert(0 <= anchor < i);
    lemma_close_chain_shape(ss, st.chain, i);
    lemma_center_order(ss, anchor, i);
    if st2.chain.len() == st.chain.len() + 1 {
        // A hop was accepted: the chain grew by (i - 1, i) and the
        // feasible range became an intersection inside silence i.
        assert(st2.chain.last() == st2.chain[st2.chain.len() - 1]);
        assert(chain_wf(st2.chain, i + 1));
        assert(chain_anchor(i + 1, st2) == anchor);
    } else {
        // The chain closed (or stayed empty) and silence i reseeded it.
        assert(st2.chain =~= Seq::<ChainHop>::empty());
        match spec_close_chain(ss, st.chain) {
            Some(b) => {
                assert(st2.blocks == st.blocks.push(b));
                assert(b.start_ms == seg_center(ss[anchor]));
                assert(b.end_ms == seg_center(ss[st.chain.last().to]));
                lemma_center_order(ss, st.chain.last().to, i);
                assert forall|j: int| 0 <= j < st2.blocks.len() - 1 implies (#[trigger] st2
                    .blocks[j]).end_ms <= st2.blocks[j + 1].start_ms by {
                    if j < st.blocks.len() - 1 {
                        assert(st.blocks[j].end_ms <= st.blocks[j + 1].start_ms);
                    }
                }
            },
            None => {
                assert(st2.blocks == st.blocks);
            },
        }
    }
}

/// Running the chainer to the end preserves the invariant.
proof fn lemma_chainer_run_inv(ss: Seq<SilenceSegment>, i: int, st: ChainerState)
    requires
        silences_wf(ss),
        silences_sorted(ss),
        1 <= i <= ss.len(),
        chainer_inv(ss, i, st),
    ensures
        chainer_inv(ss, ss.len() as int, chainer_run(ss, i, st)),
    decreases ss.len() - i,
{
    if i < ss.len() {
        lemma_chainer_step_inv(ss, i, st);
        lemma_chainer_run_inv(ss, i + 1, chainer_step(ss, i, st));
    }
}

/// Stage C invariants: every provisional block of the chainer is shaped,
/// stays within the 360 s sanity bound, and the block list is disjoint and
/// ordered in time.
pub proof fn lemma_detect_blocks_shape(ss: Seq<SilenceSegment>)
    requires
        silences_wf(ss),
        silences_sorted(ss),
    ensures
        blocks_shaped(spec_detect_blocks(ss)),
        blocks_within_360s(spec_detect_blocks(ss)),
        blocks_disjoint_ordered(spec_detect_blocks(ss)),
{
    if ss.len() >= 2 {
        let init = chainer_init(ss);
        assert(chainer_inv(ss, 1, init));
        lemma_chainer_run_inv(ss, 1, init);
        let fin = chainer_run(ss, 1, init);
        let n = ss.len() as int;
        lemma_close_chain_shape(ss, fin.chain, n);
        match spec_close_chain(ss, fin.chain) {
            Some(b) => {
                assert(spec_detect_blocks(ss) == fin.blocks.push(b));
                assert forall|j: int| 0 <= j < fin.blocks.len() + 1 - 1 implies (
                #[trigger] fin.blocks.push(b)[j]).end_ms <= fin.blocks.push(b)[j
                    + 1].start_ms by {
                    if j < fin.blocks.len() - 1 {
                        assert(fin.blocks[j].end_ms <= fin.blocks[j + 1].start_ms);
                    } else {
                        assert(b.start_ms == seg_center(ss[chain_anchor(n, fin)]));
                    }
                }
            },
            None => {
                assert(spec_detect_blocks(ss) == fin.blocks);
            },
        }
    } else {
        assert(spec_detect_blocks(ss).len() == 0);
    }
}

/// A gap that matches `n` short units is at least `n * 4.5 s` long.
proof fn lemma_combo_lower_bound(gap: int, lo: int)
    requires
        1 <= lo <= 6,
        combo_from(gap, lo),
    ensures
        gap >= lo * 4_500,
    decreases 7 - lo,
{
    if within_scaled_tolerance(gap, lo, 5_000) || within_scaled_tolerance(gap, lo, 10_000) {
    } else if lo == 6 {
        assert(!combo_from(gap, 7));
    } else {
        lemma_combo_lower_bound(gap, lo + 1);
    }
}

/// A gap that passes the merge test is a real, positive gap: at least
/// 4.5 s wide.
pub proof fn lemma_merge_gap_positive(ss: Seq<SilenceSegment>, gs: int, ge: int)
    requires
        spec_check_short_units_in_gap(ss, gs, ge),
    ensures
        ge - gs >= 4_500,
{
    if spec_check_short_units_in_gap(ss, gs, ge) && !crate::merge::spec_gap_has_silence(
        ss,
        gs,
        ge,
    ) {
    } else {
        lemma_combo_lower_bound(ge - gs, 1);
    }
}

/// Fusing two shaped, separated blocks yields a shaped block.
proof fn lemma_fuse_blocks_shape(ss: Seq<SilenceSegment>, cur: BlockModel, nxt: BlockModel)
    requires
        block_shape(cur),
        block_shape(nxt),
        spec_check_short_units_in_gap(ss, cur.end_ms, nxt.start_ms),
    ensures
        block_shape(fuse_blocks(cur, nxt)),
        fuse_blocks(cur, nxt).start_ms == cur.start_ms,
        fuse_blocks(cur, nxt).end_ms == nxt.end_ms,
{
    lemma_merge_gap_positive(ss, cur.end_ms, nxt.start_ms);
    let f = fuse_blocks(cur, nxt);
    let segs = f.segments;
    let cl = cur.segments.len() as int;
    assert(segs[0] == cur.segments[0]);
    assert(segs.last() == nxt.segments.last());
    assert forall|j: int| 0 <= j < segs.len() implies (#[trigger] segs[j]).start_ms
        <= segs[j].end_ms by {
        if j < cl {
            assert(segs[j] == cur.segments[j]);
        } else if j == cl {
            assert(segs[j].start_ms == cur.end_ms && segs[j].end_ms == nxt.start_ms);
        } else {
            assert(segs[j] == nxt.segments[j - cl - 1]);
        }
    }
    assert forall|j: int| 0 < j < segs.len() implies (#[trigger] segs[j]).start_ms >= segs[j
        - 1].end_ms by {
        if j < cl {
            assert(segs[j] == cur.segments[j] && segs[j - 1] == cur.segments[j - 1]);
        } else if j == cl {
            assert(segs[j - 1] == cur.segments[cl - 1]);
            assert(cur.segments.last().end_ms == cur.end_ms);
        } else if j == cl + 1 {
            assert(segs[j] == nxt.segments[0]);
            assert(nxt.segments[0].start_ms == nxt.start_ms);
        } else {
            assert(segs[j] == nxt.segments[j - cl - 1] && segs[j - 1] == nxt.segments[j - cl
                - 2]);
        }
    }
}

/// The merge walk keeps every block shaped, disjoint and ordered.
#[verifier::rlimit(60)]
proof fn lemma_merge_run_shape(
    ss: Seq<SilenceSegment>,
    bs: Seq<BlockModel>,
    i: int,
    done: Seq<BlockModel>,
    cur: BlockModel,
)
    requires
        blocks_shaped(bs),
        blocks_disjoint_ordered(bs),
        1 <= i <= bs.len(),
        blocks_shaped(done),
        blocks_disjoint_ordered(done),
        block_shape(cur),
        cur.end_ms == bs[i - 1].end_ms,
        done.len() > 0 ==> done.last().end_ms <= cur.start_ms,
    ensures
        blocks_shaped(merge_run(ss, bs, i, done, cur)),
        blocks_disjoint_ordered(merge_run(ss, bs, i, done, cur)),
    decreases bs.len() - i,
{
    if i >= bs.len() {
        let out = done.push(cur);
        assert forall|j: int| 0 <= j < out.len() - 1 implies (#[trigger] out[j]).end_ms <= out[j
            + 1].start_ms by {
            if j < done.len() - 1 {
                assert(out[j] == done[j] && out[j + 1] == done[j + 1]);
            } else {
                assert(out[j] == done.last() && out[j + 1] == cur);
            }
        }
    } else {
        let nxt = bs[i];
        if spec_check_short_units_in_gap(ss, cur.end_ms, nxt.start_ms) {
            lemma_fuse_blocks_shape(ss, cur, nxt);
            lemma_merge_run_shape(ss, bs, i + 1, done, fuse_blocks(cur, nxt));
        } else {
            let done2 = done.push(cur);
            assert forall|j: int| 0 <= j < done2.len() - 1 implies (#[trigger] done2[j]).end_ms
                <= done2[j + 1].start_ms by {
                if j < done.len() - 1 {
                    assert(done2[j] == done[j] && done2[j + 1] == done[j + 1]);
                } else {
                    assert(done2[j] == done.last() && done2[j + 1] == cur);
                }
            }
            assert(cur.end_ms <= nxt.start_ms);
            lemma_merge_run_shape(ss, bs, i + 1, done2, nxt);
        }
    }
}

/// Stage D invariants: merging keeps every block shaped and the list
/// disjoint and ordered.
pub proof fn lemma_merge_blocks_shape(ss: Seq<SilenceSegment>, bs: Seq<BlockModel>)
    requires
        blocks_shaped(bs),
        blocks_disjoint_ordered(bs),
    ensures
        blocks_shaped(spec_merge_blocks(ss, bs)),
        blocks_disjoint_ordered(spec_merge_blocks(ss, bs)),
{
    if bs.len() >= 2 {
        lemma_merge_run_shape(ss, bs, 1, Seq::empty(), bs[0]);
    }
}

/// Stage F, part one: the filter keeps only blocks that pass its test and
/// invents none — every survivor is one of the input blocks.
pub proof fn lemma_filter_blocks_elements(bs: Seq<BlockModel>)
    ensures
        forall|m: int|
            0 <= m < spec_filter_blocks(bs).len() ==> spec_block_passes_filter(
                #[trigger] spec_filter_blocks(bs)[m],
            ),
        forall|m: int|
            0 <= m < spec_filter_blocks(bs).len() ==> exists|k: int|
                0 <= k < bs.len() && #[trigger] spec_filter_blocks(bs)[m] == bs[k],
    decreases bs.len(),
{
    let out = spec_filter_blocks(bs);
    if bs.len() > 0 {
        let head = bs.drop_last();
        let sub = spec_filter_blocks(head);
        lemma_filter_blocks_elements(head);
        assert forall|m: int|
            0 <= m < out.len() implies spec_block_passes_filter(#[trigger] out[m]) by {
            if m < sub.len() {
                assert(out[m] == sub[m]);
            } else {
                assert(out[m] == bs.last());
            }
        }
        assert forall|m: int| 0 <= m < out.len() implies exists|k: int|
            0 <= k < bs.len() && #[trigger] out[m] == bs[k] by {
            if m < sub.len() {
                assert(out[m] == sub[m]);
                let k0 = choose|k0: int| 0 <= k0 < head.len() && sub[m] == head[k0];
                assert(out[m] == bs[k0]);
            } else {
                assert(out[m] == bs[bs.len() - 1]);
            }
        }
    }
}

/// Stage F, part two: on a shaped, disjoint, ordered list the filter
/// keeps the survivors shaped, disjoint and ordered.
#[verifier::rlimit(60)]
pub proof fn lemma_filter_blocks_ordered(bs: Seq<BlockModel>)
    requires
        blocks_shaped(bs),
        blocks_disjoint_ordered(bs),
    ensures
        blocks_shaped(spec_filter_blocks(bs)),
        blocks_disjoint_ordered(spec_filter_blocks(bs)),
        spec_filter_blocks(bs).len() > 0 ==> bs.len() > 0 && spec_filter_blocks(
            bs,
        ).last().end_ms <= bs.last().end_ms,
    decreases bs.len(),
{
    let out = spec_filter_blocks(bs);
    if bs.len() > 0 {
        let head = bs.drop_last();
        let sub = spec_filter_blocks(head);
        lemma_filter_blocks_ordered(head);
        assert forall|j: int| 0 <= j < out.len() - 1 implies (#[trigger] out[j]).end_ms <= out[j
            + 1].start_ms by {
            if j + 1 < sub.len() {
                assert(out[j] == sub[j] && out[j + 1] == sub[j + 1]);
            } else {
                // The junction between the filtered head and a kept last
                // block: the head's survivors all end before it starts.
                assert(out[j] == sub[j] && out[j + 1] == bs.last());
                assert(sub[j] == sub.last());
                assert(head.last() == bs[bs.len() - 2]);
            }
        }
        assert forall|m: int| 0 <= m < out.len() implies block_shape(#[trigger] out[m]) by {
            if m < sub.len() {
                assert(out[m] == sub[m]);
            } else {
                assert(out[m] == bs.last());
            }
        }
        if out.len() > 0 {
            if spec_block_passes_filter(bs.last()) {
                assert(out.last() == bs.last());
            } else {
                assert(out =~= sub);
                assert(head.last() == bs[bs.len() - 2]);
                if bs.len() >= 2 {
                    assert(bs[bs.len() - 2].end_ms <= bs.last().start_ms);
                    assert(bs.last().start_ms < bs.last().end_ms);
                }
            }
        }
    }
}

/// A found center index is a real index whose silence centers on `c`.
proof fn lemma_find_center_from_props(ss: Seq<SilenceSegment>, c: int, from: int)
    requires
        0 <= from,
    ensures
        (match find_center_idx_from(ss, c, from) {
            Some(i) => from <= i < ss.len() && seg_center(ss[i]) == c,
            None => true,
        }),
    decreases ss.len() - from,
{
    if from < ss.len() && seg_center(ss[from]) != c {
        lemma_find_center_from_props(ss, c, from + 1);
    }
}

/// The hops the leading-edge walk gathers: all non-standard, contiguous,
/// weakly forward, bounded, and ending exactly at the center of the
/// silence the walk started from.
proof fn lemma_lead_extension_props(ss: Seq<SilenceSegment>, idx: int)
    requires
        silences_wf(ss),
        silences_sorted(ss),
        0 <= idx < ss.len(),
    ensures
        ({
            let pre = lead_extension(ss, idx);
            &&& (forall|k: int|
                0 <= k < pre.len() ==> (#[trigger] pre[k]).start_ms <= pre[k].end_ms
                    && pre[k].duration_ms == pre[k].end_ms - pre[k].start_ms
                    && !pre[k].is_standard && 0 <= pre[k].start_ms && pre[k].end_ms
                    <= MAX_TIME_MS)
            &&& (forall|k: int|
                0 < k < pre.len() ==> (#[trigger] pre[k]).start_ms == pre[k - 1].end_ms)
            &&& (pre.len() > 0 ==> pre.last().end_ms == seg_center(ss[idx]) && pre[0].start_ms
                <= seg_center(ss[idx]))
        }),
    decreases idx,
{
    let pre = lead_extension(ss, idx);
    if idx > 0 && crate::units::spec_is_short_unit_ms(ss[idx].start_ms - ss[idx - 1].end_ms) {
        lemma_lead_extension_props(ss, idx - 1);
        let head = lead_extension(ss, idx - 1);
        lemma_center_in_segment(ss, idx - 1);
        lemma_center_in_segment(ss, idx);
        lemma_center_order(ss, idx - 1, idx);
        assert(pre.last() == crate::extend::extension_hop(ss, idx - 1));
        assert forall|k: int| 0 < k < pre.len() implies (#[trigger] pre[k]).start_ms == pre[k
            - 1].end_ms by {
            if k < head.len() {
                assert(pre[k] == head[k] && pre[k - 1] == head[k - 1]);
            } else {
                assert(k == head.len());
                if head.len() > 0 {
                    assert(pre[k - 1] == head[k - 1]);
                    assert(head.last().end_ms == seg_center(ss[idx - 1]));
                }
            }
        }
    }
}

/// The hops the trailing-edge walk gathers, mirrored: they start exactly
/// at the center of the silence the walk started from.
proof fn lemma_trail_extension_props(ss: Seq<SilenceSegment>, idx: int)
    requires
        silences_wf(ss),
        silences_sorted(ss),
        0 <= idx < ss.len(),
    ensures
        ({
            let post = trail_extension(ss, idx);
            &&& (forall|k: int|
                0 <= k < post.len() ==> (#[trigger] post[k]).start_ms <= post[k].end_ms
                    && post[k].duration_ms == post[k].end_ms - post[k].start_ms
                    && !post[k].is_standard && 0 <= post[k].start_ms && post[k].end_ms
                    <= MAX_TIME_MS)
            &&& (forall|k: int|
                0 < k < post.len() ==> (#[trigger] post[k]).start_ms == post[k - 1].end_ms)
            &&& (post.len() > 0 ==> post[0].start_ms == seg_center(ss[idx])
                && post.last().end_ms >= seg_center(ss[idx]))
        }),
    decreases ss.len() - idx,
{
    let post = trail_extension(ss, idx);
    if idx + 1 < ss.len() && crate::units::spec_is_short_unit_ms(
        ss[idx + 1].start_ms - ss[idx].end_ms,
    ) {
        lemma_trail_extension_props(ss, idx + 1);
        let tail = trail_extension(ss, idx + 1);
        lemma_center_in_segment(ss, idx);
        lemma_center_in_segment(ss, idx + 1);
        lemma_center_order(ss, idx, idx + 1);
        assert(post[0] == crate::extend::extension_hop(ss, idx));
        assert forall|k: int| 0 < k < post.len() implies (#[trigger] post[k]).start_ms
            == post[k - 1].end_ms by {
            if k > 1 {
                assert(post[k] == tail[k - 1] && post[k - 1] == tail[k - 2]);
            } else {
                assert(post[k] == tail[0]);
                assert(tail[0].start_ms == seg_center(ss[idx + 1]));
            }
        }
        if post.len() > 1 {
            assert(post.last() == tail.last());
        }
    }
}

/// Stage E invariants: extending one shaped block keeps it shaped.
#[verifier::rlimit(60)]
proof fn lemma_extend_one_shape(ss: Seq<SilenceSegment>, b: BlockModel)
    requires
        silences_wf(ss),
        silences_sorted(ss),
        block_shape(b),
    ensures
        block_shape(spec_extend_one(ss, b)),
{
    let e = spec_extend_one(ss, b);
    let pre = match find_center_idx(ss, b.start_ms) {
        Some(i) => lead_extension(ss, i),
        None => Seq::<crate::types::CandidateModel>::empty(),
    };
    let post = match find_center_idx(ss, b.end_ms) {
        Some(i) => trail_extension(ss, i),
        None => Seq::<crate::types::CandidateModel>::empty(),
    };
    lemma_find_center_from_props(ss, b.start_ms, 0);
    lemma_find_center_from_props(ss, b.end_ms, 0);
    if find_center_idx(ss, b.start_ms) is Some {
        lemma_lead_extension_props(ss, find_center_idx(ss, b.start_ms).unwrap());
    }
    if find_center_idx(ss, b.end_ms) is Some {
        lemma_trail_extension_props(ss, find_center_idx(ss, b.end_ms).unwrap());
    }
    if pre.len() == 0 && post.len() == 0 {
    } else {
        let pl = pre.len() as int;
        let bl = b.segments.len() as int;
        assert(e.segments.len() == pl + bl + post.len());
        assert forall|j: int| 0 <= j < e.segments.len() implies (#[trigger] e.segments[j]).start_ms
            <= e.segments[j].end_ms by {
            if j < pl {
                assert(e.segments[j] == pre[j]);
            } else if j < pl + bl {
                assert(e.segments[j] == b.segments[j - pl]);
            } else {
                assert(e.segments[j] == post[j - pl - bl]);
            }
        }
        assert forall|j: int| 0 < j < e.segments.len() implies (#[trigger] e.segments[j]).start_ms
            >= e.segments[j - 1].end_ms by {
            if j < pl {
                assert(e.segments[j] == pre[j] && e.segments[j - 1] == pre[j - 1]);
            } else if j == pl {
                // junction: the innermost gathered hop ends at the center
                // of the silence matching the block's start, which is the
                // block's own first segment start.
                if pl > 0 {
                    assert(e.segments[j - 1] == pre[pl - 1]);
                    assert(e.segments[j] == b.segments[0]);
                    assert(pre.last().end_ms == b.start_ms);
                } else {
                    assert(e.segments[j] == b.segments[j]);
                }
            } else if j < pl + bl {
                assert(e.segments[j] == b.segments[j - pl] && e.segments[j - 1] == b.segments[j
                    - pl - 1]);
            } else if j == pl + bl {
                assert(e.segments[j] == post[0]);
                assert(e.segments[j - 1] == b.segments[bl - 1]);
                assert(post[0].start_ms == b.end_ms);
            } else {
                assert(e.segments[j] == post[j - pl - bl] && e.segments[j - 1] == post[j - pl
                    - bl - 1]);
            }
        }
        // Edges and bounds of the extended block.
        if pre.len() > 0 {
            assert(e.segments[0] == pre[0]);
            assert(e.start_ms == pre[0].start_ms);
        } else {
            assert(e.segments[0] == b.segments[0]);
        }
        if post.len() > 0 {
            assert(e.segments.last() == post.last());
            assert(e.end_ms == post.last().end_ms);
        } else {
            assert(e.segments.last() == b.segments[bl - 1]);
        }
        assert(e.start_ms <= b.start_ms && b.end_ms <= e.end_ms);
    }
}

/// Stage E invariants for the whole list: extension keeps every block
/// shaped.
pub proof fn lemma_extend_all_shape(ss: Seq<SilenceSegment>, bs: Seq<BlockModel>)
    requires
        silences_wf(ss),
        silences_sorted(ss),
        blocks_shaped(bs),
    ensures
        blocks_shaped(spec_extend_all(ss, bs)),
{
    assert forall|i: int| 0 <= i < spec_extend_all(ss, bs).len() implies block_shape(
        #[trigger] spec_extend_all(ss, bs)[i],
    ) by {
        assert(spec_extend_all(ss, bs)[i] == spec_extend_one(ss, bs[i]));
        lemma_extend_one_shape(ss, bs[i]);
    }
}

/// For every block the full pipeline emits from a well-formed, ordered
/// silence list:
/// - its hop list is non-empty and meets the block edges exactly;
/// - hops run weakly forward in time;
/// - the reported duration equals `end_ms - start_ms`;
/// - the duration is at least 60 s;
/// - at least two hops passed the strict standard-grid test.
pub proof fn lemma_pipeline_block_invariants(ss: Seq<SilenceSegment>)
    requires
        silences_wf(ss),
        silences_sorted(ss),
    ensures
        forall|m: int|
            0 <= m < crate::report::spec_pipeline(ss).len() ==> {
                let b = #[trigger] crate::report::spec_pipeline(ss)[m];
                &&& block_edges_match(b)
                &&& block_time_monotonic(b)
                &&& block_duration_consistent(b)
                &&& block_bounded_in_time(b)
                &&& b.duration_ms >= 60_000
                &&& crate::filter::spec_count_standard(b.segments) >= 2
            },
{
    let detected = spec_detect_blocks(ss);
    let merged = spec_merge_blocks(ss, detected);
    let extended = spec_extend_all(ss, merged);
    let out = crate::report::spec_pipeline(ss);
    lemma_detect_blocks_shape(ss);
    lemma_merge_blocks_shape(ss, detected);
    lemma_extend_all_shape(ss, merged);
    lemma_filter_blocks_elements(extended);
    assert forall|m: int| 0 <= m < out.len() implies block_shape(#[trigger] out[m]) by {
        let k = choose|k: int| 0 <= k < extended.len() && out[m] == extended[k];
        assert(block_shape(extended[k]));
    }
}

/// Segments follow one another with no gap at all: each starts exactly
/// where the one before it ended. This strict form holds at every
/// junction the merge and extension passes create, but inside a chain a
/// hop ends where a silence starts and the next begins where it ends, so
/// over a silence of nonzero width the strict form cannot hold; it does
/// hold when every silence is a single point in time.
pub open spec fn block_contiguous(b: BlockModel) -> bool {
    forall|j: int|
        0 < j < b.segments.len() ==> (#[trigger] b.segments[j]).start_ms == b.segments[j
            - 1].end_ms
}

/// All blocks of a list have strictly contiguous segments.
pub open spec fn blocks_contiguous(bs: Seq<BlockModel>) -> bool {
    forall|i: int| 0 <= i < bs.len() ==> block_contiguous(#[trigger] bs[i])
}

/// Every silence is a single point in time.
pub open spec fn silences_pointlike(ss: Seq<SilenceSegment>) -> bool {
    forall|i: int| 0 <= i < ss.len() ==> (#[trigger] ss[i]).start_ms == ss[i].end_ms
}

/// Closing a chain over point silences yields strictly contiguous
/// segments.
proof fn lemma_close_chain_contiguous(ss: Seq<SilenceSegment>, chain: Seq<ChainHop>, i: int)
    requires
        silences_pointlike(ss),
        chain_wf(chain, i),
        1 <= i <= ss.len(),
    ensures
        (match spec_close_chain(ss, chain) {
            Some(b) => block_contiguous(b),
            None => true,
        }),
{
    match spec_close_chain(ss, chain) {
        Some(b) => {
            let n = chain.len() as int;
            assert forall|j: int| 0 < j < n implies (#[trigger] b.segments[j]).start_ms == b
                .segments[j - 1].end_ms by {
                // Both sides sit on the silence joining hops j-1 and j,
                // which is a point.
                assert(chain[j].from == chain[j - 1].to);
            }
        },
        None => {},
    }
}

/// The chainer's blocks are strictly contiguous over point silences.
proof fn lemma_chainer_run_contiguous(ss: Seq<SilenceSegment>, i: int, st: ChainerState)
    requires
        silences_pointlike(ss),
        1 <= i <= ss.len(),
        chain_wf(st.chain, i),
        blocks_contiguous(st.blocks),
    ensures
        chain_wf(chainer_run(ss, i, st).chain, ss.len() as int),
        blocks_contiguous(chainer_run(ss, i, st).blocks),
    decreases ss.len() - i,
{
    if i < ss.len() {
        let st2 = chainer_step(ss, i, st);
        assert(chain_wf(st2.chain, i + 1)) by {
            if st2.chain.len() == st.chain.len() + 1 {
                assert(st2.chain.last() == st2.chain[st2.chain.len() - 1]);
                assert forall|j: int| 0 < j < st2.chain.len() implies (#[trigger] st2
                    .chain[j]).from == st2.chain[j - 1].to by {
                    if j < st.chain.len() {
                        assert(st2.chain[j] == st.chain[j] && st2.chain[j - 1] == st.chain[j
                            - 1]);
                    } else {
                        assert(st2.chain[j - 1] == st.chain[j - 1]);
                    }
                }
            } else {
                assert(st2.chain =~= Seq::<ChainHop>::empty());
            }
        }
        assert(blocks_contiguous(st2.blocks)) by {
            lemma_close_chain_contiguous(ss, st.chain, i);
            match spec_close_chain(ss, st.chain) {
                Some(b) => {
                    if st2.blocks == st.blocks.push(b) {
                        assert forall|m: int| 0 <= m < st2.blocks.len() implies block_contiguous(
                            #[trigger] st2.blocks[m],
                        ) by {
                            if m < st.blocks.len() {
                                assert(st2.blocks[m] == st.blocks[m]);
                            } else {
                                assert(st2.blocks[m] == b);
                            }
                        }
                    }
                },
                None => {},
            }
        }
        lemma_chainer_run_contiguous(ss, i + 1, st2);
    }
}

/// Fusing keeps strict contiguity: the synthesized gap hop starts exactly
/// at the first block's end and ends exactly at the second one's start.
proof fn lemma_fuse_blocks_contiguous(cur: BlockModel, nxt: BlockModel)
    requires
        block_edges_match(cur),
        block_edges_match(nxt),
        block_contiguous(cur),
        block_contiguous(nxt),
    ensures
        block_contiguous(fuse_blocks(cur, nxt)),
{
    let f = fuse_blocks(cur, nxt);
    let segs = f.segments;
    let cl = cur.segments.len() as int;
    assert forall|j: int| 0 < j < segs.len() implies (#[trigger] segs[j]).start_ms == segs[j
        - 1].end_ms by {
        if j < cl {
            assert(segs[j] == cur.segments[j] && segs[j - 1] == cur.segments[j - 1]);
        } else if j == cl {
            assert(segs[j - 1] == cur.segments[cl - 1]);
            assert(cur.segments.last().end_ms == cur.end_ms);
        } else if j == cl + 1 {
            assert(segs[j] == nxt.segments[0]);
            assert(nxt.segments[0].start_ms == nxt.start_ms);
        } else {
            assert(segs[j] == nxt.segments[j - cl - 1] && segs[j - 1] == nxt.segments[j - cl
                - 2]);
        }
    }
}

/// The merge walk keeps strict contiguity.
proof fn lemma_merge_run_contiguous(
    ss: Seq<SilenceSegment>,
    bs: Seq<BlockModel>,
    i: int,
    done: Seq<BlockModel>,
    cur: BlockModel,
)
    requires
        1 <= i <= bs.len(),
        forall|m: int|
            0 <= m < bs.len() ==> block_edges_match(#[trigger] bs[m]) && block_contiguous(
                bs[m],
            ),
        blocks_contiguous(done),
        block_edges_match(cur),
        block_contiguous(cur),
    ensures
        blocks_contiguous(merge_run(ss, bs, i, done, cur)),
    decreases bs.len() - i,
{
    if i >= bs.len() {
        let out = done.push(cur);
        assert forall|m: int| 0 <= m < out.len() implies block_contiguous(
            #[trigger] out[m],
        ) by {
            if m < done.len() {
                assert(out[m] == done[m]);
            } else {
                assert(out[m] == cur);
            }
        }
    } else {
        let nxt = bs[i];
        if spec_check_short_units_in_gap(ss, cur.end_ms, nxt.start_ms) {
            lemma_fuse_blocks_contiguous(cur, nxt);
            let f = fuse_blocks(cur, nxt);
            assert(block_edges_match(f)) by {
                assert(f.segments[0] == cur.segments[0]);
                assert(f.segments.last() == nxt.segments.last());
            }
            lemma_merge_run_contiguous(ss, bs, i + 1, done, f);
        } else {
            let done2 = done.push(cur);
            assert forall|m: int| 0 <= m < done2.len() implies block_contiguous(
                #[trigger] done2[m],
            ) by {
                if m < done.len() {
                    assert(done2[m] == done[m]);
                } else {
                    assert(done2[m] == cur);
                }
            }
            lemma_merge_run_contiguous(ss, bs, i + 1, done2, nxt);
        }
    }
}

/// Extension keeps strict contiguity: gathered hops run center to center
/// and meet the block's own edge exactly.
#[verifier::rlimit(60)]
proof fn lemma_extend_one_contiguous(ss: Seq<SilenceSegment>, b: BlockModel)
    requires
        silences_wf(ss),
        silences_sorted(ss),
        block_edges_match(b),
        block_contiguous(b),
    ensures
        block_contiguous(spec_extend_one(ss, b)),
{
    let e = spec_extend_one(ss, b);
    let pre = match find_center_idx(ss, b.start_ms) {
        Some(i) => lead_extension(ss, i),
        None => Seq::<crate::types::CandidateModel>::empty(),
    };
    let post = match find_center_idx(ss, b.end_ms) {
        Some(i) => trail_extension(ss, i),
        None => Seq::<crate::types::CandidateModel>::empty(),
    };
    lemma_find_center_from_props(ss, b.start_ms, 0);
    lemma_find_center_from_props(ss, b.end_ms, 0);
    if find_center_idx(ss, b.start_ms) is Some {
        lemma_lead_extension_props(ss, find_center_idx(ss, b.start_ms).unwrap());
    }
    if find_center_idx(ss, b.end_ms) is Some {
        lemma_trail_extension_props(ss, find_center_idx(ss, b.end_ms).unwrap());
    }
    if pre.len() == 0 && post.len() == 0 {
    } else {
        let pl = pre.len() as int;
        let bl = b.segments.len() as int;
        assert forall|j: int| 0 < j < e.segments.len() implies (#[trigger] e
            .segments[j]).start_ms == e.segments[j - 1].end_ms by {
            if j < pl {
                assert(e.segments[j] == pre[j] && e.segments[j - 1] == pre[j - 1]);
            } else if j == pl {
                if pl > 0 {
                    assert(e.segments[j - 1] == pre[pl - 1]);
                    assert(e.segments[j] == b.segments[0]);
                    assert(pre.last().end_ms == b.start_ms);
                } else {
                    assert(e.segments[j] == b.segments[j]);
                }
            } else if j < pl + bl {
                assert(e.segments[j] == b.segments[j - pl] && e.segments[j - 1] == b.segments[j
                    - pl - 1]);
            } else if j == pl + bl {
                assert(e.segments[j] == post[0]);
                assert(e.segments[j - 1] == b.segments[bl - 1]);
                assert(post[0].start_ms == b.end_ms);
            } else {
                assert(e.segments[j] == post[j - pl - bl] && e.segments[j - 1] == post[j - pl
                    - bl - 1]);
            }
        }
    }
}

/// Over point silences — a silence list in which every interval has
/// collapsed to its single transition instant — every block of the full
/// pipeline has strictly contiguous segments: each hop starts exactly
/// where the one before it ended. (Over silences of nonzero width the
/// chainer's hops deliberately span only the audible content between two
/// silences, so strict contiguity cannot hold inside a chain; the weak
/// form is in `lemma_pipeline_block_invariants`.)
#[verifier::rlimit(100)]
pub proof fn lemma_pipeline_contiguous_for_point_silences(ss: Seq<SilenceSegment>)
    requires
        silences_wf(ss),
        silences_sorted(ss),
        silences_pointlike(ss),
    ensures
        forall|m: int|
            0 <= m < crate::report::spec_pipeline(ss).len() ==> block_contiguous(
                #[trigger] crate::report::spec_pipeline(ss)[m],
            ),
{
    let detected = spec_detect_blocks(ss);
    let merged = spec_merge_blocks(ss, detected);
    let extended = spec_extend_all(ss, merged);
    let out = crate::report::spec_pipeline(ss);
    lemma_detect_blocks_shape(ss);
    lemma_merge_blocks_shape(ss, detected);
    lemma_extend_all_shape(ss, merged);
    // Contiguity through each stage.
    assert(blocks_contiguous(detected)) by {
        if ss.len() >= 2 {
            let init = chainer_init(ss);
            lemma_chainer_run_contiguous(ss, 1, init);
            let fin = chainer_run(ss, 1, init);
            lemma_close_chain_contiguous(ss, fin.chain, ss.len() as int);
            match spec_close_chain(ss, fin.chain) {
                Some(b) => {
                    assert(detected == fin.blocks.push(b));
                    assert forall|m: int| 0 <= m < detected.len() implies block_contiguous(
                        #[trigger] detected[m],
                    ) by {
                        if m < fin.blocks.len() {
                            assert(detected[m] == fin.blocks[m]);
                        } else {
                            assert(detected[m] == b);
                        }
                    }
                },
                None => {
                    assert(detected == fin.blocks);
                },
            }
        }
    }
    assert(blocks_contiguous(merged)) by {
        if detected.len() >= 2 {
            assert forall|m: int|
                0 <= m < detected.len() implies block_edges_match(#[trigger] detected[m])
                && block_contiguous(detected[m]) by {
                assert(block_shape(detected[m]));
            }
            lemma_merge_run_contiguous(ss, detected, 1, Seq::empty(), detected[0]);
        }
    }
    assert(blocks_contiguous(extended)) by {
        assert forall|m: int| 0 <= m < extended.len() implies block_contiguous(
            #[trigger] extended[m],
        ) by {
            assert(extended[m] == spec_extend_one(ss, merged[m]));
            assert(block_shape(merged[m]));
            lemma_extend_one_contiguous(ss, merged[m]);
        }
    }
    lemma_filter_blocks_elements(extended);
    assert forall|m: int| 0 <= m < out.len() implies block_contiguous(#[trigger] out[m]) by {
        let k = choose|k: int| 0 <= k < extended.len() && out[m] == extended[k];
        assert(block_contiguous(extended[k]));
    }
}

/// Before the extension pass, the pipeline's blocks are pairwise
/// non-overlapping and sorted by start time: the chainer emits them in
/// input order, and merging and filtering keep that order. (Extension
/// moves block edges outward over bumpers and can make two neighbouring
/// blocks touch or overlap; the order of what it was given is the order
/// it hands on, but disjointness is only guaranteed up to this stage.)
pub proof fn lemma_blocks_disjoint_before_extension(ss: Seq<SilenceSegment>)
    requires
        silences_wf(ss),
        silences_sorted(ss),
    ensures
        blocks_disjoint_ordered(
            spec_filter_blocks(spec_merge_blocks(ss, spec_detect_blocks(ss))),
        ),
        blocks_shaped(spec_filter_blocks(spec_merge_blocks(ss, spec_detect_blocks(ss)))),
{
    let detected = spec_detect_blocks(ss);
    lemma_detect_blocks_shape(ss);
    lemma_merge_blocks_shape(ss, detected);
    lemma_filter_blocks_ordered(spec_merge_blocks(ss, detected));
}

} // verus!
