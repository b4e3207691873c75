//! Boundary extension. Each block's leading and trailing edges walk
//! outward over neighbouring silences whose edge-to-edge gap is one short
//! 5 s / 10 s unit, absorbing them as synthesized non-standard hops that
//! span from silence center to silence center. Unlike the chainer, which
//! compares range centers, this pass deliberately measures edge-to-edge:
//! a bumper next to program audio sits close to the silence edges.

use vstd::prelude::*;

use crate::merge::blocks_bounded;
use crate::types::{
    clone_block, clone_candidates, seg_center, silences_wf, BlockModel, CandidateModel, CmBlock,
    CmCandidate, SilenceSegment, MAX_TIME_MS,
};
use crate::units::{is_short_unit_ms, spec_is_short_unit_ms};

verus! {

/// Index of the first silence whose center is exactly `c`, scanning from
/// `from`.
pub open spec fn find_center_idx_from(ss: Seq<SilenceSegment>, c: int, from: int) -> Option<int>
    decreases ss.len() - from,
{
    if from < 0 || from >= ss.len() {
        None
    } else if seg_center(ss[from]) == c {
        Some(from)
    } else {
        find_center_idx_from(ss, c, from + 1)
    }
}

/// Index of the first silence whose center is exactly `c`.
pub open spec fn find_center_idx(ss: Seq<SilenceSegment>, c: int) -> Option<int> {
    find_center_idx_from(ss, c, 0)
}

/// The synthesized hop absorbing the bumper between silences `m` and
/// `m + 1`: it spans center to center and is never standard.
pub open spec fn extension_hop(ss: Seq<SilenceSegment>, m: int) -> CandidateModel {
    CandidateModel {
        start_ms: seg_center(ss[m]),
        end_ms: seg_center(ss[m + 1]),
        duration_ms: seg_center(ss[m + 1]) - seg_center(ss[m]),
        is_standard: false,
    }
}

/// Hops gathered walking backwards from silence `idx` while the
/// edge-to-edge gap to the silence before is one short unit; ordered
/// outermost first.
pub open spec fn lead_extension(ss: Seq<SilenceSegment>, idx: int) -> Seq<CandidateModel>
    decreases idx,
{
    if idx <= 0 || idx >= ss.len() {
        Seq::empty()
    } else if spec_is_short_unit_ms(ss[idx].start_ms - ss[idx - 1].end_ms) {
        lead_extension(ss, idx - 1) + seq![extension_hop(ss, idx - 1)]
    } else {
        Seq::empty()
    }
}

/// Hops gathered walking forwards from silence `idx` while the
/// edge-to-edge gap to the silence after is one short unit; ordered
/// innermost first.
pub open spec fn trail_extension(ss: Seq<SilenceSegment>, idx: int) -> Seq<CandidateModel>
    decreases ss.len() - idx,
{
    if idx < 0 || idx + 1 >= ss.len() {
        Seq::empty()
    } else if spec_is_short_unit_ms(ss[idx + 1].start_ms - ss[idx].end_ms) {
        seq![extension_hop(ss, idx)] + trail_extension(ss, idx + 1)
    } else {
        Seq::empty()
    }
}

/// One block after boundary extension. The walks start from the silences
/// whose centers equal the block's endpoints (they exist for every chainer
/// block); a block whose endpoints match no silence center is unchanged.
pub open spec fn spec_extend_one(ss: Seq<SilenceSegment>, b: BlockModel) -> BlockModel {
    let pre = match find_center_idx(ss, b.start_ms) {
        Some(i) => lead_extension(ss, i),
        None => Seq::empty(),
    };
    let post = match find_center_idx(ss, b.end_ms) {
        Some(i) => trail_extension(ss, i),
        None => Seq::empty(),
    };
    if pre.len() == 0 && post.len() == 0 {
        b
    } else {
        let ns = if pre.len() > 0 {
            pre[0].start_ms
        } else {
            b.start_ms
        };
        let ne = if post.len() > 0 {
            post.last().end_ms
        } else {
            b.end_ms
        };
        BlockModel {
            start_ms: ns,
            end_ms: ne,
            duration_ms: ne - ns,
            segments: pre + b.segments + post,
        }
    }
}

/// All blocks after boundary extension.
pub open spec fn spec_extend_all(
    ss: Seq<SilenceSegment>,
    bs: Seq<BlockModel>,
) -> Seq<BlockModel> {
    bs.map(|i: int, b: BlockModel| spec_extend_one(ss, b))
}

/// First silence whose center equals `c`, as the extension walks need it.
fn find_center_position(silence_segments: &Vec<SilenceSegment>, c: i64) -> (r: Option<usize>)
    requires
        silences_wf(silence_segments@),
    ensures
        (match r {
            Some(i) => find_center_idx(silence_segments@, c as int) == Some(i as int) && i
                < silence_segments@.len(),
            None => find_center_idx(silence_segments@, c as int) is None,
        }),
{
    let mut i: usize = 0;
    while i < silence_segments.len()
        invariant
            0 <= i <= silence_segments@.len(),
            silences_wf(silence_segments@),
            find_center_idx(silence_segments@, c as int) == find_center_idx_from(
                silence_segments@,
                c as int,
                i as int,
            ),
        decreases silence_segments@.len() - i,
    {
        let s = &silence_segments[i];
        let center_ms: i64 = (s.start_ms + s.end_ms) / 2;
        if center_ms == c {
            proof {
                assert(seg_center(silence_segments@[i as int]) == c as int);
            }
            return Some(i);
        }
        i = i + 1;
    }
    None
}

/// Edge-to-edge gap between silence `idx` and the silence before it is one
/// short unit.
fn gap_before_is_short(silence_segments: &Vec<SilenceSegment>, idx: usize) -> (r: bool)
    requires
        silences_wf(silence_segments@),
        1 <= idx < silence_segments@.len(),
    ensures
        r == spec_is_short_unit_ms(
            silence_segments@[idx as int].start_ms - silence_segments@[idx as int - 1].end_ms,
        ),
{
    let gap_ms: i64 = silence_segments[idx].start_ms - silence_segments[idx - 1].end_ms;
    is_short_unit_ms(gap_ms)
}

/// Extend one block outward over short bumpers at both edges.
pub fn extend_single_block_boundaries(
    block: &CmBlock,
    silence_segments: &Vec<SilenceSegment>,
) -> (r: CmBlock)
    requires
        silences_wf(silence_segments@),
        0 <= block.start_ms <= MAX_TIME_MS,
        0 <= block.end_ms <= MAX_TIME_MS,
    ensures
        r@ == spec_extend_one(silence_segments@, block@),
{
    let ghost ss = silence_segments@;
    let mut new_start_ms: i64 = block.start_ms;
    let mut new_end_ms: i64 = block.end_ms;
    let mut prepend_segments: Vec<CmCandidate> = Vec::new();
    let mut append_segments: Vec<CmCandidate> = Vec::new();

    let ghost pre_model = match find_center_idx(ss, block.start_ms as int) {
        Some(i) => lead_extension(ss, i),
        None => Seq::<CandidateModel>::empty(),
    };
    let ghost post_model = match find_center_idx(ss, block.end_ms as int) {
        Some(i) => trail_extension(ss, i),
        None => Seq::<CandidateModel>::empty(),
    };

    // Walk backwards from the silence at the leading edge.
    if let Some(start_idx) = find_center_position(silence_segments, block.start_ms) {
        let mut current_idx = start_idx;
        while current_idx > 0 && gap_before_is_short(silence_segments, current_idx)
            invariant
                silences_wf(ss),
                ss == silence_segments@,
                0 <= current_idx <= start_idx < ss.len(),
                0 <= new_start_ms <= MAX_TIME_MS,
                pre_model == lead_extension(ss, start_idx as int),
                lead_extension(ss, current_idx as int) + prepend_segments.deep_view()
                    =~= pre_model,
                prepend_segments@.len() > 0 ==> new_start_ms as int
                    == prepend_segments.deep_view()[0].start_ms,
                prepend_segments@.len() == 0 ==> new_start_ms == block.start_ms,
            decreases current_idx,
        {
            let prev_seg = &silence_segments[current_idx - 1];
            let curr_seg = &silence_segments[current_idx];
            let seg_start: i64 = (prev_seg.start_ms + prev_seg.end_ms) / 2;
            let seg_end: i64 = (curr_seg.start_ms + curr_seg.end_ms) / 2;
            let seg_duration_ms: i64 = seg_end - seg_start;
            let ghost pre_old = prepend_segments.deep_view();
            let ghost pre_exec = prepend_segments@;
            prepend_segments.insert(
                0,
                CmCandidate {
                    start_ms: seg_start,
                    end_ms: seg_end,
                    duration_ms: seg_duration_ms,
                    is_standard: false,
                },
            );
            new_start_ms = seg_start;
            proof {
                let hop = extension_hop(ss, current_idx - 1);
                assert(prepend_segments@[0]@ == hop);
                assert forall|k: int|
                    0 <= k < prepend_segments.deep_view().len() implies prepend_segments
                    .deep_view()[k] == (seq![hop] + pre_old)[k] by {
                    if k > 0 {
                        assert(prepend_segments@[k] == pre_exec[k - 1]);
                    }
                }
                assert(prepend_segments.deep_view() =~= seq![hop] + pre_old);
                assert(lead_extension(ss, current_idx - 1) + prepend_segments.deep_view()
                    =~= lead_extension(ss, current_idx as int) + pre_old);
            }
            current_idx = current_idx - 1;
        }
        proof {
            assert(lead_extension(ss, current_idx as int) =~= Seq::<CandidateModel>::empty());
            assert(prepend_segments.deep_view() =~= pre_model);
        }
    } else {
        proof {
            assert(prepend_segments.deep_view() =~= pre_model);
        }
    }

    // Walk forwards from the silence at the trailing edge.
    if let Some(end_idx) = find_center_position(silence_segments, block.end_ms) {
        let n_sil = silence_segments.len();
        let mut current_idx = end_idx;
        while current_idx + 1 < n_sil && gap_before_is_short(silence_segments, current_idx + 1)
            invariant
                silences_wf(ss),
                ss == silence_segments@,
                n_sil == ss.len(),
                end_idx <= current_idx < n_sil,
                0 <= new_end_ms <= MAX_TIME_MS,
                post_model == trail_extension(ss, end_idx as int),
                append_segments.deep_view() + trail_extension(ss, current_idx as int)
                    =~= post_model,
                append_segments@.len() > 0 ==> new_end_ms as int == append_segments.deep_view()
                    .last().end_ms,
                append_segments@.len() == 0 ==> new_end_ms == block.end_ms,
            decreases ss.len() - current_idx,
        {
            let curr_seg = &silence_segments[current_idx];
            let next_seg = &silence_segments[current_idx + 1];
            let seg_start: i64 = (curr_seg.start_ms + curr_seg.end_ms) / 2;
            let seg_end: i64 = (next_seg.start_ms + next_seg.end_ms) / 2;
            let seg_duration_ms: i64 = seg_end - seg_start;
            let ghost app_old = append_segments.deep_view();
            let ghost app_exec = append_segments@;
            append_segments.push(
                CmCandidate {
                    start_ms: seg_start,
                    end_ms: seg_end,
                    duration_ms: seg_duration_ms,
                    is_standard: false,
                },
            );
            new_end_ms = seg_end;
            proof {
                let hop = extension_hop(ss, current_idx as int);
                assert(append_segments@[append_segments@.len() - 1]@ == hop);
                assert forall|k: int|
                    0 <= k < append_segments.deep_view().len() implies append_segments
                    .deep_view()[k] == app_old.push(hop)[k] by {
                    if k < app_old.len() {
                        assert(append_segments@[k] == app_exec[k]);
                    }
                }
                assert(append_segments.deep_view() =~= app_old.push(hop));
                assert(app_old.push(hop) =~= app_old + seq![hop]);
                assert(append_segments.deep_view() + trail_extension(ss, current_idx + 1)
                    =~= app_old + trail_extension(ss, current_idx as int));
            }
            current_idx = current_idx + 1;
        }
        proof {
            assert(trail_extension(ss, current_idx as int) =~= Seq::<CandidateModel>::empty());
            assert(append_segments.deep_view() =~= post_model);
        }
    } else {
        proof {
            assert(append_segments.deep_view() =~= post_model);
        }
    }

    if prepend_segments.len() == 0 && append_segments.len() == 0 {
        let r = clone_block(block);
        proof {
            assert(spec_extend_one(ss, block@) == block@);
        }
        return r;
    }

    let ghost target = pre_model + block@.segments + post_model;
    let mut new_segments = prepend_segments;
    let mut middle = clone_candidates(&block.segments);
    new_segments.append(&mut middle);
    let mut tail = append_segments;
    new_segments.append(&mut tail);

    let new_duration_ms: i64 = new_end_ms - new_start_ms;
    let r = CmBlock {
        start_ms: new_start_ms,
        end_ms: new_end_ms,
        duration_ms: new_duration_ms,
        segments: new_segments,
    };
    proof {
        assert forall|k: int| 0 <= k < r.segments.deep_view().len() implies r.segments
            .deep_view()[k] == target[k] by {
            if k < pre_model.len() {
                assert(r.segments@[k]@ == pre_model[k]);
            } else if k < pre_model.len() + block@.segments.len() {
                assert(r.segments@[k]@ == block.segments@[k - pre_model.len()]@);
            } else {
                assert(r.segments@[k]@ == post_model[k - pre_model.len()
                    - block@.segments.len()]);
            }
        }
        assert(r.segments.deep_view() =~= target);
        assert(r@ =~= spec_extend_one(ss, block@));
    }
    r
}

/// Extend every block independently at both edges.
pub fn extend_block_boundaries_with_short_units(
    blocks: &Vec<CmBlock>,
    silence_segments: &Vec<SilenceSegment>,
) -> (r: Vec<CmBlock>)
    requires
        silences_wf(silence_segments@),
        blocks_bounded(blocks.deep_view()),
    ensures
        r.deep_view() == spec_extend_all(silence_segments@, blocks.deep_view()),
{
    let mut r: Vec<CmBlock> = Vec::new();
    let mut i: usize = 0;
    while i < blocks.len()
        invariant
            0 <= i <= blocks@.len(),
            silences_wf(silence_segments@),
            blocks_bounded(blocks.deep_view()),
            r@.len() == i,
            forall|j: int| 0 <= j < i ==> #[trigger] r@[j]@ == spec_extend_one(
                silence_segments@,
                blocks@[j]@,
            ),
        decreases blocks@.len() - i,
    {
        proof {
            assert(blocks.deep_view()[i as int] == blocks@[i as int]@);
        }
        let b = extend_single_block_boundaries(&blocks[i], silence_segments);
        r.push(b);
        i = i + 1;
    }
    proof {
        assert forall|j: int| 0 <= j < blocks@.len() implies r.deep_view()[j]
            == spec_extend_all(silence_segments@, blocks.deep_view())[j] by {
            assert(r@[j]@ == spec_extend_one(silence_segments@, blocks@[j]@));
            assert(blocks.deep_view()[j] == blocks@[j]@);
        }
        assert(r.deep_view() =~= spec_extend_all(silence_segments@, blocks.deep_view()));
    }
    r
}

} // verus!
