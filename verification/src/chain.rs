//! The range-based chainer. Silences are walked in order; a chain is
//! extended while the next silence's range intersects the feasible-successor
//! range derived from the previous state and the expected grid multiple.
//! Carrying the intersection forward as the next feasible range keeps the
//! accumulated drift of a chain bounded by the original silence width.

use vstd::prelude::*;

use crate::types::{
    push_block, range_of, rm_center, rm_intersect, seg_center, silences_wf, BlockModel,
    CandidateModel, CmBlock, CmCandidate, Range, RangeModel, SilenceSegment, MAX_TIME_MS,
};
use crate::units::{
    expected_interval_ms, is_short_unit_ms, spec_expected_interval_ms, spec_is_short_unit_ms,
    TOLERANCE_MS,
};

verus! {

/// One accepted hop of a chain: the indices of the two silences it joins
/// and whether the standard 15 s-grid test admitted it.
#[verifier::ext_equal]
pub ghost struct ChainHop {
    pub from: int,
    pub to: int,
    pub is_standard: bool,
}

/// The chainer's running state: blocks emitted so far, the open chain, and
/// the feasible-successor range carried from the last accepted silence.
#[verifier::ext_equal]
pub ghost struct ChainerState {
    pub blocks: Seq<BlockModel>,
    pub chain: Seq<ChainHop>,
    pub prev: RangeModel,
}

/// Ghost image of the executable hop list.
pub open spec fn chain_model(chain: Seq<(usize, usize, bool)>) -> Seq<ChainHop> {
    chain.map(
        |j: int, h: (usize, usize, bool)|
            ChainHop { from: h.0 as int, to: h.1 as int, is_standard: h.2 },
    )
}

/// Bundle the executable pieces of the chainer state into its ghost model.
pub open spec fn abs_state(
    blocks: Seq<BlockModel>,
    chain: Seq<ChainHop>,
    prev: RangeModel,
) -> ChainerState {
    ChainerState { blocks, chain, prev }
}

/// The segment list of a closed chain. Each hop spans from its first
/// silence's end to its second silence's start (the audible content between
/// the two silences); the first hop's start and the last hop's end are then
/// overwritten with the block's own boundary points so that the list meets
/// the block edges exactly. `duration_ms` keeps the raw inter-silence gap.
pub open spec fn close_segments(
    ss: Seq<SilenceSegment>,
    chain: Seq<ChainHop>,
    start: int,
    end: int,
) -> Seq<CandidateModel> {
    Seq::new(
        chain.len(),
        |j: int|
            {
                let raw_s = ss[chain[j].from].end_ms as int;
                let raw_e = ss[chain[j].to].start_ms as int;
                CandidateModel {
                    start_ms: if j == 0 {
                        start
                    } else {
                        raw_s
                    },
                    end_ms: if j == chain.len() - 1 {
                        end
                    } else {
                        raw_e
                    },
                    duration_ms: raw_e - raw_s,
                    is_standard: chain[j].is_standard,
                }
            },
    )
}

/// Close a chain into a provisional block: the block runs from the center
/// of its first silence to the center of its last one, and survives only
/// the sanity guard `0 < duration <= 360 s`. The standard-unit and minimum
/// duration tests are deferred to the final filter.
pub open spec fn spec_close_chain(
    ss: Seq<SilenceSegment>,
    chain: Seq<ChainHop>,
) -> Option<BlockModel> {
    if chain.len() == 0 {
        None
    } else {
        let start = seg_center(ss[chain[0].from]);
        let end = seg_center(ss[chain.last().to]);
        let dur = end - start;
        if 0 < dur && dur <= 360_000 {
            Some(
                BlockModel {
                    start_ms: start,
                    end_ms: end,
                    duration_ms: dur,
                    segments: close_segments(ss, chain, start, end),
                },
            )
        } else {
            None
        }
    }
}

/// Emit the closed chain's block, if the chain yields one.
pub open spec fn push_closed(
    ss: Seq<SilenceSegment>,
    blocks: Seq<BlockModel>,
    chain: Seq<ChainHop>,
) -> Seq<BlockModel> {
    match spec_close_chain(ss, chain) {
        Some(b) => blocks.push(b),
        None => blocks,
    }
}

/// One chainer step, considering silence `i` as the successor of the state.
/// The center-to-center gap picks a target grid multiple; the feasible
/// range, offset by that multiple ± tolerance, is intersected with the
/// silence's own range. A failed standard test falls back to the short
/// 5 s / 10 s unit test. On a match the chain grows and the intersection
/// becomes the new feasible range; otherwise the chain closes and the
/// silence reseeds the state.
pub open spec fn chainer_step(
    ss: Seq<SilenceSegment>,
    i: int,
    st: ChainerState,
) -> ChainerState {
    let curr = range_of(ss[i]);
    let gap = rm_center(curr) - rm_center(st.prev);
    match spec_expected_interval_ms(gap) {
        None => ChainerState {
            blocks: push_closed(ss, st.blocks, st.chain),
            chain: Seq::empty(),
            prev: curr,
        },
        Some(e) => {
            let target = RangeModel { start: st.prev.start + e - 500, end: st.prev.end + e + 500 };
            let standard_match = rm_intersect(curr, target);
            let short_match = if standard_match is None && spec_is_short_unit_ms(gap) {
                rm_intersect(
                    curr,
                    RangeModel { start: st.prev.start + gap - 500, end: st.prev.end + gap + 500 },
                )
            } else {
                None
            };
            let matched = if standard_match is Some {
                standard_match
            } else {
                short_match
            };
            match matched {
                Some(valid) => ChainerState {
                    blocks: st.blocks,
                    chain: st.chain.push(
                        ChainHop { from: i - 1, to: i, is_standard: standard_match is Some },
                    ),
                    prev: valid,
                },
                None => ChainerState {
                    blocks: push_closed(ss, st.blocks, st.chain),
                    chain: Seq::empty(),
                    prev: curr,
                },
            }
        },
    }
}

/// Run the chainer from silence `i` to the end of the list.
pub open spec fn chainer_run(ss: Seq<SilenceSegment>, i: int, st: ChainerState) -> ChainerState
    decreases ss.len() - i,
{
    if i >= ss.len() {
        st
    } else {
        chainer_run(ss, i + 1, chainer_step(ss, i, st))
    }
}

/// The chainer's starting state: no blocks, an empty chain, and the first
/// silence's own range as the feasible range.
pub open spec fn chainer_init(ss: Seq<SilenceSegment>) -> ChainerState {
    ChainerState { blocks: Seq::empty(), chain: Seq::empty(), prev: range_of(ss[0]) }
}

/// All provisional blocks of a silence list: run the chainer over every
/// silence, then close the chain still open at end of input.
pub open spec fn spec_detect_blocks(ss: Seq<SilenceSegment>) -> Seq<BlockModel> {
    if ss.len() < 2 {
        Seq::empty()
    } else {
        let fin = chainer_run(ss, 1, chainer_init(ss));
        push_closed(ss, fin.blocks, fin.chain)
    }
}

/// Every hop of the executable chain list stays below index `n`.
pub open spec fn chain_in_bounds(chain: Seq<(usize, usize, bool)>, n: int) -> bool {
    forall|j: int|
        0 <= j < chain.len() ==> (#[trigger] chain[j]).0 < n && chain[j].1 < n
}

/// Convert a closed chain to a provisional block, or nothing when the chain
/// is empty or its span fails the `0 < duration <= 360 s` sanity guard.
pub fn try_make_block_range_based(
    chain_segments: &Vec<(usize, usize, bool)>,
    silence_segments: &Vec<SilenceSegment>,
) -> (r: Option<CmBlock>)
    requires
        silences_wf(silence_segments@),
        chain_in_bounds(chain_segments@, silence_segments@.len() as int),
    ensures
        (match r {
            Some(b) => spec_close_chain(silence_segments@, chain_model(chain_segments@)) == Some(
                b@,
            ),
            None => spec_close_chain(silence_segments@, chain_model(chain_segments@)) is None,
        }),
{
    let ghost ch = chain_model(chain_segments@);
    if chain_segments.len() == 0 {
        return None;
    }
    let n = chain_segments.len();
    let first = chain_segments[0];
    let last = chain_segments[n - 1];
    let first_silence = &silence_segments[first.0];
    let last_silence = &silence_segments[last.1];

    // Boundary points: the centers of the chain's outermost silences.
    let start_ms: i64 = (first_silence.start_ms + first_silence.end_ms) / 2;
    let end_ms: i64 = (last_silence.start_ms + last_silence.end_ms) / 2;
    proof {
        assert(ch.last() == ch[n - 1]);
        assert(start_ms == seg_center(silence_segments@[ch[0].from]));
        assert(end_ms == seg_center(silence_segments@[ch.last().to]));
    }
    let total_duration_ms: i64 = end_ms - start_ms;

    if 0 < total_duration_ms && total_duration_ms <= 360_000 {
        let ghost model_segs = close_segments(
            silence_segments@,
            ch,
            start_ms as int,
            end_ms as int,
        );
        let mut segments: Vec<CmCandidate> = Vec::new();
        let mut j: usize = 0;
        while j < n
            invariant
                0 <= j <= n,
                n == chain_segments@.len(),
                silences_wf(silence_segments@),
                chain_in_bounds(chain_segments@, silence_segments@.len() as int),
                ch == chain_model(chain_segments@),
                model_segs == close_segments(
                    silence_segments@,
                    ch,
                    start_ms as int,
                    end_ms as int,
                ),
                segments@.len() == j,
                forall|k: int| 0 <= k < j ==> #[trigger] segments@[k]@ == model_segs[k],
            decreases n - j,
        {
            let hop = chain_segments[j];
            let from_silence = &silence_segments[hop.0];
            let to_silence = &silence_segments[hop.1];
            let raw_start: i64 = from_silence.end_ms;
            let raw_end: i64 = to_silence.start_ms;
            let duration_ms: i64 = raw_end - raw_start;
            let seg_start: i64 = if j == 0 {
                start_ms
            } else {
                raw_start
            };
            let seg_end: i64 = if j == n - 1 {
                end_ms
            } else {
                raw_end
            };
            segments.push(
                CmCandidate { start_ms: seg_start, end_ms: seg_end, duration_ms, is_standard: hop.2 },
            );
            j = j + 1;
        }
        let block = CmBlock { start_ms, end_ms, duration_ms: total_duration_ms, segments };
        proof {
            assert forall|k: int| 0 <= k < n implies block.segments.deep_view()[k]
                == model_segs[k] by {
                assert(block.segments@[k]@ == model_segs[k]);
            }
            assert(block.segments.deep_view() =~= model_segs);
            assert(spec_close_chain(silence_segments@, ch) == Some(block@));
        }
        Some(block)
    } else {
        None
    }
}

/// Walk the silences in order, chaining every silence whose range meets the
/// feasible-successor range for a standard or short unit, and emit a
/// provisional block each time a chain closes.
pub fn detect_blocks_range_based(silence_segments: &Vec<SilenceSegment>) -> (r: Vec<CmBlock>)
    requires
        silences_wf(silence_segments@),
    ensures
        r.deep_view() == spec_detect_blocks(silence_segments@),
{
    let mut blocks: Vec<CmBlock> = Vec::new();
    let n = silence_segments.len();
    if n < 2 {
        proof {
            assert(blocks.deep_view() =~= spec_detect_blocks(silence_segments@));
        }
        return blocks;
    }

    let mut chain_segments: Vec<(usize, usize, bool)> = Vec::new();
    let s0 = &silence_segments[0];
    let mut prev_range = Range::new(s0.start_ms, s0.end_ms);
    proof {
        assert(chain_model(chain_segments@) =~= Seq::<ChainHop>::empty());
        assert(abs_state(blocks.deep_view(), chain_model(chain_segments@), prev_range@)
            =~= chainer_init(silence_segments@));
    }

    let mut i: usize = 1;
    while i < n
        invariant
            1 <= i <= n,
            n == silence_segments@.len(),
            2 <= n,
            silences_wf(silence_segments@),
            0 <= prev_range.start <= prev_range.end <= MAX_TIME_MS,
            chain_in_bounds(chain_segments@, i as int),
            chainer_run(
                silence_segments@,
                i as int,
                abs_state(blocks.deep_view(), chain_model(chain_segments@), prev_range@),
            ) == chainer_run(silence_segments@, 1, chainer_init(silence_segments@)),
        decreases n - i,
    {
        let ghost st = abs_state(
            blocks.deep_view(),
            chain_model(chain_segments@),
            prev_range@,
        );
        let curr = &silence_segments[i];
        let curr_range = Range::new(curr.start_ms, curr.end_ms);

        // Coarse snap: compare range centers to pick the target multiple.
        let prev_center: i64 = (prev_range.start + prev_range.end) / 2;
        let curr_center: i64 = (curr_range.start + curr_range.end) / 2;
        let gap_ms: i64 = curr_center - prev_center;
        proof {
            assert(gap_ms == rm_center(curr_range@) - rm_center(st.prev));
        }

        match expected_interval_ms(gap_ms) {
            None => {
                // Nominal gap beyond 75 s: close and reseed.
                if let Some(block) = try_make_block_range_based(
                    &chain_segments,
                    silence_segments,
                ) {
                    push_block(&mut blocks, block);
                }
                chain_segments.clear();
                prev_range = curr_range;
                proof {
                    assert(chain_model(chain_segments@) =~= Seq::<ChainHop>::empty());
                    assert(abs_state(
                        blocks.deep_view(),
                        chain_model(chain_segments@),
                        prev_range@,
                    ) =~= chainer_step(silence_segments@, i as int, st));
                }
            },
            Some(expected_ms) => {
                // Feasible-successor window for the standard grid test.
                let target = Range::new(
                    prev_range.start + expected_ms - TOLERANCE_MS,
                    prev_range.end + expected_ms + TOLERANCE_MS,
                );
                let standard_match = curr_range.intersect(&target);
                let is_standard = standard_match.is_some();

                // Fallback: a short 5 s / 10 s bumper continues the chain too.
                let short_unit_match = if standard_match.is_none() && is_short_unit_ms(gap_ms) {
                    let short_target = Range::new(
                        prev_range.start + gap_ms - TOLERANCE_MS,
                        prev_range.end + gap_ms + TOLERANCE_MS,
                    );
                    curr_range.intersect(&short_target)
                } else {
                    None
                };

                let matched = if standard_match.is_some() {
                    standard_match
                } else {
                    short_unit_match
                };
                match matched {
                    Some(valid_range) => {
                        // Chain continues; the intersection tightens the
                        // feasible window for the next hop.
                        let ghost pre_chain = chain_model(chain_segments@);
                        chain_segments.push((i - 1, i, is_standard));
                        prev_range = valid_range;
                        proof {
                            assert(chain_model(chain_segments@) =~= pre_chain.push(
                                ChainHop {
                                    from: i - 1,
                                    to: i as int,
                                    is_standard: is_standard,
                                },
                            ));
                            assert(abs_state(
                                blocks.deep_view(),
                                chain_model(chain_segments@),
                                prev_range@,
                            ) =~= chainer_step(silence_segments@, i as int, st));
                        }
                    },
                    None => {
                        // No intersection: close and reseed.
                        if let Some(block) = try_make_block_range_based(
                            &chain_segments,
                            silence_segments,
                        ) {
                            push_block(&mut blocks, block);
                        }
                        chain_segments.clear();
                        prev_range = curr_range;
                        proof {
                            assert(chain_model(chain_segments@) =~= Seq::<ChainHop>::empty());
                            assert(abs_state(
                                blocks.deep_view(),
                                chain_model(chain_segments@),
                                prev_range@,
                            ) =~= chainer_step(silence_segments@, i as int, st));
                        }
                    },
                }
            },
        }
        i = i + 1;
    }

    // Close the chain left open at end of input.
    if let Some(block) = try_make_block_range_based(&chain_segments, silence_segments) {
        push_block(&mut blocks, block);
    }
    proof {
        assert(blocks.deep_view() =~= spec_detect_blocks(silence_segments@));
    }
    blocks
}

} // verus!
