//! Soundness of the range-based chainer: every chain it accepts is
//! witnessed by a sequence of exact boundary points, one inside each
//! silence of the chain, whose consecutive differences land on the grid.
//! This is the point of carrying the intersection forward as the next
//! feasible range — per-hop tolerance cannot accumulate beyond the
//! original silence widths.

use vstd::prelude::*;

use crate::chain::{
    chainer_init, chainer_run, chainer_step, spec_close_chain, spec_detect_blocks, ChainHop,
    ChainerState,
};
use crate::laws::{chain_anchor, chain_wf};
use crate::types::{
    range_of, rm_center, rm_intersect, seg_center, silences_wf, BlockModel, RangeModel,
    SilenceSegment,
};
use crate::units::{spec_coarse_unit_count, spec_expected_interval_ms, spec_is_short_unit_ms};

verus! {

/// A hop difference that lands on the grid its flag claims: within
/// ±500 ms of a standard multiple (15 s to 75 s) for a standard hop,
/// within the compounded ±1 s of a 5 s or 10 s bumper for a short one.
pub open spec fn hop_gap_feasible(d: int, is_standard: bool) -> bool {
    if is_standard {
        ||| 14_500 <= d <= 15_500
        ||| 29_500 <= d <= 30_500
        ||| 44_500 <= d <= 45_500
        ||| 59_500 <= d <= 60_500
        ||| 74_500 <= d <= 75_500
    } else {
        ||| 4_000 <= d <= 6_000
        ||| 9_000 <= d <= 11_000
    }
}

/// There is a boundary-point sequence for the hops `flags`, starting at
/// silence `a`, ending exactly at `t`: one point inside each silence's
/// range, consecutive differences feasible for each hop's kind.
pub open spec fn chain_bp_ok(
    ss: Seq<SilenceSegment>,
    a: int,
    flags: Seq<ChainHop>,
    t: int,
) -> bool {
    exists|bp: Seq<int>|
        {
            &&& #[trigger] bp.len() == flags.len() + 1
            &&& bp.last() == t
            &&& (forall|j: int|
                0 <= j < bp.len() ==> ss[a + j].start_ms <= #[trigger] bp[j] <= ss[a
                    + j].end_ms)
            &&& (forall|j: int|
                0 <= j < flags.len() ==> hop_gap_feasible(
                    bp[j + 1] - bp[j],
                    (#[trigger] flags[j]).is_standard,
                ))
        }
}

/// There is a boundary-point sequence through the whole block: one point
/// per silence of its chain, each inside that silence's original range,
/// consecutive differences feasible for each hop's flag.
pub open spec fn block_boundaries_feasible(
    ss: Seq<SilenceSegment>,
    a: int,
    b: BlockModel,
) -> bool {
    exists|bp: Seq<int>|
        {
            &&& #[trigger] bp.len() == b.segments.len() + 1
            &&& (forall|j: int|
                0 <= j < bp.len() ==> ss[a + j].start_ms <= #[trigger] bp[j] <= ss[a
                    + j].end_ms)
            &&& (forall|j: int|
                0 <= j < b.segments.len() ==> hop_gap_feasible(
                    bp[j + 1] - bp[j],
                    (#[trigger] b.segments[j]).is_standard,
                ))
        }
}

/// The block sits on a run of silences of the input and is witnessed by
/// exact boundary points through all of them.
pub open spec fn block_sound(ss: Seq<SilenceSegment>, b: BlockModel) -> bool {
    exists|a: int|
        {
            &&& 0 <= #[trigger] seg_center(ss[a])
            &&& 0 <= a
            &&& a + b.segments.len() < ss.len()
            &&& b.start_ms == seg_center(ss[a])
            &&& b.end_ms == seg_center(ss[a + b.segments.len()])
            &&& block_boundaries_feasible(ss, a, b)
        }
}

/// All blocks of the list are sound.
pub open spec fn blocks_sound(ss: Seq<SilenceSegment>, bs: Seq<BlockModel>) -> bool {
    forall|m: int| 0 <= m < bs.len() ==> block_sound(ss, #[trigger] bs[m])
}

/// Hop start indices along a well-formed chain are exactly consecutive.
proof fn lemma_chain_from_exact(chain: Seq<ChainHop>, i: int, j: int)
    requires
        chain_wf(chain, i),
        0 <= j < chain.len(),
    ensures
        chain[j].from == chain[0].from + j,
        chain[j].to == chain[0].from + j + 1,
    decreases j,
{
    if j > 0 {
        lemma_chain_from_exact(chain, i, j - 1);
        assert(chain[j].from == chain[j - 1].to);
    }
}

/// What the soundness induction carries through the chainer: a
/// well-formed chain, a non-empty feasible range inside silence `i - 1`,
/// boundary-point witnesses for every point of the feasible range, and
/// soundness of every block already emitted.
pub open spec fn sound_inv(ss: Seq<SilenceSegment>, i: int, st: ChainerState) -> bool {
    &&& chain_wf(st.chain, i)
    &&& st.prev.start <= st.prev.end
    &&& ss[i - 1].start_ms <= st.prev.start
    &&& st.prev.end <= ss[i - 1].end_ms
    &&& (forall|t: int|
        st.prev.start <= t <= st.prev.end ==> chain_bp_ok(
            ss,
            chain_anchor(i, st),
            st.chain,
            t,
        ))
    &&& blocks_sound(ss, st.blocks)
}

/// Closing a chain from a state with witnesses yields a sound block.
proof fn lemma_close_chain_sound(ss: Seq<SilenceSegment>, i: int, st: ChainerState)
    requires
        silences_wf(ss),
        1 <= i <= ss.len(),
        sound_inv(ss, i, st),
    ensures
        (match spec_close_chain(ss, st.chain) {
            Some(b) => block_sound(ss, b),
            None => true,
        }),
{
    let chain = st.chain;
    if chain.len() > 0 {
        match spec_close_chain(ss, chain) {
            Some(b) => {
                let a = chain[0].from;
                let n = chain.len() as int;
                lemma_chain_from_exact(chain, i, n - 1);
                assert(chain.last().to == a + n);
                assert(a + n == i - 1);
                // The feasible range is never empty, so pick any point in
                // it and take its boundary-point witness.
                let t = st.prev.start;
                assert(chain_bp_ok(ss, chain_anchor(i, st), chain, t));
                let bp = choose|bp: Seq<int>|
                    {
                        &&& #[trigger] bp.len() == chain.len() + 1
                        &&& bp.last() == t
                        &&& (forall|j: int|
                            0 <= j < bp.len() ==> ss[a + j].start_ms <= #[trigger] bp[j] <= ss[a
                                + j].end_ms)
                        &&& (forall|j: int|
                            0 <= j < chain.len() ==> hop_gap_feasible(
                                bp[j + 1] - bp[j],
                                (#[trigger] chain[j]).is_standard,
                            ))
                    };
                assert(b.segments.len() == n);
                assert forall|j: int| 0 <= j < b.segments.len() implies hop_gap_feasible(
                    bp[j + 1] - bp[j],
                    (#[trigger] b.segments[j]).is_standard,
                ) by {
                    assert(b.segments[j].is_standard == chain[j].is_standard);
                }
                assert(block_boundaries_feasible(ss, a, b));
                assert(b.start_ms == seg_center(ss[a]) && b.end_ms == seg_center(ss[a + n]));
                crate::laws::lemma_center_in_segment(ss, a);
                assert(block_sound(ss, b));
            },
            None => {},
        }
    }
}

/// One chainer step preserves the soundness invariant.
#[verifier::rlimit(80)]
proof fn lemma_chainer_step_sound(ss: Seq<SilenceSegment>, i: int, st: ChainerState)
    requires
        silences_wf(ss),
        1 <= i < ss.len(),
        sound_inv(ss, i, st),
    ensures
        sound_inv(ss, i + 1, chainer_step(ss, i, st)),
{
    let st2 = chainer_step(ss, i, st);
    let curr = range_of(ss[i]);
    let gap = rm_center(curr) - rm_center(st.prev);
    let anchor = chain_anchor(i, st);
    lemma_close_chain_sound(ss, i, st);
    if st2.chain.len() == 0 {
        // The chain closed; silence i reseeded the state. A bare point of
        // silence i is its own boundary-point witness.
        assert(st2.prev == curr);
        assert forall|t: int| st2.prev.start <= t <= st2.prev.end implies #[trigger] chain_bp_ok(
            ss,
            chain_anchor(i + 1, st2),
            st2.chain,
            t,
        ) by {
            let bp = seq![t];
            assert(bp.len() == 1 && bp.last() == t);
            assert(bp[0] == t);
            assert(ss[i + 0].start_ms <= bp[0] <= ss[i + 0].end_ms);
            assert(chain_bp_ok(ss, i, st2.chain, t));
        }
        match spec_close_chain(ss, st.chain) {
            Some(b) => {
                assert(st2.blocks == st.blocks.push(b));
                assert forall|m: int| 0 <= m < st2.blocks.len() implies block_sound(
                    ss,
                    #[trigger] st2.blocks[m],
                ) by {
                    if m < st.blocks.len() {
                        assert(st2.blocks[m] == st.blocks[m]);
                    } else {
                        assert(st2.blocks[m] == b);
                    }
                }
            },
            None => {},
        }
    } else {
        // A hop was accepted: its target window and the silence's own
        // range intersected. Every point of the intersection extends a
        // witness of the previous feasible range by one grid-feasible
        // difference.
        let e = spec_expected_interval_ms(gap).unwrap();
        let u = spec_coarse_unit_count(gap).unwrap();
        let standard = st2.chain.last().is_standard;
        let shift: int = if standard {
            e
        } else {
            gap
        };
        let target = RangeModel { start: st.prev.start + shift - 500, end: st.prev.end + shift + 500 };
        assert(rm_intersect(curr, target) == Some(st2.prev));
        assert(1 <= u <= 5 && e == u * 15_000);
        if !standard {
            assert(spec_is_short_unit_ms(gap));
        }
        assert(st2.chain == st.chain.push(ChainHop { from: i - 1, to: i, is_standard: standard }));
        assert(chain_wf(st2.chain, i + 1)) by {
            assert(st2.chain.last() == st2.chain[st2.chain.len() - 1]);
            assert forall|j: int| 0 < j < st2.chain.len() implies (#[trigger] st2
                .chain[j]).from == st2.chain[j - 1].to by {
                if j < st.chain.len() {
                    assert(st2.chain[j] == st.chain[j] && st2.chain[j - 1] == st.chain[j - 1]);
                } else {
                    assert(st2.chain[j - 1] == st.chain[j - 1]);
                }
            }
        }
        let a2 = chain_anchor(i + 1, st2);
        assert(a2 == anchor) by {
            assert(st2.chain[0].from == if st.chain.len() > 0 {
                st.chain[0].from
            } else {
                i - 1
            });
        }
        if st.chain.len() > 0 {
            lemma_chain_from_exact(st.chain, i, st.chain.len() - 1);
            assert(st.chain.last() == st.chain[st.chain.len() - 1]);
            assert(st.chain.last().to == anchor + st.chain.len());
            assert(anchor + st.chain.len() == i - 1);
        }
        assert(anchor + st2.chain.len() == i);
        assert forall|t2: int| st2.prev.start <= t2 <= st2.prev.end implies #[trigger] chain_bp_ok(
            ss,
            a2,
            st2.chain,
            t2,
        ) by {
            // Clamp t2 - shift into the previous feasible range: the
            // resulting difference stays within shift ± 500.
            let t1: int = if t2 - shift < st.prev.start {
                st.prev.start
            } else if t2 - shift > st.prev.end {
                st.prev.end
            } else {
                t2 - shift
            };
            assert(st.prev.start <= t1 <= st.prev.end);
            assert(shift - 500 <= t2 - t1 <= shift + 500);
            assert(chain_bp_ok(ss, anchor, st.chain, t1));
            let bp = choose|bp: Seq<int>|
                {
                    &&& #[trigger] bp.len() == st.chain.len() + 1
                    &&& bp.last() == t1
                    &&& (forall|j: int|
                        0 <= j < bp.len() ==> ss[anchor + j].start_ms <= #[trigger] bp[j]
                            <= ss[anchor + j].end_ms)
                    &&& (forall|j: int|
                        0 <= j < st.chain.len() ==> hop_gap_feasible(
                            bp[j + 1] - bp[j],
                            (#[trigger] st.chain[j]).is_standard,
                        ))
                };
            let bp2 = bp.push(t2);
            assert(bp2.len() == st2.chain.len() + 1);
            assert(bp2.last() == t2);
            assert forall|j: int| 0 <= j < bp2.len() implies ss[a2 + j].start_ms
                <= #[trigger] bp2[j] <= ss[a2 + j].end_ms by {
                if j < bp.len() {
                    assert(bp2[j] == bp[j]);
                } else {
                    assert(bp2[j] == t2);
                    assert(a2 + j == i);
                }
            }
            assert forall|j: int| 0 <= j < st2.chain.len() implies hop_gap_feasible(
                bp2[j + 1] - bp2[j],
                (#[trigger] st2.chain[j]).is_standard,
            ) by {
                if j < st.chain.len() {
                    assert(st2.chain[j] == st.chain[j]);
                    assert(bp2[j] == bp[j] && bp2[j + 1] == bp[j + 1]);
                } else {
                    assert(st2.chain[j].is_standard == standard);
                    assert(bp2[j] == bp.last() && bp2[j + 1] == t2);
                    assert(shift - 500 <= bp2[j + 1] - bp2[j] <= shift + 500);
                }
            }
            assert(chain_bp_ok(ss, a2, st2.chain, t2));
        }
    }
}

/// Running the chainer to the end preserves the soundness invariant.
proof fn lemma_chainer_run_sound(ss: Seq<SilenceSegment>, i: int, st: ChainerState)
    requires
        silences_wf(ss),
        1 <= i <= ss.len(),
        sound_inv(ss, i, st),
    ensures
        sound_inv(ss, ss.len() as int, chainer_run(ss, i, st)),
    decreases ss.len() - i,
{
    if i < ss.len() {
        lemma_chainer_step_sound(ss, i, st);
        lemma_chainer_run_sound(ss, i + 1, chainer_step(ss, i, st));
    }
}

/// A chainer step keeps the chain well formed.
proof fn lemma_step_chain_wf(ss: Seq<SilenceSegment>, i: int, st: ChainerState)
    requires
        1 <= i < ss.len(),
        chain_wf(st.chain, i),
    ensures
        chain_wf(chainer_step(ss, i, st).chain, i + 1),
{
    let st2 = chainer_step(ss, i, st);
    if st2.chain.len() == st.chain.len() + 1 {
        assert(st2.chain.last() == st2.chain[st2.chain.len() - 1]);
        assert forall|j: int| 0 < j < st2.chain.len() implies (#[trigger] st2.chain[j]).from
            == st2.chain[j - 1].to by {
            if j < st.chain.len() {
                assert(st2.chain[j] == st.chain[j] && st2.chain[j - 1] == st.chain[j - 1]);
            } else {
                assert(st2.chain[j - 1] == st.chain[j - 1]);
            }
        }
    } else {
        assert(st2.chain =~= Seq::<ChainHop>::empty());
    }
}

/// Closing a chain reads only the silences the chain joins, so a silence
/// appended after them changes nothing.
proof fn lemma_close_chain_append(
    ss: Seq<SilenceSegment>,
    s: SilenceSegment,
    chain: Seq<ChainHop>,
    i: int,
)
    requires
        chain_wf(chain, i),
        i <= ss.len(),
    ensures
        spec_close_chain(ss.push(s), chain) == spec_close_chain(ss, chain),
{
    let ss2 = ss.push(s);
    if chain.len() > 0 {
        assert forall|j: int| 0 <= j < chain.len() implies ss2[(#[trigger] chain[j]).from]
            == ss[chain[j].from] && ss2[chain[j].to] == ss[chain[j].to] by {
            assert(0 <= chain[j].from < chain[j].to < i);
        }
        assert(chain.last() == chain[chain.len() - 1]);
        assert(seg_center(ss2[chain[0].from]) == seg_center(ss[chain[0].from]));
        assert(seg_center(ss2[chain.last().to]) == seg_center(ss[chain.last().to]));
        match spec_close_chain(ss, chain) {
            Some(b) => {
                assert(spec_close_chain(ss2, chain) is Some);
                let b2 = spec_close_chain(ss2, chain).unwrap();
                assert forall|j: int| 0 <= j < chain.len() implies b2.segments[j]
                    == b.segments[j] by {
                    assert(ss2[chain[j].from] == ss[chain[j].from]);
                    assert(ss2[chain[j].to] == ss[chain[j].to]);
                }
                assert(b2.segments =~= b.segments);
                assert(b2 =~= b);
            },
            None => {
                assert(spec_close_chain(ss2, chain) is None);
            },
        }
    }
}

/// A chainer step before the appended silence reads only silences up to
/// its own index, so it is the same step on both lists.
proof fn lemma_step_append(ss: Seq<SilenceSegment>, s: SilenceSegment, i: int, st: ChainerState)
    requires
        1 <= i < ss.len(),
        chain_wf(st.chain, i),
    ensures
        chainer_step(ss.push(s), i, st) == chainer_step(ss, i, st),
{
    let ss2 = ss.push(s);
    assert(ss2[i] == ss[i]);
    lemma_close_chain_append(ss, s, st.chain, i);
    assert(chainer_step(ss2, i, st) =~= chainer_step(ss, i, st));
}

/// Running the chainer over the list with one silence appended is running
/// it over the original list and then stepping once on the new silence.
proof fn lemma_run_append(ss: Seq<SilenceSegment>, s: SilenceSegment, i: int, st: ChainerState)
    requires
        1 <= i <= ss.len(),
        chain_wf(st.chain, i),
    ensures
        chainer_run(ss.push(s), i, st) == chainer_step(
            ss.push(s),
            ss.len() as int,
            chainer_run(ss, i, st),
        ),
        chain_wf(chainer_run(ss, i, st).chain, ss.len() as int),
    decreases ss.len() - i,
{
    let ss2 = ss.push(s);
    if i == ss.len() {
        assert(chainer_run(ss, i, st) == st);
        assert(chainer_run(ss2, i + 1, chainer_step(ss2, i, st)) == chainer_step(ss2, i, st));
    } else {
        lemma_step_append(ss, s, i, st);
        lemma_step_chain_wf(ss, i, st);
        lemma_run_append(ss, s, i + 1, chainer_step(ss, i, st));
    }
}

/// The appended silence does not extend the chainer's final chain: the
/// step on it closes the open chain and reseeds, rather than accepting a
/// hop. This is the range-based reading of "fails every grid test at its
/// insertion point".
pub open spec fn appended_silence_breaks_chain(ss: Seq<SilenceSegment>, s: SilenceSegment) -> bool {
    chainer_step(
        ss.push(s),
        ss.len() as int,
        chainer_run(ss, 1, chainer_init(ss)),
    ).chain.len() == 0
}

/// Monotonicity under appended silence: a silence added after the input
/// that fails every grid test against the chainer's final feasible range
/// leaves the detected blocks exactly as they were — none is removed,
/// shrunk or reshaped.
pub proof fn lemma_append_breaking_silence_keeps_blocks(
    ss: Seq<SilenceSegment>,
    s: SilenceSegment,
)
    requires
        ss.len() >= 2,
        appended_silence_breaks_chain(ss, s),
    ensures
        spec_detect_blocks(ss.push(s)) == spec_detect_blocks(ss),
{
    let ss2 = ss.push(s);
    let init = chainer_init(ss);
    assert(chainer_init(ss2) == init) by {
        assert(ss2[0] == ss[0]);
    }
    lemma_run_append(ss, s, 1, init);
    let fin = chainer_run(ss, 1, init);
    let fin2 = chainer_run(ss2, 1, init);
    let n = ss.len() as int;
    assert(fin2 == chainer_step(ss2, n, fin));
    assert(fin2.chain.len() == 0);
    // Since the step did not accept a hop, it pushed the closed chain's
    // block (if any) and cleared the chain; the blocks after the step are
    // exactly the original run's closed-off blocks.
    assert(fin2.blocks == crate::chain::push_closed(ss2, fin.blocks, fin.chain)) by {
        if fin2.chain.len() != 0 {
        }
    }
    lemma_close_chain_append(ss, s, fin.chain, n);
    assert(spec_close_chain(ss2, fin2.chain) is None);
    assert(spec_detect_blocks(ss2) == fin2.blocks);
    assert(spec_detect_blocks(ss) == crate::chain::push_closed(ss, fin.blocks, fin.chain));
    assert(crate::chain::push_closed(ss2, fin.blocks, fin.chain) == crate::chain::push_closed(
        ss,
        fin.blocks,
        fin.chain,
    ));
}

/// Range-tightening soundness: for every block the chainer accepts there
/// is a sequence of exact boundary points — one inside each silence of
/// its chain — whose consecutive differences all land within tolerance on
/// a standard 15 s multiple, or on a 5 s / 10 s bumper for short hops.
/// The block's endpoints are the centers of the chain's outermost
/// silences.
pub proof fn lemma_range_tightening_soundness(ss: Seq<SilenceSegment>)
    requires
        silences_wf(ss),
    ensures
        blocks_sound(ss, spec_detect_blocks(ss)),
{
    if ss.len() >= 2 {
        let init = chainer_init(ss);
        assert(sound_inv(ss, 1, init)) by {
            assert forall|t: int| init.prev.start <= t <= init.prev.end implies #[trigger] chain_bp_ok(
                ss,
                chain_anchor(1, init),
                init.chain,
                t,
            ) by {
                let bp = seq![t];
                assert(bp.len() == 1 && bp.last() == t);
                assert(bp[0] == t);
                assert(ss[0int + 0int].start_ms <= bp[0] <= ss[0int + 0int].end_ms);
                assert(chain_bp_ok(ss, 0, init.chain, t));
            }
        }
        lemma_chainer_run_sound(ss, 1, init);
        let fin = chainer_run(ss, 1, init);
        lemma_close_chain_sound(ss, ss.len() as int, fin);
        match spec_close_chain(ss, fin.chain) {
            Some(b) => {
                assert(spec_detect_blocks(ss) == fin.blocks.push(b));
                assert forall|m: int| 0 <= m < spec_detect_blocks(ss).len() implies block_sound(
                    ss,
                    #[trigger] spec_detect_blocks(ss)[m],
                ) by {
                    if m < fin.blocks.len() {
                        assert(spec_detect_blocks(ss)[m] == fin.blocks[m]);
                    } else {
                        assert(spec_detect_blocks(ss)[m] == b);
                    }
                }
            },
            None => {
                assert(spec_detect_blocks(ss) == fin.blocks);
            },
        }
    }
}

} // verus!
