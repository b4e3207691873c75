//! Core data types: silence segments, boundary ranges, CM candidates and
//! blocks, together with their ghost models and well-formedness predicates.

use vstd::prelude::*;

verus! {

/// Upper bound on any timestamp the library accepts, in milliseconds
/// (about 126 years). Keeps every intermediate sum far inside `i64`.
pub const MAX_TIME_MS: i64 = 4_000_000_000_000;

/// One detected silence interval. `start_ms <= end_ms`; the true
/// program-to-ad transition lies somewhere inside `[start_ms, end_ms]`.
#[derive(Debug, Clone, Copy)]
pub struct SilenceSegment {
    pub start_ms: i64,
    pub end_ms: i64,
    pub duration_ms: i64,
}

/// A silence segment with sane, bounded timestamps.
pub open spec fn seg_wf(s: SilenceSegment) -> bool {
    0 <= s.start_ms && s.start_ms <= s.end_ms && s.end_ms <= MAX_TIME_MS
}

/// Every segment of the list is well formed.
pub open spec fn silences_wf(ss: Seq<SilenceSegment>) -> bool {
    forall|i: int| 0 <= i < ss.len() ==> seg_wf(#[trigger] ss[i])
}

/// Consecutive silences do not overlap and come in time order, as the
/// silence probe emits them.
pub open spec fn silences_sorted(ss: Seq<SilenceSegment>) -> bool {
    forall|i: int| 0 <= i < ss.len() - 1 ==> #[trigger] ss[i].end_ms <= ss[i + 1].start_ms
}

/// Midpoint of a silence interval, the coarse "snap" point of the segment.
pub open spec fn seg_center(s: SilenceSegment) -> int {
    (s.start_ms + s.end_ms) / 2
}

/// Closed integer interval `[start, end]` on the time axis: the candidate
/// range for a block boundary point.
#[derive(Debug, Clone, Copy)]
pub struct Range {
    pub start: i64,
    pub end: i64,
}

/// Ghost counterpart of `Range`, over unbounded integers.
#[verifier::ext_equal]
pub ghost struct RangeModel {
    pub start: int,
    pub end: int,
}

impl View for Range {
    type V = RangeModel;

    open spec fn view(&self) -> RangeModel {
        RangeModel { start: self.start as int, end: self.end as int }
    }
}

/// Midpoint of a range.
pub open spec fn rm_center(r: RangeModel) -> int {
    (r.start + r.end) / 2
}

/// Intersection of two closed ranges; `None` when they do not meet.
pub open spec fn rm_intersect(a: RangeModel, b: RangeModel) -> Option<RangeModel> {
    let s = if a.start >= b.start { a.start } else { b.start };
    let e = if a.end <= b.end { a.end } else { b.end };
    if s <= e {
        Some(RangeModel { start: s, end: e })
    } else {
        None
    }
}

/// The range of boundary points a silence segment admits.
pub open spec fn range_of(s: SilenceSegment) -> RangeModel {
    RangeModel { start: s.start_ms as int, end: s.end_ms as int }
}

impl Range {
    pub fn new(start: i64, end: i64) -> (r: Self)
        ensures
            r.start == start,
            r.end == end,
    {
        Range { start, end }
    }

    /// Overlap of two closed ranges, or `None` when it is empty.
    pub fn intersect(&self, other: &Range) -> (r: Option<Range>)
        ensures
            (match r {
                Some(v) => rm_intersect(self@, other@) == Some(v@),
                None => rm_intersect(self@, other@) is None,
            }),
    {
        let start: i64 = if self.start >= other.start {
            self.start
        } else {
            other.start
        };
        let end: i64 = if self.end <= other.end {
            self.end
        } else {
            other.end
        };
        if start <= end {
            Some(Range::new(start, end))
        } else {
            None
        }
    }

    /// Shift both endpoints by `offset_ms`.
    pub fn offset(&self, offset_ms: i64) -> (r: Range)
        requires
            i64::MIN <= self.start + offset_ms <= i64::MAX,
            i64::MIN <= self.end + offset_ms <= i64::MAX,
        ensures
            r.start == self.start + offset_ms,
            r.end == self.end + offset_ms,
    {
        Range::new(self.start + offset_ms, self.end + offset_ms)
    }
}

/// One hop between two consecutive silences inside a chain.
/// `is_standard` is true iff the hop was admitted by the 15 s-grid test
/// (false for short-unit hops and for hops synthesized by the merge and
/// extension passes).
#[derive(Debug, Clone, Copy)]
pub struct CmCandidate {
    pub start_ms: i64,
    pub end_ms: i64,
    pub duration_ms: i64,
    pub is_standard: bool,
}

/// Ghost counterpart of `CmCandidate`.
#[verifier::ext_equal]
pub ghost struct CandidateModel {
    pub start_ms: int,
    pub end_ms: int,
    pub duration_ms: int,
    pub is_standard: bool,
}

impl View for CmCandidate {
    type V = CandidateModel;

    open spec fn view(&self) -> CandidateModel {
        CandidateModel {
            start_ms: self.start_ms as int,
            end_ms: self.end_ms as int,
            duration_ms: self.duration_ms as int,
            is_standard: self.is_standard,
        }
    }
}

impl DeepView for CmCandidate {
    type V = CandidateModel;

    open spec fn deep_view(&self) -> CandidateModel {
        self.view()
    }
}

/// One detected CM block: its boundary points and its ordered hops.
#[derive(Debug, Clone)]
pub struct CmBlock {
    pub start_ms: i64,
    pub end_ms: i64,
    pub duration_ms: i64,
    pub segments: Vec<CmCandidate>,
}

/// Ghost counterpart of `CmBlock`.
#[verifier::ext_equal]
pub ghost struct BlockModel {
    pub start_ms: int,
    pub end_ms: int,
    pub duration_ms: int,
    pub segments: Seq<CandidateModel>,
}

impl View for CmBlock {
    type V = BlockModel;

    open spec fn view(&self) -> BlockModel {
        BlockModel {
            start_ms: self.start_ms as int,
            end_ms: self.end_ms as int,
            duration_ms: self.duration_ms as int,
            segments: self.segments.deep_view(),
        }
    }
}

impl DeepView for CmBlock {
    type V = BlockModel;

    open spec fn deep_view(&self) -> BlockModel {
        self.view()
    }
}

/// Copy a candidate list element by element.
pub fn clone_candidates(v: &Vec<CmCandidate>) -> (r: Vec<CmCandidate>)
    ensures
        r@ == v@,
{
    let mut r: Vec<CmCandidate> = Vec::new();
    let mut i: usize = 0;
    while i < v.len()
        invariant
            0 <= i <= v@.len(),
            r@ == v@.subrange(0, i as int),
        decreases v@.len() - i,
    {
        r.push(v[i]);
        proof {
            assert(r@ =~= v@.subrange(0, i + 1 as int));
        }
        i = i + 1;
    }
    proof {
        assert(r@ =~= v@);
    }
    r
}

/// Copy one block, segments included.
pub fn clone_block(b: &CmBlock) -> (r: CmBlock)
    ensures
        r@ == b@,
{
    CmBlock {
        start_ms: b.start_ms,
        end_ms: b.end_ms,
        duration_ms: b.duration_ms,
        segments: clone_candidates(&b.segments),
    }
}

/// Append one block to a list, keeping the list's ghost image in step.
pub fn push_block(blocks: &mut Vec<CmBlock>, block: CmBlock)
    ensures
        final(blocks).deep_view() == old(blocks).deep_view().push(block@),
{
    let ghost pre = blocks.deep_view();
    blocks.push(block);
    proof {
        assert forall|j: int| 0 <= j < blocks.deep_view().len() implies blocks.deep_view()[j]
            == pre.push(block@)[j] by {
            if j < pre.len() {
                assert(blocks@[j] == old(blocks)@[j]);
            }
        }
        assert(blocks.deep_view() =~= pre.push(block@));
    }
}

/// Copy a block list element by element.
pub fn clone_blocks(v: &Vec<CmBlock>) -> (r: Vec<CmBlock>)
    ensures
        r.deep_view() == v.deep_view(),
{
    let mut r: Vec<CmBlock> = Vec::new();
    let mut i: usize = 0;
    while i < v.len()
        invariant
            0 <= i <= v@.len(),
            r@.len() == i,
            forall|j: int| 0 <= j < i ==> #[trigger] r@[j]@ == v@[j]@,
        decreases v@.len() - i,
    {
        let b = clone_block(&v[i]);
        r.push(b);
        i = i + 1;
    }
    proof {
        assert forall|j: int| 0 <= j < v@.len() implies r.deep_view()[j] == v.deep_view()[j] by {
            assert(r@[j]@ == v@[j]@);
        }
        assert(r.deep_view() =~= v.deep_view());
    }
    r
}

} // verus!
