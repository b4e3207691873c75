//! The report: the whole detection pipeline run over a silence list, with
//! the blocks in time order, the informational start offset and the echoed
//! silences, ready for serialization by a caller.

use vstd::prelude::*;

use crate::chain::{detect_blocks_range_based, spec_detect_blocks};
use crate::extend::{extend_block_boundaries_with_short_units, spec_extend_all};
use crate::filter::{filter_blocks_by_standard_units, spec_filter_blocks};
use crate::ingest::{detect_start_offset_ms, spec_start_offset};
use crate::laws::{
    blocks_shaped, lemma_detect_blocks_shape, lemma_extend_all_shape, lemma_merge_blocks_shape,
};
use crate::merge::{blocks_bounded, merge_blocks_with_short_units, spec_merge_blocks};
use crate::types::{silences_sorted, silences_wf, BlockModel, CmBlock, SilenceSegment};

verus! {

/// The top-level report: source identifier, informational start offset,
/// the detected blocks in time order, and the silences echoed unchanged.
pub struct OutputRecord {
    pub input_file: String,
    pub start_offset_ms: Option<i64>,
    pub cm_blocks: Vec<CmBlock>,
    pub silence_segments: Vec<SilenceSegment>,
}

/// The whole pipeline: chain, merge across short units, extend the edges,
/// filter. The order of the post-passes is normative — extension can push
/// a block's endpoint into a region the merge pass would have read as a
/// gap.
pub open spec fn spec_pipeline(ss: Seq<SilenceSegment>) -> Seq<BlockModel> {
    spec_filter_blocks(spec_extend_all(ss, spec_merge_blocks(ss, spec_detect_blocks(ss))))
}

/// A shaped block list is in particular a bounded one.
proof fn lemma_shaped_implies_bounded(bs: Seq<BlockModel>)
    requires
        blocks_shaped(bs),
    ensures
        blocks_bounded(bs),
{
    assert forall|i: int|
        0 <= i < bs.len() implies 0 <= (#[trigger] bs[i]).start_ms <= crate::types::MAX_TIME_MS
        && 0 <= bs[i].end_ms <= crate::types::MAX_TIME_MS by {
        assert(crate::laws::block_shape(bs[i]));
    }
}

/// Run the full detection pipeline over a silence list, as the silence
/// probe emits it: non-negative, bounded, non-overlapping intervals in
/// time order. The silences are echoed back unchanged.
pub fn build_report(silence_segments: Vec<SilenceSegment>) -> (r: OutputRecord)
    requires
        silences_wf(silence_segments@),
        silences_sorted(silence_segments@),
    ensures
        r.input_file@ == "stdin"@,
        (match r.start_offset_ms {
            Some(c) => spec_start_offset(silence_segments@) == Some(c as int),
            None => spec_start_offset(silence_segments@) is None,
        }),
        r.cm_blocks.deep_view() == spec_pipeline(silence_segments@),
        r.silence_segments@ == silence_segments@,
{
    let ghost ss = silence_segments@;
    let start_offset_ms = detect_start_offset_ms(&silence_segments);

    let detected = detect_blocks_range_based(&silence_segments);
    proof {
        lemma_detect_blocks_shape(ss);
        lemma_shaped_implies_bounded(detected.deep_view());
    }

    let merged = merge_blocks_with_short_units(&detected, &silence_segments);
    proof {
        lemma_merge_blocks_shape(ss, detected.deep_view());
        lemma_shaped_implies_bounded(merged.deep_view());
    }

    let extended = extend_block_boundaries_with_short_units(&merged, &silence_segments);
    let cm_blocks = filter_blocks_by_standard_units(extended);

    OutputRecord {
        input_file: "stdin".to_owned(),
        start_offset_ms,
        cm_blocks,
        silence_segments,
    }
}

} // verus!
