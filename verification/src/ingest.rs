//! Helpers at the input edge: the ASCII test applied to each probe output
//! line before parsing, and the informational start-offset detector.

use vstd::prelude::*;

use crate::types::{seg_center, silences_wf, SilenceSegment};

verus! {

/// Center of the first silence whose midpoint lies inside the inclusive
/// start-offset window `[2000 ms, 8000 ms]`, scanning from index `from`.
pub open spec fn spec_start_offset_from(ss: Seq<SilenceSegment>, from: int) -> Option<int>
    decreases ss.len() - from,
{
    if from < 0 || from >= ss.len() {
        None
    } else if 2_000 <= seg_center(ss[from]) && seg_center(ss[from]) <= 8_000 {
        Some(seg_center(ss[from]))
    } else {
        spec_start_offset_from(ss, from + 1)
    }
}

/// The start offset reported for a silence list: the center of the first
/// silence whose center falls in `[2000 ms, 8000 ms]`, if any.
pub open spec fn spec_start_offset(ss: Seq<SilenceSegment>) -> Option<int> {
    spec_start_offset_from(ss, 0)
}

/// True iff the line consists of ASCII characters only. Non-ASCII lines of
/// localized probe output are skipped before parsing.
pub fn is_ascii_line(line: &str) -> (r: bool)
    ensures
        r == forall|i: int| 0 <= i < line@.len() ==> '\0' <= #[trigger] line@[i] <= '\u{7f}',
{
    line.is_ascii()
}

/// Report the center of the first silence falling inside the start-offset
/// window `[2000 ms, 8000 ms]`; purely informational.
pub fn detect_start_offset_ms(silence_segments: &Vec<SilenceSegment>) -> (r: Option<i64>)
    requires
        silences_wf(silence_segments@),
    ensures
        (match r {
            Some(c) => spec_start_offset(silence_segments@) == Some(c as int),
            None => spec_start_offset(silence_segments@) is None,
        }),
{
    let mut i: usize = 0;
    while i < silence_segments.len()
        invariant
            0 <= i <= silence_segments@.len(),
            silences_wf(silence_segments@),
            spec_start_offset(silence_segments@) == spec_start_offset_from(
                silence_segments@,
                i as int,
            ),
        decreases silence_segments@.len() - i,
    {
        let seg = &silence_segments[i];
        let center_ms: i64 = (seg.start_ms + seg.end_ms) / 2;
        assert(center_ms == seg_center(silence_segments@[i as int]));
        if center_ms >= 2_000 && center_ms <= 8_000 {
            proof {
                assert(spec_start_offset_from(silence_segments@, i as int) == Some(
                    seg_center(silence_segments@[i as int]),
                ));
            }
            return Some(center_ms);
        }
        i = i + 1;
    }
    None
}

} // verus!
