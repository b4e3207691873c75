use cm_detect::chain::detect_blocks_range_based;
use cm_detect::extend::extend_block_boundaries_with_short_units;
use cm_detect::filter::{count_standard_units, filter_blocks_by_standard_units};
use cm_detect::merge::merge_blocks_with_short_units;
use cm_detect::report::build_report;
use cm_detect::types::SilenceSegment;

fn seg(start_ms: i64, end_ms: i64) -> SilenceSegment {
    SilenceSegment { start_ms, end_ms, duration_ms: end_ms - start_ms }
}

#[test]
fn test_short_units_at_chain_boundaries_merged() {
    // program -> 5s bumper -> [75 s CM chain] -> 5s bumper -> program.
    // Chain detection measures center to center (~6 s here, no match);
    // boundary extension measures edge to edge (5 s, a short unit).
    let segments = vec![
        // Program end / 5s CM start - center 500
        SilenceSegment { start_ms: 0, end_ms: 1000, duration_ms: 1000 },
        // After the 5s CM (boundary of the main block) - center 6500
        SilenceSegment { start_ms: 6000, end_ms: 7000, duration_ms: 1000 },
        // 15s x 5 = 75s CM block
        SilenceSegment { start_ms: 21000, end_ms: 22000, duration_ms: 1000 },
        SilenceSegment { start_ms: 36000, end_ms: 37000, duration_ms: 1000 },
        SilenceSegment { start_ms: 51000, end_ms: 52000, duration_ms: 1000 },
        SilenceSegment { start_ms: 66000, end_ms: 67000, duration_ms: 1000 },
        SilenceSegment { start_ms: 81000, end_ms: 82000, duration_ms: 1000 },
        // After the main block / trailing 5s CM - center 87500
        SilenceSegment { start_ms: 87000, end_ms: 88000, duration_ms: 1000 },
        // Program resumes
        SilenceSegment { start_ms: 120000, end_ms: 121000, duration_ms: 1000 },
    ];

    let blocks = detect_blocks_range_based(&segments);
    assert_eq!(blocks.len(), 1, "Should detect one CM block before extension");

    let block_before = &blocks[0];
    assert_eq!(block_before.start_ms, 6500, "Before extension: starts at center of [6000,7000]");
    assert_eq!(block_before.end_ms, 81500, "Before extension: ends at center of [81000,82000]");

    let extended = extend_block_boundaries_with_short_units(&blocks, &segments);
    assert_eq!(extended.len(), 1, "Should still have one CM block after extension");

    let block = &extended[0];
    assert_eq!(block.start_ms, 500, "Block should include leading 5s unit");
    assert_eq!(block.end_ms, 87500, "Block should include trailing 5s unit");

    assert_eq!(block.segments.len(), 7, "Block should have 7 segments (1 + 5 + 1)");

    assert_eq!(block.segments[0].start_ms, 500);
    assert_eq!(block.segments[0].end_ms, 6500);
    let first_duration = block.segments[0].duration_ms as f64 / 1000.0;
    assert!((first_duration - 6.0).abs() < 0.1, "First segment should be ~6s (center to center)");

    let last = block.segments.last().unwrap();
    assert_eq!(last.start_ms, 81500);
    assert_eq!(last.end_ms, 87500);
    let last_duration = last.duration_ms as f64 / 1000.0;
    assert!((last_duration - 6.0).abs() < 0.1, "Last segment should be ~6s (center to center)");
}

#[test]
fn test_extended_segments_are_not_standard() {
    // Segments added by boundary extension carry is_standard = false.
    let segments = vec![
        // Program end / 5s CM start - center 500
        SilenceSegment { start_ms: 0, end_ms: 1000, duration_ms: 1000 },
        // After the 5s CM (boundary of the main block) - center 6500
        SilenceSegment { start_ms: 6000, end_ms: 7000, duration_ms: 1000 },
        // 15s x 3 = 45s CM block
        SilenceSegment { start_ms: 21000, end_ms: 22000, duration_ms: 1000 },
        SilenceSegment { start_ms: 36000, end_ms: 37000, duration_ms: 1000 },
        SilenceSegment { start_ms: 51000, end_ms: 52000, duration_ms: 1000 },
        // After the main block / trailing 5s CM - center 57500
        SilenceSegment { start_ms: 57000, end_ms: 58000, duration_ms: 1000 },
        // Program resumes, far away
        SilenceSegment { start_ms: 100000, end_ms: 101000, duration_ms: 1000 },
    ];

    let blocks = detect_blocks_range_based(&segments);
    let extended = extend_block_boundaries_with_short_units(&blocks, &segments);

    assert_eq!(extended.len(), 1);
    let block = &extended[0];

    assert_eq!(block.segments.len(), 5, "Block should have 5 segments");

    assert!(!block.segments[0].is_standard, "Extended leading segment should NOT be standard");

    assert!(block.segments[1].is_standard, "Segment 1 (15s) should be standard");
    assert!(block.segments[2].is_standard, "Segment 2 (15s) should be standard");
    assert!(block.segments[3].is_standard, "Segment 3 (15s) should be standard");

    assert!(!block.segments[4].is_standard, "Extended trailing segment should NOT be standard");

    let std_count = count_standard_units(block);
    assert_eq!(std_count, 3, "Should count 3 standard units");
}

#[test]
fn test_merge_across_gap_silences() {
    // Two chains split by a stray silence; the 20 s gap between the
    // blocks reads as two 10 s short units, so they merge.
    let segments = vec![
        seg(0, 1000),
        seg(14500, 15500),
        seg(29500, 30500),
        seg(44500, 45500),
        seg(59500, 60500),
        seg(74500, 75500),
        // Stray silence that fails both chain tests (7 s / 13 s gaps)
        seg(81500, 82500),
        // Second chain: centers 95000 .. 155000
        seg(94500, 95500),
        seg(109500, 110500),
        seg(124500, 125500),
        seg(139500, 140500),
        seg(154500, 155500),
    ];

    let blocks = detect_blocks_range_based(&segments);
    assert_eq!(blocks.len(), 2, "The stray silence should split the chain");
    assert_eq!(blocks[0].end_ms, 75000);
    assert_eq!(blocks[1].start_ms, 95000);

    let merged = merge_blocks_with_short_units(&blocks, &segments);
    assert_eq!(merged.len(), 1, "The 20 s gap reads as short units: blocks merge");

    let block = &merged[0];
    assert_eq!(block.start_ms, 500);
    assert_eq!(block.end_ms, 155000);
    assert_eq!(block.segments.len(), 10, "5 + 1 synthesized gap hop + 4");
    assert_eq!(block.segments[5].start_ms, 75000);
    assert_eq!(block.segments[5].end_ms, 95000);
    assert!(!block.segments[5].is_standard, "The synthesized gap hop is not standard");

    let filtered = filter_blocks_by_standard_units(merged);
    assert_eq!(filtered.len(), 1);
}

#[test]
fn test_merge_rejects_odd_gap() {
    // Same structure, but the second chain sits 13 s after the first:
    // no combination of short units fits, so the blocks stay apart.
    let segments = vec![
        seg(0, 1000),
        seg(14500, 15500),
        seg(29500, 30500),
        seg(44500, 45500),
        seg(59500, 60500),
        seg(74500, 75500),
        seg(81500, 82500),
        // Second chain: centers 88000 .. 148000
        seg(87500, 88500),
        seg(102500, 103500),
        seg(117500, 118500),
        seg(132500, 133500),
        seg(147500, 148500),
    ];

    let blocks = detect_blocks_range_based(&segments);
    assert_eq!(blocks.len(), 2);

    let merged = merge_blocks_with_short_units(&blocks, &segments);
    assert_eq!(merged.len(), 2, "A 13 s gap admits no short-unit combination");
    assert_eq!(merged[0].end_ms, 75000);
    assert_eq!(merged[1].start_ms, 88000);
}

#[test]
fn test_merge_can_exceed_chainer_duration_bound() {
    // The 360 s sanity guard is enforced per chain; fusing two long
    // chains across a short-unit gap can run past it, and the final
    // filter checks only the floors.
    let mut segments = Vec::new();
    // First chain: point silences every 15 s from 0 to 300 s.
    for k in 0..21i64 {
        segments.push(seg(k * 15000, k * 15000));
    }
    // A stray silence that breaks the chain without extending it.
    segments.push(seg(304000, 304000));
    // Second chain: every 15 s from 320 s to 620 s.
    for k in 0..21i64 {
        segments.push(seg(320000 + k * 15000, 320000 + k * 15000));
    }

    let blocks = detect_blocks_range_based(&segments);
    assert_eq!(blocks.len(), 2);
    assert_eq!(blocks[0].end_ms, 300000);
    assert_eq!(blocks[1].start_ms, 320000);

    // The 20 s gap holds a whole silence and reads as 2 x 10 s.
    let merged = merge_blocks_with_short_units(&blocks, &segments);
    assert_eq!(merged.len(), 1);
    assert_eq!(merged[0].duration_ms, 620000);

    let filtered = filter_blocks_by_standard_units(merged);
    assert_eq!(filtered.len(), 1, "The filter re-checks only the floors");
    assert!(filtered[0].duration_ms > 360000);
}

#[test]
fn test_extension_can_overlap_neighbouring_blocks() {
    // Boundary extension works per block with edge-to-edge gaps, so two
    // blocks separated by a run of short bumpers can each absorb the
    // same bumpers and come to overlap.
    let segments = vec![
        seg(0, 1000),
        seg(14500, 15500),
        seg(29500, 30500),
        seg(44500, 45500),
        seg(59500, 60500),
        seg(74500, 75500),
        // Short chain hop (center gap 5.5 s), edge gap 4.5 s
        seg(80000, 81000),
        // Breaks the chain (center gap 6 s), edge gap 4.5 s
        seg(85500, 87500),
        // Second chain, 15 s hops from center 86500
        seg(101000, 102000),
        seg(116000, 117000),
        seg(131000, 132000),
        seg(146000, 147000),
        seg(161000, 162000),
    ];

    let detected = detect_blocks_range_based(&segments);
    assert_eq!(detected.len(), 2);
    assert_eq!(detected[0].end_ms, 80500);
    assert_eq!(detected[1].start_ms, 86500);

    let merged = merge_blocks_with_short_units(&detected, &segments);
    assert_eq!(merged.len(), 2, "A 6 s center gap with no whole silence inside does not merge");

    let extended = extend_block_boundaries_with_short_units(&merged, &segments);
    let blocks = filter_blocks_by_standard_units(extended);
    assert_eq!(blocks.len(), 2);
    // The first block extended right over the bumper, the second one
    // extended left across it and beyond: they overlap.
    assert_eq!(blocks[0].end_ms, 86500);
    assert_eq!(blocks[1].start_ms, 75000);
    assert!(blocks[1].start_ms < blocks[0].end_ms);
}

#[test]
fn test_block_invariants_on_output() {
    // The invariants of every produced block, on a concrete two-block
    // run: segments meet the edges, run weakly forward, the duration
    // matches the span and the filter's floors hold; blocks are disjoint
    // and sorted.
    let segments = vec![
        seg(0, 1000),
        seg(14500, 15500),
        seg(29500, 30500),
        seg(44500, 45500),
        seg(59500, 60500),
        seg(74500, 75500),
        seg(164500, 165500),
        seg(179500, 180500),
        seg(194500, 195500),
        seg(209500, 210500),
        seg(224500, 225500),
        seg(239500, 240500),
    ];

    let detected = detect_blocks_range_based(&segments);
    let merged = merge_blocks_with_short_units(&detected, &segments);
    let extended = extend_block_boundaries_with_short_units(&merged, &segments);
    let blocks = filter_blocks_by_standard_units(extended);

    assert_eq!(blocks.len(), 2);
    for block in &blocks {
        assert!(!block.segments.is_empty());
        assert_eq!(block.segments[0].start_ms, block.start_ms);
        assert_eq!(block.segments.last().unwrap().end_ms, block.end_ms);
        for hop in &block.segments {
            assert!(hop.start_ms <= hop.end_ms);
        }
        for pair in block.segments.windows(2) {
            assert!(pair[0].end_ms <= pair[1].start_ms);
        }
        assert_eq!(block.duration_ms, block.end_ms - block.start_ms);
        assert!(block.duration_ms >= 60_000);
        assert!(block.duration_ms <= 360_000);
        assert!(count_standard_units(block) >= 2);
    }
    for pair in blocks.windows(2) {
        assert!(pair[0].end_ms <= pair[1].start_ms, "Blocks must not overlap");
        assert!(pair[0].start_ms <= pair[1].start_ms, "Blocks must be sorted by start");
    }
}

#[test]
fn test_build_report_on_plain_chain() {
    let segments = vec![
        seg(1500, 2500),
        seg(16500, 17500),
        seg(31500, 32500),
        seg(46500, 47500),
        seg(61500, 62500),
        seg(76500, 77500),
    ];

    let record = build_report(segments);

    assert_eq!(record.input_file, "stdin");
    assert_eq!(record.start_offset_ms, Some(2000));
    assert_eq!(record.silence_segments.len(), 6);
    assert_eq!(record.silence_segments[0].start_ms, 1500);
    assert_eq!(record.cm_blocks.len(), 1);
    assert_eq!(record.cm_blocks[0].start_ms, 2000);
    assert_eq!(record.cm_blocks[0].end_ms, 77000);
    assert_eq!(record.cm_blocks[0].segments.len(), 5);
}

#[test]
fn test_build_report_on_empty_input() {
    let record = build_report(Vec::new());
    assert_eq!(record.input_file, "stdin");
    assert_eq!(record.start_offset_ms, None);
    assert!(record.cm_blocks.is_empty());
    assert!(record.silence_segments.is_empty());
}
