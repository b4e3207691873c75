use cm_detect::chain::detect_blocks_range_based;
use cm_detect::filter::filter_blocks_by_standard_units;
use cm_detect::types::SilenceSegment;

fn seg(start_ms: i64, end_ms: i64) -> SilenceSegment {
    SilenceSegment { start_ms, end_ms, duration_ms: end_ms - start_ms }
}

/// Regression around the 41-minute mark of a real recording: a naive
/// center-to-center comparison computes a 15.72 s hop and rejects it,
/// while the range-based chainer keeps the chain alive.
#[test]
fn test_41min_regression() {
    let segments = vec![
        // Boundary before the block
        SilenceSegment { start_ms: 2383700, end_ms: 2385670, duration_ms: 1970 },
        // The silence preceding the troublesome hops
        SilenceSegment { start_ms: 2413700, end_ms: 2415670, duration_ms: 1970 },
        // A
        SilenceSegment { start_ms: 2443110, end_ms: 2445580, duration_ms: 2470 },
        // B
        SilenceSegment { start_ms: 2459550, end_ms: 2460590, duration_ms: 1040 },
        // C
        SilenceSegment { start_ms: 2474560, end_ms: 2475640, duration_ms: 1080 },
        // D
        SilenceSegment { start_ms: 2489600, end_ms: 2490650, duration_ms: 1050 },
    ];

    let blocks = detect_blocks_range_based(&segments);

    assert!(!blocks.is_empty(), "Should detect at least one CM block");

    let block = &blocks[0];
    assert!(block.segments.len() >= 4, "Block should have at least 4 segments");
}

#[test]
fn test_basic_cm_block_detection() {
    // 15 s spacing x 5 hops = 75 s CM block
    let segments = vec![
        SilenceSegment { start_ms: 0, end_ms: 1000, duration_ms: 1000 },
        SilenceSegment { start_ms: 14500, end_ms: 15500, duration_ms: 1000 },
        SilenceSegment { start_ms: 29500, end_ms: 30500, duration_ms: 1000 },
        SilenceSegment { start_ms: 44500, end_ms: 45500, duration_ms: 1000 },
        SilenceSegment { start_ms: 59500, end_ms: 60500, duration_ms: 1000 },
        SilenceSegment { start_ms: 74500, end_ms: 75500, duration_ms: 1000 },
    ];

    let blocks = detect_blocks_range_based(&segments);
    assert_eq!(blocks.len(), 1, "Should detect exactly one CM block");

    let block = &blocks[0];
    // Start = center of the first silence = (0 + 1000) / 2 = 500
    assert_eq!(block.start_ms, 500);
    // End = center of the last silence = (74500 + 75500) / 2 = 75000
    assert_eq!(block.end_ms, 75000);
    // 5 intervals = 5 segments
    assert_eq!(block.segments.len(), 5);
}

#[test]
fn test_output_point_selection() {
    // Output points are the centers of the outermost silence ranges.
    let segments = vec![
        SilenceSegment { start_ms: 0, end_ms: 2000, duration_ms: 2000 },
        SilenceSegment { start_ms: 14000, end_ms: 16000, duration_ms: 2000 },
        SilenceSegment { start_ms: 28000, end_ms: 32000, duration_ms: 4000 },
        SilenceSegment { start_ms: 43000, end_ms: 47000, duration_ms: 4000 },
        SilenceSegment { start_ms: 58000, end_ms: 62000, duration_ms: 4000 },
        SilenceSegment { start_ms: 73000, end_ms: 77000, duration_ms: 4000 },
    ];

    let blocks = detect_blocks_range_based(&segments);
    assert_eq!(blocks.len(), 1);

    let block = &blocks[0];
    // Start = center of the first silence = (0 + 2000) / 2 = 1000
    assert_eq!(block.start_ms, 1000);
    // End = center of the last silence = (73000 + 77000) / 2 = 75000
    assert_eq!(block.end_ms, 75000);
}

#[test]
fn test_short_unit_in_chain() {
    // A short (5 s) unit between 15 s units continues the chain.
    let segments = vec![
        SilenceSegment { start_ms: 0, end_ms: 100, duration_ms: 100 },
        SilenceSegment { start_ms: 15000, end_ms: 15100, duration_ms: 100 },
        SilenceSegment { start_ms: 30000, end_ms: 30100, duration_ms: 100 },
        SilenceSegment { start_ms: 45000, end_ms: 45100, duration_ms: 100 },
        SilenceSegment { start_ms: 60000, end_ms: 60100, duration_ms: 100 },
        SilenceSegment { start_ms: 75000, end_ms: 75100, duration_ms: 100 },
        // 5 s gap
        SilenceSegment { start_ms: 80000, end_ms: 80100, duration_ms: 100 },
        SilenceSegment { start_ms: 95000, end_ms: 95100, duration_ms: 100 },
        SilenceSegment { start_ms: 110000, end_ms: 110100, duration_ms: 100 },
        SilenceSegment { start_ms: 125000, end_ms: 125100, duration_ms: 100 },
        SilenceSegment { start_ms: 140000, end_ms: 140100, duration_ms: 100 },
        SilenceSegment { start_ms: 155000, end_ms: 155100, duration_ms: 100 },
    ];

    let blocks = detect_blocks_range_based(&segments);

    assert_eq!(blocks.len(), 1, "Short unit should continue chain, resulting in one block");

    let block = &blocks[0];
    // 11 segments total (5 + 1 + 5)
    assert_eq!(block.segments.len(), 11, "Block should have 11 segments");

    // It also survives the final filter (standard units >= 2, >= 60 s).
    let filtered = filter_blocks_by_standard_units(vec![block.clone()]);
    assert_eq!(filtered.len(), 1, "Block should pass standard unit filter");
}

#[test]
fn test_no_false_positive_on_irregular_intervals() {
    // Irregularly spaced silences must not yield CM blocks.
    let segments = vec![
        SilenceSegment { start_ms: 0, end_ms: 1000, duration_ms: 1000 },
        SilenceSegment { start_ms: 20000, end_ms: 21000, duration_ms: 1000 },
        SilenceSegment { start_ms: 55000, end_ms: 56000, duration_ms: 1000 },
        SilenceSegment { start_ms: 70000, end_ms: 71000, duration_ms: 1000 },
        SilenceSegment { start_ms: 120000, end_ms: 121000, duration_ms: 1000 },
    ];

    let blocks = detect_blocks_range_based(&segments);
    // Provisional blocks may appear, but the final filter drops them all.
    let filtered = filter_blocks_by_standard_units(blocks);
    assert!(filtered.is_empty(), "Should not have valid CM blocks after filter");
}

#[test]
fn test_90s_gap_breaks_chain() {
    // A 90 s center-to-center gap splits the chain in two.
    let segments = vec![
        // Block 1: 15s x 5 = 75s
        SilenceSegment { start_ms: 0, end_ms: 1000, duration_ms: 1000 },
        SilenceSegment { start_ms: 14500, end_ms: 15500, duration_ms: 1000 },
        SilenceSegment { start_ms: 29500, end_ms: 30500, duration_ms: 1000 },
        SilenceSegment { start_ms: 44500, end_ms: 45500, duration_ms: 1000 },
        SilenceSegment { start_ms: 59500, end_ms: 60500, duration_ms: 1000 },
        SilenceSegment { start_ms: 74500, end_ms: 75500, duration_ms: 1000 },
        // 90s gap (center to center)
        SilenceSegment { start_ms: 164500, end_ms: 165500, duration_ms: 1000 },
        // Block 2: 15s x 5 = 75s
        SilenceSegment { start_ms: 179500, end_ms: 180500, duration_ms: 1000 },
        SilenceSegment { start_ms: 194500, end_ms: 195500, duration_ms: 1000 },
        SilenceSegment { start_ms: 209500, end_ms: 210500, duration_ms: 1000 },
        SilenceSegment { start_ms: 224500, end_ms: 225500, duration_ms: 1000 },
        SilenceSegment { start_ms: 239500, end_ms: 240500, duration_ms: 1000 },
    ];

    let blocks = detect_blocks_range_based(&segments);

    assert_eq!(blocks.len(), 2, "90s gap should break chain into two blocks");

    assert!(blocks[0].end_ms < 80000, "Block 1 should end before the 90s gap");
    assert!(blocks[1].start_ms > 160000, "Block 2 should start after the 90s gap");
}

#[test]
fn test_is_standard_flag() {
    // Standard-grid hops carry is_standard = true; the short 5 s hop
    // in the middle carries is_standard = false.
    let segments = vec![
        SilenceSegment { start_ms: 0, end_ms: 100, duration_ms: 100 },
        SilenceSegment { start_ms: 15000, end_ms: 15100, duration_ms: 100 },
        SilenceSegment { start_ms: 30000, end_ms: 30100, duration_ms: 100 },
        SilenceSegment { start_ms: 45000, end_ms: 45100, duration_ms: 100 },
        // 5 s gap (short unit)
        SilenceSegment { start_ms: 50000, end_ms: 50100, duration_ms: 100 },
        SilenceSegment { start_ms: 65000, end_ms: 65100, duration_ms: 100 },
        SilenceSegment { start_ms: 80000, end_ms: 80100, duration_ms: 100 },
        SilenceSegment { start_ms: 95000, end_ms: 95100, duration_ms: 100 },
    ];

    let blocks = detect_blocks_range_based(&segments);
    assert_eq!(blocks.len(), 1, "Should detect one CM block");

    let block = &blocks[0];
    // 7 segments: 3 standard + 1 short + 3 standard
    assert_eq!(block.segments.len(), 7, "Block should have 7 segments");

    assert!(block.segments[0].is_standard, "Segment 0 should be standard");
    assert!(block.segments[1].is_standard, "Segment 1 should be standard");
    assert!(block.segments[2].is_standard, "Segment 2 should be standard");

    assert!(!block.segments[3].is_standard, "Segment 3 (5s) should NOT be standard");

    assert!(block.segments[4].is_standard, "Segment 4 should be standard");
    assert!(block.segments[5].is_standard, "Segment 5 should be standard");
    assert!(block.segments[6].is_standard, "Segment 6 should be standard");

    let std_count = cm_detect::filter::count_standard_units(block);
    assert_eq!(std_count, 6, "Should count 6 standard units (not counting the 5s segment)");
}

#[test]
fn test_gap_of_one_unit_plus_tolerance_accepted() {
    // Center-to-center gap of exactly 15000 + 500 ms: one standard unit.
    let segments = vec![seg(0, 0), seg(15500, 15500)];
    let blocks = detect_blocks_range_based(&segments);
    assert_eq!(blocks.len(), 1);
    assert_eq!(blocks[0].segments.len(), 1);
    assert!(blocks[0].segments[0].is_standard);
}

#[test]
fn test_gap_just_past_tolerance_rejected() {
    // 15000 + 501 ms misses the target window by one millisecond.
    let segments = vec![seg(0, 0), seg(15501, 15501)];
    let blocks = detect_blocks_range_based(&segments);
    assert!(blocks.is_empty());
}

#[test]
fn test_gap_at_clamp_edge_accepted() {
    // 75500 ms: rounds to 5 units, lands on 75000 +- 500.
    let segments = vec![seg(0, 0), seg(75500, 75500)];
    let blocks = detect_blocks_range_based(&segments);
    assert_eq!(blocks.len(), 1);
    assert!(blocks[0].segments[0].is_standard);
}

#[test]
fn test_gap_past_clamp_edge_rejected() {
    // 75501 ms: still rounds to 5 units (expected 75000) but misses the
    // window by 501 ms.
    let segments = vec![seg(0, 0), seg(75501, 75501)];
    let blocks = detect_blocks_range_based(&segments);
    assert!(blocks.is_empty());
}

#[test]
fn test_gap_rounding_to_six_units_breaks_chain() {
    // 82500 ms rounds to 6 units, above the 5-unit cap: no block.
    let segments = vec![seg(0, 0), seg(82500, 82500)];
    let blocks = detect_blocks_range_based(&segments);
    assert!(blocks.is_empty());
}

#[test]
fn test_chain_longer_than_360s_rejected() {
    // A perfect 15 s chain spanning 435 s fails the sanity guard and
    // yields no provisional block at all.
    let mut segments = Vec::new();
    for i in 0..30i64 {
        segments.push(seg(i * 15000, i * 15000));
    }
    let blocks = detect_blocks_range_based(&segments);
    assert!(blocks.is_empty());
}

#[test]
fn test_point_silences_give_contiguous_segments() {
    // When every silence is a single instant, the hops tile the block
    // exactly: each starts where the one before it ended.
    let segments = vec![
        seg(500, 500),
        seg(15500, 15500),
        seg(30500, 30500),
        seg(45500, 45500),
        seg(60500, 60500),
        seg(75500, 75500),
    ];
    let blocks = detect_blocks_range_based(&segments);
    assert_eq!(blocks.len(), 1);
    let block = &blocks[0];
    assert_eq!(block.segments[0].start_ms, block.start_ms);
    assert_eq!(block.segments.last().unwrap().end_ms, block.end_ms);
    for pair in block.segments.windows(2) {
        assert_eq!(pair[0].end_ms, pair[1].start_ms);
    }
}

#[test]
fn test_detection_is_deterministic() {
    // Same silences in, same blocks out, field by field.
    let segments = vec![
        seg(0, 1000),
        seg(14500, 15500),
        seg(29500, 30500),
        seg(44500, 45500),
        seg(59500, 60500),
        seg(74500, 75500),
    ];
    let a = detect_blocks_range_based(&segments);
    let b = detect_blocks_range_based(&segments);
    assert_eq!(a.len(), b.len());
    for (x, y) in a.iter().zip(b.iter()) {
        assert_eq!(x.start_ms, y.start_ms);
        assert_eq!(x.end_ms, y.end_ms);
        assert_eq!(x.duration_ms, y.duration_ms);
        assert_eq!(x.segments.len(), y.segments.len());
        for (s, t) in x.segments.iter().zip(y.segments.iter()) {
            assert_eq!(s.start_ms, t.start_ms);
            assert_eq!(s.end_ms, t.end_ms);
            assert_eq!(s.duration_ms, t.duration_ms);
            assert_eq!(s.is_standard, t.is_standard);
        }
    }
}

#[test]
fn test_appending_non_matching_silence_keeps_blocks() {
    // A silence appended far past the chain neither removes nor reshapes
    // the block already found.
    let base = vec![
        seg(0, 1000),
        seg(14500, 15500),
        seg(29500, 30500),
        seg(44500, 45500),
        seg(59500, 60500),
        seg(74500, 75500),
    ];
    let mut extended = base.clone();
    extended.push(seg(200000, 201000));

    let before = detect_blocks_range_based(&base);
    let after = detect_blocks_range_based(&extended);
    assert_eq!(before.len(), after.len());
    assert_eq!(before[0].start_ms, after[0].start_ms);
    assert_eq!(before[0].end_ms, after[0].end_ms);
    assert_eq!(before[0].segments.len(), after[0].segments.len());
}
