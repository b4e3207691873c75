use cm_detect::ingest::{detect_start_offset_ms, is_ascii_line};
use cm_detect::merge::check_short_units_in_gap;
use cm_detect::types::{Range, SilenceSegment};
use cm_detect::units::{coarse_unit_count, expected_interval_ms, is_short_unit_ms};

fn seg(start_ms: i64, end_ms: i64) -> SilenceSegment {
    SilenceSegment { start_ms, end_ms, duration_ms: end_ms - start_ms }
}

#[test]
fn test_detect_start_offset_ms() {
    let segments = vec![
        SilenceSegment { start_ms: 0, end_ms: 400, duration_ms: 400 },
        SilenceSegment { start_ms: 1900, end_ms: 2100, duration_ms: 200 },
        SilenceSegment { start_ms: 9000, end_ms: 9050, duration_ms: 50 },
    ];
    assert_eq!(detect_start_offset_ms(&segments), Some(2000));
}

#[test]
fn test_coarse_unit_count() {
    // 29s -> 29/15 = 1.93 -> 2 units
    assert_eq!(coarse_unit_count(29000), Some(2));
    // 44s -> 44/15 = 2.93 -> 3 units
    assert_eq!(coarse_unit_count(44000), Some(3));
    // 59s -> 59/15 = 3.93 -> 4 units
    assert_eq!(coarse_unit_count(59000), Some(4));
    // 15s -> exactly 1 unit
    assert_eq!(coarse_unit_count(15000), Some(1));
    // 30s -> exactly 2 units
    assert_eq!(coarse_unit_count(30000), Some(2));
    // 75s -> exactly 5 units (max allowed)
    assert_eq!(coarse_unit_count(75000), Some(5));
    // 90s -> 6 units -> None (exceeds the 5-unit cap)
    assert_eq!(coarse_unit_count(90000), None);
    // 105s -> 7 units -> None
    assert_eq!(coarse_unit_count(105000), None);
}

#[test]
fn test_range_intersect() {
    let r1 = Range::new(100, 200);
    let r2 = Range::new(150, 250);
    let intersection = r1.intersect(&r2);
    assert!(intersection.is_some());
    let i = intersection.unwrap();
    assert_eq!(i.start, 150);
    assert_eq!(i.end, 200);

    // No intersection
    let r3 = Range::new(300, 400);
    assert!(r1.intersect(&r3).is_none());
}

#[test]
fn test_range_offset() {
    let r = Range::new(100, 200);
    let offset_r = r.offset(15000);
    assert_eq!(offset_r.start, 15100);
    assert_eq!(offset_r.end, 15200);
}

#[test]
fn test_is_short_unit() {
    assert!(is_short_unit_ms(5000));
    assert!(is_short_unit_ms(5300));
    assert!(is_short_unit_ms(4700));
    assert!(is_short_unit_ms(10000));
    assert!(is_short_unit_ms(10400));
    assert!(!is_short_unit_ms(7000));
    assert!(!is_short_unit_ms(15000));
}

#[test]
fn test_is_ascii_line() {
    assert!(is_ascii_line("silence_start: 1.25"));
    assert!(is_ascii_line(""));
    assert!(!is_ascii_line("caf\u{e9} silence_start: 1.25"));
}

#[test]
fn test_start_offset_window_is_inclusive() {
    // Centers exactly on the window edges are accepted; outside, not.
    let at_low_edge = vec![seg(1500, 2500)];
    assert_eq!(detect_start_offset_ms(&at_low_edge), Some(2000));
    let at_high_edge = vec![seg(7500, 8500)];
    assert_eq!(detect_start_offset_ms(&at_high_edge), Some(8000));
    let below = vec![seg(1400, 2400)]; // center 1900
    assert_eq!(detect_start_offset_ms(&below), None);
    let above = vec![seg(7600, 8600)]; // center 8100
    assert_eq!(detect_start_offset_ms(&above), None);
}

#[test]
fn test_expected_interval_values() {
    assert_eq!(expected_interval_ms(15000), Some(15000));
    assert_eq!(expected_interval_ms(29000), Some(30000));
    assert_eq!(expected_interval_ms(75500), Some(75000));
    assert_eq!(expected_interval_ms(90000), None);
}

#[test]
fn test_gap_boundaries_for_coarse_units() {
    // 75500 ms still rounds to 5 units; 75501 does too (and fails later
    // only by tolerance); 82500 rounds to 6 and is rejected outright.
    assert_eq!(coarse_unit_count(75500), Some(5));
    assert_eq!(coarse_unit_count(75501), Some(5));
    assert_eq!(coarse_unit_count(82499), Some(5));
    assert_eq!(coarse_unit_count(82500), None);
}

#[test]
fn test_check_short_units_in_gap_without_silences() {
    // A bare gap must itself be one short unit.
    let empty: Vec<SilenceSegment> = Vec::new();
    assert!(check_short_units_in_gap(&empty, 0, 5000));
    assert!(check_short_units_in_gap(&empty, 0, 10400));
    assert!(!check_short_units_in_gap(&empty, 0, 5501));
    assert!(!check_short_units_in_gap(&empty, 0, 20000));
}

#[test]
fn test_check_short_units_in_gap_with_silences() {
    // With a whole silence inside, the gap may be any 1..=6 short units
    // within the scaled tolerance n * 500 ms.
    let inside = vec![seg(8000, 9000)];
    assert!(check_short_units_in_gap(&inside, 0, 20000)); // 2 x 10 s
    assert!(check_short_units_in_gap(&inside, 0, 31000)); // 3 x 10 s within 1.5 s
    assert!(!check_short_units_in_gap(&inside, 0, 13000));
    assert!(!check_short_units_in_gap(&inside, 0, 37000));
}
