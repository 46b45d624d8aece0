use raspi::digits::{parse_u64, u64_to_string};
use raspi::segments::{
    encode_row, parse_row, parse_segment_file_name, resume_segment_start, rotation_decision,
    segment_file_name, select_segments, RotationDecision,
};

#[test]
fn counter_text_round_trips() {
    assert_eq!(u64_to_string(0), "0");
    assert_eq!(u64_to_string(42), "42");
    assert_eq!(u64_to_string(18446744073709551615), "18446744073709551615");
    assert_eq!(parse_u64("0"), Some(0));
    assert_eq!(parse_u64("007"), Some(7));
    assert_eq!(parse_u64("18446744073709551615"), Some(u64::MAX));
    assert_eq!(parse_u64("18446744073709551616"), None);
    assert_eq!(parse_u64(""), None);
    assert_eq!(parse_u64("12a"), None);
    assert_eq!(parse_u64("-3"), None);
}

#[test]
fn segment_file_names_round_trip() {
    assert_eq!(segment_file_name(1700000000), "1700000000.csv");
    assert_eq!(parse_segment_file_name("1700000000.csv"), Some(1700000000));
    assert_eq!(parse_segment_file_name("readme.txt"), None);
    assert_eq!(parse_segment_file_name(".csv"), None);
    assert_eq!(parse_segment_file_name("12x.csv"), None);
    assert_eq!(parse_segment_file_name("007.csv"), Some(7), "leading zeros read as the original did");
    assert_eq!(parse_segment_file_name("+7.csv"), Some(7));
    assert_eq!(parse_segment_file_name("+.csv"), None);
}

#[test]
fn row_encoding_round_trips() {
    let values = vec![Some(f64::to_bits(19.25)), None, Some(f64::to_bits(-3.5))];
    let line = encode_row(1700000100, &values);
    let row = parse_row(line.as_str(), 3).unwrap();
    assert_eq!(row.timestamp, 1700000100);
    assert_eq!(row.values.len(), 3);
    assert_eq!(row.values[0].map(f64::from_bits), Some(19.25));
    assert_eq!(row.values[1], None);
    assert_eq!(row.values[2].map(f64::from_bits), Some(-3.5));
}

#[test]
fn encoded_row_shape_is_flat_text() {
    let line = encode_row(5, &vec![Some(70), None]);
    assert_eq!(line, "5;70;");
}

#[test]
fn short_rows_are_padded_not_rejected() {
    let row = parse_row("7;42", 3).unwrap();
    assert_eq!(row.timestamp, 7);
    assert_eq!(row.values, vec![Some(42), None, None]);
    let bare = parse_row("9", 2).unwrap();
    assert_eq!(bare.timestamp, 9);
    assert_eq!(bare.values, vec![None, None]);
}

#[test]
fn empty_fields_are_missing_values() {
    let row = parse_row("9;;7", 2).unwrap();
    assert_eq!(row.values, vec![None, Some(7)]);
}

#[test]
fn corrupt_rows_are_rejected() {
    assert!(parse_row("abc;1", 2).is_none());
    assert!(parse_row("", 2).is_none());
    assert!(parse_row("5;1.5", 2).is_none());
    assert!(parse_row("1;2;3;4", 2).is_none(), "more columns than the catalog has");
}

#[test]
fn segment_selection_scans_only_the_needed_slice() {
    let starts: Vec<u64> = vec![10, 20, 30];
    assert_eq!(select_segments(&starts, 15, 25), (0, 2));
    assert_eq!(select_segments(&starts, 5, 8), (0, 0));
    assert_eq!(select_segments(&starts, 35, 40), (2, 3));
    assert_eq!(select_segments(&starts, 20, 20), (1, 2));
    let none: Vec<u64> = vec![];
    assert_eq!(select_segments(&none, 1, 2), (0, 0));
}

#[test]
fn startup_resumes_recent_segment_or_starts_fresh() {
    assert_eq!(resume_segment_start(&vec![100, 200], 250, 100), 200);
    assert_eq!(resume_segment_start(&vec![100, 200], 350, 100), 350);
    assert_eq!(resume_segment_start(&vec![], 77, 100), 77);
}

#[test]
fn rotation_triggers_after_period_and_detects_conflicts() {
    assert_eq!(rotation_decision(&vec![100], 100, 150, 100), RotationDecision::Keep);
    assert_eq!(rotation_decision(&vec![100], 100, 200, 100), RotationDecision::Keep);
    assert_eq!(rotation_decision(&vec![100], 100, 201, 100), RotationDecision::StartNew(201));
    assert_eq!(
        rotation_decision(&vec![100, 201], 100, 201, 100),
        RotationDecision::AlreadyExists(201)
    );
}
