use simm_analyse::loader::{load_records, InputFormatError};
use simm_analyse::record::{parse_record, FormatError, Record};

fn locations(r: &Record) -> Vec<&str> {
    r.corrupted_locations.iter().map(|s| s.as_str()).collect()
}

#[test]
fn single_last_block_parses() {
    let recs = load_records("Delay: 10, Pattern: 0\nA,B,\nDiffs: 2\n").unwrap();
    assert_eq!(recs.len(), 1);
    assert_eq!(recs[0].delay, 10);
    assert_eq!(locations(&recs[0]), vec!["A", "B"]);
    assert_eq!(recs[0].bit_flip_count, 2);
}

#[test]
fn trailing_empty_line_is_tolerated() {
    let three = parse_record("Delay: 7, Pattern: 3\nx1,x2,x3,\nDiffs: 3").unwrap();
    let four = parse_record("Delay: 7, Pattern: 3\nx1,x2,x3,\nDiffs: 3\n").unwrap();
    assert_eq!(three.delay, four.delay);
    assert_eq!(locations(&three), locations(&four));
    assert_eq!(three.bit_flip_count, four.bit_flip_count);
}

#[test]
fn truncated_list_allows_more_flips() {
    let locs: Vec<String> = (0..31).map(|i| format!("{:04x}", i)).collect();
    let block = format!("Delay: 1, Pattern: 2\n{},\nDiffs: 50", locs.join(","));
    let r = parse_record(&block).unwrap();
    assert_eq!(r.corrupted_locations.len(), 31);
    assert_eq!(r.bit_flip_count, 50);
}

#[test]
fn missing_diffs_line_is_rejected() {
    assert_eq!(parse_record("Delay: 1, Pattern: 2\nA,").unwrap_err(), FormatError::LineCount);
}

#[test]
fn nonempty_fourth_line_is_rejected() {
    assert_eq!(parse_record("Delay: 1, Pattern: 2\nA,\nDiffs: 1\nx").unwrap_err(), FormatError::LineCount);
}

#[test]
fn bad_delay_lines_are_rejected() {
    for line in ["Delay: , Pattern: 0", "Delay: 1,Pattern: 0", "Delay: 1, Pattern: x", "delay: 1, Pattern: 0", "Delay: 99999999999999999999999, Pattern: 0"] {
        let block = format!("{}\nA,\nDiffs: 1", line);
        assert_eq!(parse_record(&block).unwrap_err(), FormatError::DelayLine, "{}", line);
    }
}

#[test]
fn empty_pattern_field_is_rejected() {
    assert_eq!(parse_record("Delay: 1, Pattern: \nA,\nDiffs: 1").unwrap_err(), FormatError::DelayLine);
}

#[test]
fn leading_zeros_and_empty_list_are_accepted() {
    let r = parse_record("Delay: 0012, Pattern: 0\n\nDiffs: 0").unwrap();
    assert_eq!(r.delay, 12);
    assert!(r.corrupted_locations.is_empty());
    assert_eq!(r.bit_flip_count, 0);
}

#[test]
fn unterminated_location_list_is_rejected() {
    assert_eq!(parse_record("Delay: 1, Pattern: 2\nA,B\nDiffs: 2").unwrap_err(), FormatError::LocationList);
}

#[test]
fn bad_diffs_lines_are_rejected() {
    for line in ["Diffs: ", "Diffs: 1x", "Diffs:1", "Diffs: -1"] {
        let block = format!("Delay: 1, Pattern: 2\nA,\n{}", line);
        assert_eq!(parse_record(&block).unwrap_err(), FormatError::DiffsLine, "{}", line);
    }
}

#[test]
fn short_list_must_match_flip_count() {
    assert_eq!(parse_record("Delay: 1, Pattern: 2\nA,B,\nDiffs: 3").unwrap_err(), FormatError::Truncation);
}

#[test]
fn blocks_are_split_on_separator_line() {
    let sep = format!("\n{}\n", "-".repeat(32));
    let text = format!("Delay: 5, Pattern: 0\nA,\nDiffs: 1{}Delay: 6, Pattern: 1\n\nDiffs: 0\n", sep);
    let recs = load_records(&text).unwrap();
    assert_eq!(recs.len(), 2);
    assert_eq!(recs[0].delay, 5);
    assert_eq!(locations(&recs[0]), vec!["A"]);
    assert_eq!(recs[1].delay, 6);
    assert!(recs[1].corrupted_locations.is_empty());
}

#[test]
fn loader_reports_first_bad_block() {
    let sep = format!("\n{}\n", "-".repeat(32));
    let text = format!("Delay: 5, Pattern: 0\nA,\nDiffs: 1{}Delay: 6, Pattern: 1\nA,\nDiffs: 9{}junk", sep, sep);
    assert_eq!(load_records(&text).unwrap_err(), InputFormatError { block: 1, kind: FormatError::Truncation });
}

#[test]
fn round_trip_of_rendered_block() {
    let locs = vec!["0010".to_string(), "000f".to_string(), "0a00".to_string()];
    let block = format!("Delay: {}, Pattern: {}\n{},\nDiffs: {}", 1234, 7, locs.join(","), 3);
    let r = parse_record(&block).unwrap();
    assert_eq!(r.delay, 1234);
    assert_eq!(r.corrupted_locations, locs);
    assert_eq!(r.bit_flip_count, 3);
}
