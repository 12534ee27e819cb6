use simm_analyse::flip::FlipRate;
use simm_analyse::report::{corruptability_header, corruptability_row, decimal_string, flip_rate_delays, join_fields};

#[test]
fn decimal_strings() {
    assert_eq!(decimal_string(0), "0");
    assert_eq!(decimal_string(7), "7");
    assert_eq!(decimal_string(1200), "1200");
    assert_eq!(decimal_string(usize::MAX), usize::MAX.to_string());
}

#[test]
fn header_lists_delays_after_empty_cell() {
    assert_eq!(corruptability_header(&vec![5, 10, 300]), ", 5, 10, 300");
    assert_eq!(corruptability_header(&vec![]), ", ");
}

#[test]
fn row_starts_with_location() {
    let f = vec!["0.5".to_string(), "1".to_string()];
    assert_eq!(corruptability_row(&"0x1f".to_string(), &f), "0x1f, 0.5, 1");
}

#[test]
fn flip_rate_lines() {
    let rates = vec![
        FlipRate { delay: 5, numerator: 1, denominator: 2 },
        FlipRate { delay: 60, numerator: 1, denominator: 2 },
    ];
    assert_eq!(flip_rate_delays(&rates), "5,60");
    assert_eq!(join_fields(&vec!["0.5".to_string(), "0.25".to_string()], ","), "0.5,0.25");
    assert_eq!(join_fields(&vec![], ","), "");
}
