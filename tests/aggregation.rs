use simm_analyse::corrupt::{generate_corruptability, Cell};
use simm_analyse::flip::{generate_flip_rates, FlipRate, TESTED_BITS};
use simm_analyse::record::Record;

fn rec(delay: usize, locs: &[&str], bits: usize) -> Record {
    Record {
        delay,
        corrupted_locations: locs.iter().map(|s| s.to_string()).collect(),
        bit_flip_count: bits,
    }
}

#[test]
fn flip_rate_example() {
    let rates = generate_flip_rates(&[rec(5, &["a", "b", "c"], 3), rec(5, &["a", "b", "c", "d", "e"], 5)]);
    assert_eq!(rates.len(), 1);
    assert_eq!(rates[0].delay, 5);
    assert_eq!(rates[0].numerator, 8);
    assert_eq!(rates[0].denominator, 2 * TESTED_BITS as u128);
    // With eight tested bits the same sums give one half.
    let count = rates[0].denominator / TESTED_BITS as u128;
    assert_eq!(rates[0].numerator as f64 / (count * 8) as f64, 0.5);
}

#[test]
fn flip_rates_sorted_by_delay() {
    let rates = generate_flip_rates(&[rec(30, &[], 0), rec(10, &["x"], 1), rec(20, &[], 0), rec(10, &[], 0)]);
    assert_eq!(
        rates,
        vec![
            FlipRate { delay: 10, numerator: 1, denominator: 2 * 32768 },
            FlipRate { delay: 20, numerator: 0, denominator: 32768 },
            FlipRate { delay: 30, numerator: 0, denominator: 32768 },
        ]
    );
}

#[test]
fn flip_rates_of_nothing() {
    assert!(generate_flip_rates(&[]).is_empty());
}

#[test]
fn corruptability_table_cells_and_order() {
    let records = [
        rec(20, &["b", "a"], 2),
        rec(10, &["c"], 1),
        rec(20, &["b"], 1),
        rec(10, &[], 0),
        rec(30, &[], 0),
    ];
    let t = generate_corruptability(&records).unwrap();
    // Delay 30 has no corruption, so no column.
    assert_eq!(t.delays, vec![10, 20]);
    // c first seen at 10; b and a at 20, b corrupted more often there.
    assert_eq!(t.locations, vec!["c".to_string(), "b".to_string(), "a".to_string()]);
    assert_eq!(t.cells[0], vec![Cell { numerator: 1, denominator: 2 }, Cell { numerator: 0, denominator: 2 }]);
    assert_eq!(t.cells[1], vec![Cell { numerator: 0, denominator: 2 }, Cell { numerator: 2, denominator: 2 }]);
    assert_eq!(t.cells[2], vec![Cell { numerator: 0, denominator: 2 }, Cell { numerator: 1, denominator: 2 }]);
}

#[test]
fn equal_keys_fall_back_to_location_order() {
    let t = generate_corruptability(&[rec(1, &["z", "m"], 2)]).unwrap();
    assert_eq!(t.locations, vec!["m".to_string(), "z".to_string()]);
}

#[test]
fn truncated_record_excludes_later_locations_from_denominator() {
    let full: Vec<String> = (0..31).map(|i| format!("{:02}", i)).collect();
    let refs: Vec<&str> = full.iter().map(|s| s.as_str()).collect();
    let truncated = rec(4, &refs, 40);
    let records = [truncated, rec(4, &["99"], 1)];
    let t = generate_corruptability(&records).unwrap();
    assert_eq!(t.delays, vec![4]);
    let row = t.locations.iter().position(|l| l == "99").unwrap();
    assert_eq!(t.cells[row][0], Cell { numerator: 1, denominator: 1 });
    let row = t.locations.iter().position(|l| l == "30").unwrap();
    assert_eq!(t.cells[row][0], Cell { numerator: 1, denominator: 2 });
}

#[test]
fn undefined_rank_is_reported() {
    // The ceiling of this truncated list is "29", so "zz" is never known.
    let mut list: Vec<String> = (0..30).map(|i| format!("{:02}", i)).collect();
    list.insert(29, "zz".to_string());
    let refs: Vec<&str> = list.iter().map(|s| s.as_str()).collect();
    let e = generate_corruptability(&[rec(3, &refs, 31)]).unwrap_err();
    assert_eq!(e.location, "zz");
    assert_eq!(e.delay, 3);
}

#[test]
fn rows_are_deterministic() {
    let records = [rec(2, &["q", "r", "s"], 3), rec(1, &["s"], 1), rec(2, &["r"], 1)];
    let a = generate_corruptability(&records).unwrap();
    let b = generate_corruptability(&records).unwrap();
    assert_eq!(a.locations, b.locations);
    assert_eq!(a.locations, vec!["s".to_string(), "r".to_string(), "q".to_string()]);
}

#[test]
fn empty_batch_gives_empty_table() {
    let t = generate_corruptability(&[]).unwrap();
    assert!(t.delays.is_empty() && t.locations.is_empty() && t.cells.is_empty());
}
