use nexus_viewer::runs::{
    asked_run_count, asks_for_every_run, is_asked_for, merged_run_count, parse_run_ranges,
    trailing_number,
};

#[test]
fn parse_ranges() {
    assert_eq!(parse_run_ranges("26871"), Some(vec![(26871, 26871)]));
    assert_eq!(
        parse_run_ranges("26871-26970, 27012 27040-27045"),
        Some(vec![(26871, 26970), (27012, 27012), (27040, 27045)])
    );
    // Reversed bounds are normalized.
    assert_eq!(parse_run_ranges("30-10"), Some(vec![(10, 30)]));
    assert_eq!(parse_run_ranges(""), None);
    assert_eq!(parse_run_ranges("abc"), None);
    assert_eq!(parse_run_ranges("26871-"), None);
}

#[test]
fn trailing_numbers() {
    assert_eq!(trailing_number("VENUS_26871"), Some(26871));
    assert_eq!(trailing_number("run42"), Some(42));
    assert_eq!(trailing_number("VENUS_"), None);
    assert_eq!(trailing_number(""), None);
}

#[test]
fn merged_run_counts() {
    assert_eq!(merged_run_count(&[(10, 20)]), 11);
    // Overlapping and duplicate ranges count each run once.
    assert_eq!(merged_run_count(&[(10, 20), (15, 25), (15, 25)]), 16);
    assert_eq!(merged_run_count(&[(30, 30), (10, 20)]), 12);
}

#[test]
fn run_lists_are_split_at_commas_and_spaces() {
    assert_eq!(parse_run_ranges(" 1,,2\t3 ,\n4-6 "), Some(vec![(1, 1), (2, 2), (3, 3), (4, 6)]));
    assert_eq!(parse_run_ranges(" , , "), None);
    assert_eq!(parse_run_ranges("7 8x"), None);
    assert_eq!(parse_run_ranges("1-2-3"), None);
    assert_eq!(parse_run_ranges("-5"), None);
    assert_eq!(parse_run_ranges("10 - 20"), None);
    assert_eq!(parse_run_ranges("+5"), Some(vec![(5, 5)]));
    assert_eq!(parse_run_ranges("18446744073709551615"), Some(vec![(u64::MAX, u64::MAX)]));
    assert_eq!(parse_run_ranges("18446744073709551616"), None);
}

#[test]
fn parsed_ranges_have_their_bounds_in_order() {
    for list in ["9-1", "1-9", "5", "300-20, 7-7"] {
        for (lo, hi) in parse_run_ranges(list).unwrap() {
            assert!(lo <= hi);
        }
    }
}

#[test]
fn trailing_numbers_read_back() {
    for n in [0u64, 7, 26871, u64::MAX] {
        assert_eq!(trailing_number(&format!("VENUS_{n}")), Some(n));
    }
    assert_eq!(trailing_number("a0012"), Some(12));
    assert_eq!(trailing_number("x99999999999999999999999"), None);
    assert_eq!(trailing_number("x1y"), None);
}

#[test]
fn asked_runs_are_counted_and_recognized() {
    let ranges = [(10, 20), (15, 25), (40, 40)];
    assert!(is_asked_for(&ranges, 10));
    assert!(is_asked_for(&ranges, 25));
    assert!(is_asked_for(&ranges, 40));
    assert!(!is_asked_for(&ranges, 26));
    assert_eq!(merged_run_count(&ranges), 17);
    assert_eq!(merged_run_count(&[]), 0);
    assert_eq!(merged_run_count(&[(1, u64::MAX)]), u64::MAX);
    assert!(asks_for_every_run(&[(0, u64::MAX)]));
    assert!(asks_for_every_run(&[(0, 5), (6, u64::MAX)]));
    assert!(!asks_for_every_run(&[(1, u64::MAX)]));
    assert_eq!(asked_run_count(&[(0, u64::MAX)]), 1u128 << 64);
}
