use dinuc_collapse::threshold::{collapse_dinuct_threshold, parse_threshold, Threshold};

#[test]
fn threshold_test1() {
    let sequence = "ATATAGGGCGAGACCCCCGAGAGA";
    let x = collapse_dinuct_threshold(sequence, &Threshold::whole(22));
    assert_eq!(x, None);
}

#[test]
fn threshold_accepts_read_at_or_below_cutoff() {
    // three repeat windows of twelve: 25 percent
    let sequence = "ATATAGGGCGAGACCCCCGAGAGA";
    assert_eq!(
        collapse_dinuct_threshold(sequence, &Threshold::whole(25)),
        Some(String::from(sequence))
    );
    assert_eq!(
        collapse_dinuct_threshold(sequence, &Threshold::whole(30)),
        Some(String::from(sequence))
    );
    assert_eq!(collapse_dinuct_threshold(sequence, &Threshold::new(249, 10).unwrap()), None);
}

#[test]
fn threshold_boundary_is_strict() {
    // AT AT: one repeat window of two, 50 percent
    assert_eq!(
        collapse_dinuct_threshold("ATAT", &Threshold::whole(50)),
        Some(String::from("ATAT"))
    );
    assert_eq!(collapse_dinuct_threshold("ATAT", &Threshold::whole(49)), None);
}

#[test]
fn threshold_returns_read_unchanged_not_collapsed() {
    assert_eq!(
        collapse_dinuct_threshold("AGAGAGAGACGT", &Threshold::whole(90)),
        Some(String::from("AGAGAGAGACGT"))
    );
}

#[test]
fn threshold_without_complete_window_counts_as_zero() {
    assert_eq!(
        collapse_dinuct_threshold("", &Threshold::whole(1)),
        Some(String::new())
    );
    assert_eq!(
        collapse_dinuct_threshold("A", &Threshold::whole(1)),
        Some(String::from("A"))
    );
}

#[test]
fn threshold_ignores_trailing_odd_character() {
    // AT AT + A: 50 percent of the four paired characters
    assert_eq!(collapse_dinuct_threshold("ATATA", &Threshold::whole(49)), None);
}

#[test]
fn threshold_new_rejects_zero_denominator() {
    assert_eq!(Threshold::new(1, 0), None);
    assert_eq!(Threshold::new(3, 4), Some(Threshold { num: 3, den: 4 }));
    assert!(Threshold::whole(0).is_zero());
    assert!(!Threshold::whole(5).is_zero());
}

#[test]
fn parse_threshold_reads_decimals_exactly() {
    assert_eq!(parse_threshold("22"), Some(Threshold { num: 22, den: 1 }));
    assert_eq!(parse_threshold("22.5"), Some(Threshold { num: 225, den: 10 }));
    assert_eq!(parse_threshold("22."), Some(Threshold { num: 22, den: 1 }));
    assert_eq!(parse_threshold("0.05"), Some(Threshold { num: 5, den: 100 }));
    assert_eq!(parse_threshold("0"), Some(Threshold { num: 0, den: 1 }));
}

#[test]
fn parse_threshold_rejects_other_text() {
    assert_eq!(parse_threshold(""), None);
    assert_eq!(parse_threshold(".5"), None);
    assert_eq!(parse_threshold("-1"), None);
    assert_eq!(parse_threshold("1e3"), None);
    assert_eq!(parse_threshold("1.2.3"), None);
    assert_eq!(parse_threshold("NaN"), None);
}

#[test]
fn parse_threshold_rejects_overflow() {
    assert_eq!(parse_threshold("4294967295"), Some(Threshold { num: 4294967295, den: 1 }));
    assert_eq!(parse_threshold("4294967296"), None);
    assert_eq!(parse_threshold("0.0000000001"), None);
    assert_eq!(parse_threshold("0.000000001"), Some(Threshold { num: 1, den: 1000000000 }));
}
