use spike_envelope::calc::{conclude, count_outliers, validate, CalculationResult, SubRange, ValidationError};

#[test]
fn whole_series_of_one_to_ten() {
    // z-scores of 1..=10 reach 1.0 in magnitude for 1, 2, 9 and 10
    let flags = vec![true, true, false, false, false, false, false, false, true, true];
    let range = validate("0", "10", true, flags.len()).unwrap();
    assert_eq!(range, SubRange { start: 0, end: 10 });
    let r = conclude(range, &flags);
    assert_eq!(
        r,
        CalculationResult {
            population_outlier_total: 4,
            subrange_outlier_count: 4,
            trial_count: 10,
            expected_low: 2,
            expected_high: 6,
            hypothesis_holds: true,
        }
    );
}

#[test]
fn start_text_not_an_index() {
    assert_eq!(validate("abc", "10", true, 20), Err(ValidationError::StartRecError));
    assert_eq!(validate("", "10", true, 20), Err(ValidationError::StartRecError));
}

#[test]
fn end_text_not_an_index() {
    assert_eq!(validate("0", "-4", true, 20), Err(ValidationError::EndRecError));
}

#[test]
fn range_of_one_is_too_small() {
    assert_eq!(validate("5", "6", true, 20), Err(ValidationError::RangeTooSmallError));
    assert_eq!(validate("5", "7", true, 20), Err(ValidationError::RangeTooSmallError));
    assert_eq!(validate("9", "2", true, 20), Err(ValidationError::RangeTooSmallError));
    assert_eq!(validate("5", "8", true, 20), Ok(SubRange { start: 5, end: 8 }));
}

#[test]
fn negative_threshold_is_refused() {
    let ok = "-1".parse::<f64>().map(|t| t >= 0.0).unwrap_or(false);
    assert_eq!(validate("0", "5", ok, 20), Err(ValidationError::ThresholdError));
}

#[test]
fn dataset_shorter_than_end() {
    assert_eq!(validate("0", "10", true, 5), Err(ValidationError::DatasetTooSmallError));
    assert_eq!(validate("0", "10", true, 10), Ok(SubRange { start: 0, end: 10 }));
}

#[test]
fn earlier_gate_wins() {
    assert_eq!(validate("x", "y", false, 0), Err(ValidationError::StartRecError));
    assert_eq!(validate("1", "y", false, 0), Err(ValidationError::EndRecError));
    assert_eq!(validate("1", "2", false, 0), Err(ValidationError::RangeTooSmallError));
    assert_eq!(validate("1", "9", false, 0), Err(ValidationError::ThresholdError));
}

#[test]
fn outliers_counted_in_half_open_range() {
    let flags = vec![true, false, true, true, false, true];
    assert_eq!(count_outliers(&flags, 0, 6), 4);
    assert_eq!(count_outliers(&flags, 1, 4), 2);
    assert_eq!(count_outliers(&flags, 2, 2), 0);
}

#[test]
fn every_value_flagged_counts_every_value() {
    let flags = vec![true; 8];
    assert_eq!(count_outliers(&flags, 0, 8), 8);
    assert_eq!(count_outliers(&flags, 2, 7), 5);
}

#[test]
fn crowded_sub_range_rejects_hypothesis() {
    // 3 outliers among 30 values, all within the first three records
    let mut flags = vec![false; 30];
    flags[0] = true;
    flags[1] = true;
    flags[2] = true;
    let r = conclude(SubRange { start: 0, end: 3 }, &flags);
    // mean 0.3, sd sqrt(0.27) = 0.519..: floor(-0.22) = -1, ceil(0.82) = 1
    assert_eq!(r.population_outlier_total, 3);
    assert_eq!(r.subrange_outlier_count, 3);
    assert_eq!(r.trial_count, 3);
    assert_eq!((r.expected_low, r.expected_high), (-1, 1));
    assert!(!r.hypothesis_holds);
}
