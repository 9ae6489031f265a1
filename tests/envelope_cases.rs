use spike_envelope::envelope::{estimate, Envelope};

#[test]
fn envelope_of_ten_trials_at_rate_four_tenths() {
    // mean 4, sd sqrt(2.4) = 1.549..: floor(2.45) = 2, ceil(5.55) = 6
    assert_eq!(estimate(10, 4, 10), Envelope { low: 2, high: 6 });
}

#[test]
fn envelope_low_end_goes_negative() {
    // mean 0.03, sd 0.172..: floor(-0.142) = -1, ceil(0.202) = 1
    assert_eq!(estimate(3, 1, 100), Envelope { low: -1, high: 1 });
}

#[test]
fn envelope_with_no_outliers_is_zero() {
    assert_eq!(estimate(10, 0, 10), Envelope { low: 0, high: 0 });
}

#[test]
fn envelope_with_only_outliers_is_the_trial_count() {
    assert_eq!(estimate(7, 20, 20), Envelope { low: 7, high: 7 });
}

#[test]
fn envelope_is_symmetric_about_a_whole_mean() {
    // mean 5, sd sqrt(2.5) = 1.58..
    let e = estimate(10, 5, 10);
    assert_eq!(e, Envelope { low: 3, high: 7 });
    assert_eq!(e.low + e.high, 10);
    // mean 2, sd sqrt(1.6) = 1.26..
    let f = estimate(10, 20, 100);
    assert_eq!(f, Envelope { low: 0, high: 4 });
}

#[test]
fn envelope_matches_floating_point_formula() {
    for &(n, k, t) in &[(3usize, 2usize, 9usize), (12, 5, 40), (50, 13, 77), (100, 1, 1000)] {
        let p = k as f64 / t as f64;
        let mean = n as f64 * p;
        let sd = (mean * (1.0 - p)).sqrt();
        let e = estimate(n, k, t);
        assert_eq!(e.low as f64, (mean - sd).floor());
        assert_eq!(e.high as f64, (mean + sd).ceil());
    }
}

#[test]
fn envelope_contains_both_ends() {
    let e = Envelope { low: 2, high: 6 };
    assert!(e.contains(2));
    assert!(e.contains(6));
    assert!(!e.contains(1));
    assert!(!e.contains(7));
    let below = Envelope { low: -1, high: 1 };
    assert!(below.contains(0));
}
