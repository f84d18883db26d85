use slide::schedule::{maintenance_flags, period_ends, reshuffle_due};

#[test]
fn period_ends_on_last_iteration() {
    assert!(!period_ends(0, 3));
    assert!(!period_ends(1, 3));
    assert!(period_ends(2, 3));
    assert!(period_ends(5, 3));
    assert!(period_ends(0, 1));
}

#[test]
fn reshuffle_every_period() {
    assert!(!reshuffle_due(0));
    assert!(reshuffle_due(6945));
    assert!(!reshuffle_due(6946));
    assert!(reshuffle_due(2 * 6946 + 6945));
}

#[test]
fn maintenance_follows_case_counts() {
    // 6400 / 128 = 50 iterations per rehash, 128000 / 128 = 1000 per rebuild.
    assert_eq!(maintenance_flags(48, 128, 6400, 128000), (false, false));
    assert_eq!(maintenance_flags(49, 128, 6400, 128000), (true, false));
    assert_eq!(maintenance_flags(999, 128, 6400, 128000), (true, true));
    assert_eq!(maintenance_flags(1000, 128, 6400, 128000), (false, false));
}
