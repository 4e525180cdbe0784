use backscan::retry::{RetryState, BACKOFF_SECS, MAX_ATTEMPTS};

#[test]
fn five_failures_exhaust_the_budget() {
    // A remote call that fails five consecutive times fails the operation;
    // a sixth attempt is never allowed.
    let mut r = RetryState::new();
    assert_eq!(r.remaining, 5);
    for _ in 0..4 {
        // Failures one to four each allow another attempt.
        assert!(r.on_failure());
    }
    // The fifth failure exhausts the budget.
    assert!(!r.on_failure());
    assert_eq!(r.remaining, 0);
    // And it stays exhausted.
    assert!(!r.on_failure());
}

#[test]
fn backoff_is_fixed() {
    let r = RetryState::new();
    assert_eq!(r.backoff_secs(), 10);
    assert_eq!(BACKOFF_SECS, 10);
    assert_eq!(MAX_ATTEMPTS, 5);
}
