use bookfinder::limiter::{
    admission_step, backoff_secs, AdmissionStep, RateLimiter, BACKOFF_CAP_SECS, MAX_ATTEMPTS,
};

#[test]
fn fresh_limiter_admits_within_ceilings() {
    let mut l = RateLimiter::new(2, 1000, 100, 1000);
    assert!(l.evaluate(1000, 10));
    assert!(l.evaluate(1001, 10));
    assert_eq!(l.req_window, 2);
    assert_eq!(l.token_window, 20);
}

#[test]
fn request_ceiling_is_enforced_within_one_window() {
    let mut l = RateLimiter::new(2, 1000, 1000, 1000);
    let mut admitted = 0;
    for t in 0..10u64 {
        if l.evaluate(1000 + t, 1) {
            admitted += 1;
        }
    }
    assert_eq!(admitted, 2);
}

#[test]
fn token_ceiling_is_enforced_within_one_window() {
    let mut l = RateLimiter::new(100, 1000, 25, 1000);
    let mut admitted_tokens = 0;
    for t in 0..10u64 {
        if l.evaluate(1000 + t, 10) {
            admitted_tokens += 10;
        }
    }
    assert_eq!(admitted_tokens, 20);
}

#[test]
fn gap_resets_both_windows() {
    let mut l = RateLimiter::new(1, 1000, 10, 1000);
    assert!(l.evaluate(1000, 10));
    assert!(!l.evaluate(1001, 10));
    // more than a full window with no requests: admitted again
    assert!(l.evaluate(1100, 10));
    assert_eq!(l.req_window, 1);
    assert_eq!(l.token_window, 10);
    assert_eq!(l.window_start, 1100);
    assert_eq!(l.last_request, 1100);
}

#[test]
fn rpd_stub_always_passes() {
    let l = RateLimiter::new(1, 1, 1, 0);
    assert!(l.is_allowed_rpd(0));
    assert!(l.is_allowed_rpd(123456));
}

#[test]
fn rpm_check_applies_window_rule() {
    let mut l = RateLimiter::new(3, 1000, 100, 500);
    assert!(l.is_allowed_rpm(510));
    assert!(l.is_allowed_rpm(520));
    assert!(l.is_allowed_rpm(530));
    assert!(!l.is_allowed_rpm(540));
    // a gap of more than the window grants unconditionally
    assert!(l.is_allowed_rpm(700));
    assert_eq!(l.req_window, 1);
}

#[test]
fn tpm_check_applies_window_rule() {
    let mut l = RateLimiter::new(100, 1000, 30, 500);
    assert!(l.is_allowed_tpm(510, 20));
    assert!(!l.is_allowed_tpm(520, 20));
    assert_eq!(l.token_window, 40);
}

#[test]
fn admission_denied_when_schedule_exhausted() {
    let mut l = RateLimiter::new(1, 1000, 1000, 0);
    assert!(l.request_admission(&vec![10], 5));
    // every retry falls inside the same window: denied
    assert!(!l.request_admission(&vec![11, 13, 17, 25, 41], 5));
}

#[test]
fn admission_granted_after_gap_in_schedule() {
    let mut l = RateLimiter::new(1, 1000, 1000, 0);
    assert!(l.request_admission(&vec![10], 5));
    // the second attempt falls after a gap of more than one window
    assert!(l.request_admission(&vec![11, 100], 5));
}

#[test]
fn empty_schedule_is_denied() {
    let mut l = RateLimiter::new(10, 10, 10, 0);
    assert!(!l.request_admission(&vec![], 1));
}

#[test]
fn backoff_is_exponential_and_capped() {
    assert_eq!(backoff_secs(0), 1);
    assert_eq!(backoff_secs(1), 2);
    assert_eq!(backoff_secs(2), 4);
    assert_eq!(backoff_secs(3), 8);
    assert_eq!(backoff_secs(4), 16);
    assert_eq!(backoff_secs(5), 32);
    assert_eq!(backoff_secs(6), BACKOFF_CAP_SECS);
    assert_eq!(backoff_secs(9), BACKOFF_CAP_SECS);
    assert_eq!(backoff_secs(31), BACKOFF_CAP_SECS);
}

#[test]
fn admission_state_machine_moves() {
    assert_eq!(admission_step(true, 0, MAX_ATTEMPTS), AdmissionStep::Admitted);
    assert_eq!(admission_step(true, 9, MAX_ATTEMPTS), AdmissionStep::Admitted);
    assert_eq!(admission_step(false, 0, MAX_ATTEMPTS), AdmissionStep::Backoff(1));
    assert_eq!(admission_step(false, 5, MAX_ATTEMPTS), AdmissionStep::Backoff(32));
    assert_eq!(admission_step(false, 8, MAX_ATTEMPTS), AdmissionStep::Backoff(60));
    assert_eq!(admission_step(false, 9, MAX_ATTEMPTS), AdmissionStep::Denied);
}
