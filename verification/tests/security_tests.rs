use authkit::compute_delay;
use authkit::security::{Challenge, RateLimiter};

#[test]
fn rate_limiter_fixed_window() {
    let mut limiter = RateLimiter::new(3, 60);
    assert!(limiter.is_allowed_at("user", 100));
    assert!(limiter.is_allowed_at("user", 110));
    assert!(limiter.is_allowed_at("user", 120));
    assert!(!limiter.is_allowed_at("user", 130));
    // still denied while the window is open, even exactly at its edge
    assert!(!limiter.is_allowed_at("user", 160));
    // once the window has fully elapsed the count resets
    assert!(limiter.is_allowed_at("user", 161));
    assert!(limiter.is_allowed_at("user", 162));
}

#[test]
fn rate_limiter_counts_identities_separately() {
    let mut limiter = RateLimiter::new(1, 60);
    assert!(limiter.is_allowed_at("alice", 0));
    assert!(!limiter.is_allowed_at("alice", 1));
    assert!(limiter.is_allowed_at("bob", 1));
    assert!(!limiter.is_allowed_at("bob", 2));
}

#[test]
fn rate_limiter_with_zero_budget_denies_at_once() {
    let mut limiter = RateLimiter::new(0, 60);
    assert!(!limiter.is_allowed_at("user", 0));
    assert!(!limiter.is_allowed_at("user", 1));
}

#[test]
fn rate_limiter_live_clock() {
    let mut limiter = RateLimiter::new(2, 60);
    assert!(limiter.is_allowed("user"));
    assert!(limiter.is_allowed("user"));
    assert!(!limiter.is_allowed("user"));
}

#[test]
fn backoff_delays() {
    assert_eq!(compute_delay(0), 0);
    assert_eq!(compute_delay(1), 2);
    assert_eq!(compute_delay(2), 4);
    assert_eq!(compute_delay(3), 8);
    assert_eq!(compute_delay(4), 16);
    assert_eq!(compute_delay(5), 32);
    assert_eq!(compute_delay(10), 32);
    assert_eq!(compute_delay(u32::MAX), 32);
}

#[test]
fn challenge_checks_the_exact_sum() {
    let c = Challenge::new(3, 4);
    assert_eq!(c.question, "What is 3 + 4?");
    assert_eq!(c.expected_answer, "7");
    assert!(c.check("7"));
    assert!(c.check("  7\n"));
    assert!(c.check("7\u{000C}"));
    assert!(c.check("\u{00A0}7\u{00A0}"));
    assert!(!c.check("8"));
    assert!(!c.check(""));
    assert!(!c.check("seven"));
    assert!(!c.check("7 7"));
}

#[test]
fn challenge_two_digit_sum() {
    let c = Challenge::new(9, 9);
    assert_eq!(c.question, "What is 9 + 9?");
    assert!(c.check("18"));
    assert!(!c.check("1 8"));
}

#[test]
fn generated_challenge_is_well_formed() {
    let c = Challenge::generate();
    assert!(c.question.starts_with("What is "));
    assert!(c.question.ends_with('?'));
    let sum: u64 = c.expected_answer.parse().unwrap();
    assert!((2..=18).contains(&sum));
    let answer = c.expected_answer.clone();
    assert!(c.check(&answer));
    assert!(!c.check("0"));
}
