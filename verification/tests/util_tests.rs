use devsec::datadog::{map_severity, DatadogSeverity};
use devsec::error::AppError;
use devsec::limiter::TokenBucket;
use devsec::text::{parse_decimal_i64, split_char, tokenize};
use devsec::timefmt::{display_offset_datetime, parse_rfc3339};
use devsec::vuln::Severity;

#[test]
fn tokenizer_splits_on_non_word_characters() {
    let words = tokenize("group/sub-project  name2");
    assert_eq!(words, vec!["group", "sub", "project", "name2"]);
    assert!(tokenize("///---").is_empty());
    assert!(tokenize("").is_empty());
}

#[test]
fn splitter_keeps_empty_segments() {
    assert_eq!(split_char("gid://gitlab/Project/7", '/'), vec![
        "gid:", "", "gitlab", "Project", "7"
    ]);
    assert_eq!(split_char("a/", '/'), vec!["a", ""]);
    assert_eq!(split_char("", '/'), vec![""]);
}

#[test]
fn decimal_parsing_is_exact_and_bounded() {
    assert_eq!(parse_decimal_i64("0"), Some(0));
    assert_eq!(parse_decimal_i64("9223372036854775807"), Some(i64::MAX));
    assert_eq!(parse_decimal_i64("9223372036854775808"), None);
    assert_eq!(parse_decimal_i64(""), None);
    assert_eq!(parse_decimal_i64("12a"), None);
    assert_eq!(parse_decimal_i64("-3"), None);
}

#[test]
fn rfc3339_round_trips_through_the_epoch() {
    assert_eq!(display_offset_datetime(0), "1970-01-01T00:00:00Z");
    assert_eq!(parse_rfc3339("1970-01-01T00:00:00Z"), Some(0));
    assert_eq!(parse_rfc3339("2024-01-02T03:04:05Z"), Some(1_704_164_645));
    assert_eq!(parse_rfc3339("2024-01-02T03:04:05+01:00"), Some(1_704_164_645 - 3600));
    assert_eq!(parse_rfc3339("not a date"), None);
    assert_eq!(display_offset_datetime(1_704_164_645), "2024-01-02T03:04:05Z");
}

#[test]
fn token_bucket_consumes_and_refills() {
    let mut bucket = TokenBucket::new(2, 1, 0);
    assert!(bucket.try_acquire(0));
    assert!(bucket.try_acquire(0));
    assert!(!bucket.try_acquire(0));
    // a whole second refills one token
    assert!(bucket.try_acquire(1000));
    // half a second refills nothing
    assert!(!bucket.try_acquire(1500));
    // the half second is not lost: at 2000 a full second has passed
    assert!(bucket.try_acquire(2000));
    assert!(!bucket.try_acquire(2000));
}

#[test]
fn token_bucket_caps_at_capacity() {
    let mut bucket = TokenBucket::new(2, 5, 0);
    assert!(bucket.try_acquire(100_000));
    assert!(bucket.try_acquire(100_000));
    assert!(!bucket.try_acquire(100_000));
}

#[test]
fn severity_scale_maps_level_for_level() {
    assert_eq!(map_severity(DatadogSeverity::Critical), Severity::Critical);
    assert_eq!(map_severity(DatadogSeverity::High), Severity::High);
    assert_eq!(map_severity(DatadogSeverity::Medium), Severity::Medium);
    assert_eq!(map_severity(DatadogSeverity::Low), Severity::Low);
}

#[test]
fn api_error_carries_status_and_message() {
    let e = AppError::api_error(503, "throttled".to_owned());
    match e {
        AppError::ApiError { status_code, message } => {
            assert_eq!(status_code, 503);
            assert_eq!(message, "throttled");
        },
        _ => panic!("expected the remote-failure variant"),
    }
}
