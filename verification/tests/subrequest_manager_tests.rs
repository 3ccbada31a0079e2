use std::time::Duration;

use pingora_slice::error::SliceError;
use pingora_slice::headers::HeaderList;
use pingora_slice::models::ByteRange;
use pingora_slice::subrequest_manager::{check_slice_response, validate_content_range, RetryPolicy, RetryStep};

#[test]
fn test_retry_policy_new() {
    let policy = RetryPolicy::new(3);
    assert_eq!(policy.max_retries, 3);
    assert_eq!(policy.backoff_ms.len(), 3);
    assert_eq!(policy.backoff_ms[0], 100);
    assert_eq!(policy.backoff_ms[1], 200);
    assert_eq!(policy.backoff_ms[2], 400);
}

#[test]
fn test_retry_policy_should_retry() {
    let policy = RetryPolicy::new(3);
    let error = SliceError::HttpError("test".to_string());

    assert!(policy.should_retry(0, &error));
    assert!(policy.should_retry(1, &error));
    assert!(policy.should_retry(2, &error));
    assert!(!policy.should_retry(3, &error));
}

#[test]
fn test_retry_policy_backoff_duration() {
    let policy = RetryPolicy::new(3);

    assert_eq!(policy.backoff_duration(0), Duration::from_millis(100));
    assert_eq!(policy.backoff_duration(1), Duration::from_millis(200));
    assert_eq!(policy.backoff_duration(2), Duration::from_millis(400));
    assert_eq!(policy.backoff_duration(10), Duration::from_millis(400));
}

#[test]
fn retry_policy_does_not_retry_other_errors() {
    let policy = RetryPolicy::new(3);
    assert!(!policy.should_retry(0, &SliceError::ParseError("x".to_string())));
    assert!(!policy.should_retry(0, &SliceError::InvalidRange("x".to_string())));
}

#[test]
fn retry_policy_without_retries_waits_one_second() {
    let policy = RetryPolicy::new(0);
    assert_eq!(policy.backoff_ms.len(), 0);
    assert_eq!(policy.backoff_duration(0), Duration::from_millis(1000));
}

#[test]
fn after_failure_retries_then_gives_up() {
    let policy = RetryPolicy::new(2);
    let error = SliceError::HttpError("boom".to_string());
    match policy.after_failure(0, &error, 7) {
        RetryStep::Retry { backoff, next_attempt } => {
            assert_eq!(backoff, Duration::from_millis(100));
            assert_eq!(next_attempt, 1);
        }
        other => panic!("unexpected step {:?}", other),
    }
    match policy.after_failure(2, &error, 7) {
        RetryStep::GiveUp(SliceError::SubrequestFailed { slice_index, attempts }) => {
            assert_eq!(slice_index, 7);
            assert_eq!(attempts, 3);
        }
        other => panic!("unexpected step {:?}", other),
    }
}

#[test]
fn test_validate_content_range_valid() {
    let range = ByteRange::new(0, 1023).unwrap();
    let result = validate_content_range("bytes 0-1023/10240", &range);
    assert!(result.is_ok());
    assert!(result.unwrap());
}

#[test]
fn test_validate_content_range_mismatch() {
    let range = ByteRange::new(0, 1023).unwrap();
    let result = validate_content_range("bytes 0-2047/10240", &range);
    assert!(result.is_ok());
    assert!(!result.unwrap());
}

#[test]
fn test_validate_content_range_invalid_format() {
    let range = ByteRange::new(0, 1023).unwrap();
    let result = validate_content_range("invalid", &range);
    assert!(result.is_err());
}

#[test]
fn validate_content_range_bad_numbers() {
    let range = ByteRange::new(0, 1023).unwrap();
    assert!(matches!(validate_content_range("bytes x-1023/10", &range), Err(SliceError::ParseError(_))));
    assert!(matches!(validate_content_range("bytes 0-1023", &range), Err(SliceError::ParseError(_))));
}

#[test]
fn check_slice_response_cases() {
    let range = ByteRange::new(0, 1023).unwrap();
    let mut good = HeaderList::new();
    good.insert_str("content-range", "bytes 0-1023/10240");
    assert!(check_slice_response(206, &good, &range).is_ok());
    assert!(matches!(check_slice_response(200, &good, &range), Err(SliceError::HttpError(_))));
    let empty = HeaderList::new();
    assert!(matches!(check_slice_response(206, &empty, &range), Err(SliceError::HttpError(_))));
    let mut other = HeaderList::new();
    other.insert_str("content-range", "bytes 0-2047/10240");
    assert!(matches!(check_slice_response(206, &other, &range), Err(SliceError::HttpError(_))));
    let mut garbled = HeaderList::new();
    garbled.insert_str("content-range", "garbled");
    assert!(matches!(check_slice_response(206, &garbled, &range), Err(SliceError::ParseError(_))));
}

#[test]
fn response_check_error_texts() {
    let range = ByteRange::new(0, 99).unwrap();
    let headers = HeaderList::new();
    assert_eq!(
        check_slice_response(200, &headers, &range).unwrap_err(),
        SliceError::HttpError("Expected status 206, got 200".to_string())
    );
    let mut headers = HeaderList::new();
    headers.insert_str("Content-Range", "bytes 100-199/1000");
    assert_eq!(
        check_slice_response(206, &headers, &range).unwrap_err(),
        SliceError::HttpError("Content-Range mismatch: expected 0-99, got bytes 100-199/1000".to_string())
    );
    assert_eq!(
        validate_content_range("  items 0-99/1000 ", &range).unwrap_err(),
        SliceError::ParseError("Content-Range must start with 'bytes ', got: items 0-99/1000".to_string())
    );
}
