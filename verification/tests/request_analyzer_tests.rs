use std::sync::Arc;

use pingora_slice::config::SliceConfig;
use pingora_slice::headers::{HeaderList, HttpMethod};
use pingora_slice::request_analyzer::RequestAnalyzer;

fn create_test_config(patterns: Vec<String>) -> Arc<SliceConfig> {
    let mut config = SliceConfig::default_config();
    config.slice_patterns = patterns;
    Arc::new(config)
}

fn create_headers_with_range(range: &str) -> HeaderList {
    let mut headers = HeaderList::new();
    headers.insert_str("range", range);
    headers
}

#[test]
fn test_should_slice_get_request() {
    let config = create_test_config(vec![]);
    let analyzer = RequestAnalyzer::new(config);
    let headers = HeaderList::new();

    assert!(analyzer.should_slice(&HttpMethod::Get, "/test.bin", &headers));
}

#[test]
fn test_should_not_slice_post_request() {
    let config = create_test_config(vec![]);
    let analyzer = RequestAnalyzer::new(config);
    let headers = HeaderList::new();

    assert!(!analyzer.should_slice(&HttpMethod::Post, "/test.bin", &headers));
}

#[test]
fn test_should_not_slice_with_range_header() {
    let config = create_test_config(vec![]);
    let analyzer = RequestAnalyzer::new(config);
    let headers = create_headers_with_range("bytes=0-1023");

    assert!(!analyzer.should_slice(&HttpMethod::Get, "/test.bin", &headers));
}

#[test]
fn test_should_slice_with_matching_pattern() {
    let config = create_test_config(vec!["/large-files/".to_string()]);
    let analyzer = RequestAnalyzer::new(config);
    let headers = HeaderList::new();

    assert!(analyzer.should_slice(&HttpMethod::Get, "/large-files/test.bin", &headers));
}

#[test]
fn test_should_not_slice_with_non_matching_pattern() {
    let config = create_test_config(vec!["/large-files/".to_string()]);
    let analyzer = RequestAnalyzer::new(config);
    let headers = HeaderList::new();

    assert!(!analyzer.should_slice(&HttpMethod::Get, "/small-files/test.bin", &headers));
}

#[test]
fn test_should_slice_with_wildcard_pattern() {
    let config = create_test_config(vec!["*.bin".to_string()]);
    let analyzer = RequestAnalyzer::new(config);
    let headers = HeaderList::new();

    assert!(analyzer.should_slice(&HttpMethod::Get, "/path/to/file.bin", &headers));
    assert!(!analyzer.should_slice(&HttpMethod::Get, "/path/to/file.txt", &headers));
}

#[test]
fn test_extract_client_range() {
    let config = create_test_config(vec![]);
    let analyzer = RequestAnalyzer::new(config);
    let headers = create_headers_with_range("bytes=100-200");

    let range = analyzer.extract_client_range(&headers);
    assert!(range.is_some());
    let range = range.unwrap();
    assert_eq!(range.start, 100);
    assert_eq!(range.end, 200);
}

#[test]
fn test_extract_client_range_none() {
    let config = create_test_config(vec![]);
    let analyzer = RequestAnalyzer::new(config);
    let headers = HeaderList::new();

    let range = analyzer.extract_client_range(&headers);
    assert!(range.is_none());
}

#[test]
fn test_pattern_matches_exact() {
    let config = create_test_config(vec![]);
    let analyzer = RequestAnalyzer::new(config);

    assert!(analyzer.pattern_matches("/test", "/test"));
    assert!(analyzer.pattern_matches("/test", "/test/file.bin"));
    assert!(!analyzer.pattern_matches("/test", "/other"));
}

#[test]
fn test_pattern_matches_wildcard_suffix() {
    let config = create_test_config(vec![]);
    let analyzer = RequestAnalyzer::new(config);

    assert!(analyzer.pattern_matches("*.bin", "/file.bin"));
    assert!(analyzer.pattern_matches("*.bin", "/path/to/file.bin"));
    assert!(!analyzer.pattern_matches("*.bin", "/file.txt"));
}

#[test]
fn test_pattern_matches_wildcard_prefix() {
    let config = create_test_config(vec![]);
    let analyzer = RequestAnalyzer::new(config);

    assert!(analyzer.pattern_matches("/downloads/*", "/downloads/file.bin"));
    assert!(analyzer.pattern_matches("/downloads/*", "/downloads/"));
    assert!(!analyzer.pattern_matches("/downloads/*", "/uploads/file.bin"));
}

#[test]
fn test_pattern_matches_multiple_wildcards() {
    let config = create_test_config(vec![]);
    let analyzer = RequestAnalyzer::new(config);

    assert!(analyzer.pattern_matches("/*/files/*.bin", "/user/files/test.bin"));
    assert!(analyzer.pattern_matches("/*/files/*.bin", "/admin/files/data.bin"));
    assert!(!analyzer.pattern_matches("/*/files/*.bin", "/user/docs/test.txt"));
}

#[test]
fn pattern_pieces_do_not_overlap() {
    let config = create_test_config(vec![]);
    let analyzer = RequestAnalyzer::new(config);

    // The first and last pieces may not share characters.
    assert!(!analyzer.pattern_matches("ab*ba", "aba"));
    assert!(analyzer.pattern_matches("ab*ba", "abba"));
    assert!(analyzer.pattern_matches("ab*ba", "abxba"));
    // An inner piece must fit between the first and the last.
    assert!(!analyzer.pattern_matches("a*bc*cd", "abcd"));
    assert!(analyzer.pattern_matches("a*bc*cd", "abccd"));
}

#[test]
fn range_header_name_is_case_insensitive() {
    let config = create_test_config(vec![]);
    let analyzer = RequestAnalyzer::new(config);
    let mut headers = HeaderList::new();
    headers.insert_str("Range", "bytes=5-9");
    assert!(!analyzer.should_slice(&HttpMethod::Get, "/a", &headers));
    let r = analyzer.extract_client_range(&headers).unwrap();
    assert_eq!((r.start, r.end), (5, 9));
}

#[test]
fn malformed_or_reversed_range_is_ignored() {
    let config = create_test_config(vec![]);
    let analyzer = RequestAnalyzer::new(config);
    assert!(analyzer.extract_client_range(&create_headers_with_range("bytes=200-100")).is_none());
    assert!(analyzer.extract_client_range(&create_headers_with_range("items=1-2")).is_none());
    assert!(analyzer.extract_client_range(&create_headers_with_range("bytes=1-")).is_none());
}

#[test]
fn head_and_other_methods_are_not_sliced() {
    let config = create_test_config(vec![]);
    let analyzer = RequestAnalyzer::new(config);
    let headers = HeaderList::new();
    assert!(!analyzer.should_slice(&HttpMethod::Head, "/a", &headers));
    assert!(!analyzer.should_slice(&HttpMethod::Other("PURGE".to_string()), "/a", &headers));
}

#[test]
fn wildcard_in_the_middle_needs_ordered_parts() {
    let config = create_test_config(vec![]);
    let analyzer = RequestAnalyzer::new(config);
    assert!(analyzer.pattern_matches("/a*b*c", "/axxbyyc"));
    assert!(!analyzer.pattern_matches("/a*b*c", "/axxcyyb"));
    assert!(analyzer.pattern_matches("*", ""));
}
