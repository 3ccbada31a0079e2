use pingora_slice::headers::HeaderList;
use pingora_slice::streaming_proxy::{upstream_host_port, CacheLookup, ProxyContext};

#[test]
fn test_proxy_context_new() {
    let ctx = ProxyContext::new();

    assert_eq!(ctx.url(), "");
    assert!(!ctx.is_cache_enabled());
    assert_eq!(ctx.cache_key(), "");
    assert_eq!(ctx.bytes_received(), 0);
    assert_eq!(ctx.buffer().len(), 0);
}

#[test]
fn test_proxy_context_url() {
    let mut ctx = ProxyContext::new();

    ctx.set_url("http://example.com/test".to_string());
    assert_eq!(ctx.url(), "http://example.com/test");
}

#[test]
fn test_proxy_context_cache_enabled() {
    let mut ctx = ProxyContext::new();

    assert!(!ctx.is_cache_enabled());

    ctx.enable_cache();
    assert!(ctx.is_cache_enabled());

    ctx.disable_cache();
    assert!(!ctx.is_cache_enabled());
}

#[test]
fn test_proxy_context_cache_key() {
    let mut ctx = ProxyContext::new();

    ctx.set_cache_key("cache:test".to_string());
    assert_eq!(ctx.cache_key(), "cache:test");
}

#[test]
fn test_proxy_context_bytes_received() {
    let mut ctx = ProxyContext::new();

    assert_eq!(ctx.bytes_received(), 0);

    ctx.add_bytes_received(1024);
    assert_eq!(ctx.bytes_received(), 1024);

    ctx.add_bytes_received(512);
    assert_eq!(ctx.bytes_received(), 1536);
}

#[test]
fn test_proxy_context_buffer() {
    let mut ctx = ProxyContext::new();

    assert_eq!(ctx.buffer().len(), 0);
    assert_eq!(ctx.buffer_size(), 0);

    ctx.add_chunk(vec![1, 2, 3]);
    assert_eq!(ctx.buffer().len(), 1);
    assert_eq!(ctx.buffer_size(), 3);

    ctx.add_chunk(vec![4, 5, 6, 7]);
    assert_eq!(ctx.buffer().len(), 2);
    assert_eq!(ctx.buffer_size(), 7);

    ctx.clear_buffer();
    assert_eq!(ctx.buffer().len(), 0);
    assert_eq!(ctx.buffer_size(), 0);
}

#[test]
fn test_upstream_peer_parsing() {
    let (host, port) = upstream_host_port("example.com:8080");
    assert_eq!(host, "example.com");
    assert_eq!(port, 8080);
}

#[test]
fn upstream_address_without_port_uses_80() {
    assert_eq!(upstream_host_port("example.com"), ("example.com".to_string(), 80));
    assert_eq!(upstream_host_port("example.com:99999"), ("example.com".to_string(), 80));
}

#[test]
fn test_upstream_request_filter_sets_context() {
    let mut ctx = ProxyContext::new();
    ctx.begin_request("/test/file.dat");
    assert_eq!(ctx.url(), "/test/file.dat");
    assert_eq!(ctx.cache_key(), "cache:/test/file.dat");
    let headers = ctx.upstream_request_headers("example.com:80", None);
    assert_eq!(headers.len(), 2);
    assert_eq!(headers[0], ("Host".to_string(), "example.com".to_string()));
    assert_eq!(headers[1], ("User-Agent".to_string(), "Pingora-Slice/1.0".to_string()));
}

#[test]
fn upstream_request_forwards_client_range() {
    let ctx = ProxyContext::new();
    let range = b"bytes=0-99".to_vec();
    let headers = ctx.upstream_request_headers("origin:81", Some(&range));
    assert_eq!(headers.len(), 3);
    assert_eq!(headers[0].1, "origin");
    assert_eq!(headers[2], ("Range".to_string(), "bytes=0-99".to_string()));
}

#[test]
fn test_response_filter_successful_response() {
    let mut ctx = ProxyContext::new();
    ctx.begin_request("/test.dat");
    let edit = ctx.on_upstream_response(true, 200, &HeaderList::new());
    assert!(ctx.is_cache_enabled());
    assert_eq!(edit.x_cache, "MISS");
}

#[test]
fn test_response_filter_error_response() {
    let mut ctx = ProxyContext::new();
    ctx.begin_request("/test.dat");
    ctx.enable_cache();
    let edit = ctx.on_upstream_response(true, 404, &HeaderList::new());
    assert!(!ctx.is_cache_enabled());
    assert_eq!(edit.x_cache, "SKIP");
}

#[test]
fn test_response_filter_cache_disabled_in_config() {
    let mut ctx = ProxyContext::new();
    ctx.begin_request("/test.dat");
    let edit = ctx.on_upstream_response(false, 200, &HeaderList::new());
    assert!(!ctx.is_cache_enabled());
    assert_eq!(edit.x_cache, "DISABLED");
}

#[test]
fn response_filter_skips_too_large() {
    let mut ctx = ProxyContext::new();
    let mut headers = HeaderList::new();
    headers.insert_str("content-length", "2147483648");
    let edit = ctx.on_upstream_response(true, 200, &headers);
    assert!(!ctx.is_cache_enabled());
    assert_eq!(edit.x_cache, "SKIP-TOO-LARGE");
    let mut ok = HeaderList::new();
    ok.insert_str("content-length", "1073741824");
    let edit = ctx.on_upstream_response(true, 200, &ok);
    assert!(ctx.is_cache_enabled());
    assert_eq!(edit.x_cache, "MISS");
}

#[test]
fn test_proxy_context_cache_state_transitions() {
    let mut ctx = ProxyContext::new();

    assert!(!ctx.is_cache_enabled());

    ctx.enable_cache();
    assert!(ctx.is_cache_enabled());

    ctx.disable_cache();
    assert!(!ctx.is_cache_enabled());

    ctx.enable_cache();
    assert!(ctx.is_cache_enabled());
}

#[test]
fn test_response_body_filter_buffering() {
    let mut ctx = ProxyContext::new();
    ctx.set_url("/test.dat".to_string());
    ctx.set_cache_key("cache:/test.dat".to_string());
    ctx.enable_cache();

    let mut chunk1 = Some(vec![1, 2, 3, 4]);
    let mut chunk2 = Some(vec![5, 6, 7, 8]);
    let mut chunk3 = Some(vec![9, 10, 11, 12]);

    assert!(ctx.on_response_body(&mut chunk1, false).is_none());
    assert_eq!(ctx.bytes_received(), 4);
    assert_eq!(ctx.buffer().len(), 1);
    assert_eq!(ctx.buffer_size(), 4);

    assert!(ctx.on_response_body(&mut chunk2, false).is_none());
    assert_eq!(ctx.bytes_received(), 8);
    assert_eq!(ctx.buffer().len(), 2);
    assert_eq!(ctx.buffer_size(), 8);

    let data = ctx.on_response_body(&mut chunk3, true).unwrap();
    assert_eq!(ctx.bytes_received(), 12);
    assert_eq!(data.len(), 12);
    assert_eq!(&data[..], &[1, 2, 3, 4, 5, 6, 7, 8, 9, 10, 11, 12]);
    assert_eq!(ctx.buffer().len(), 0);
    assert_eq!(ctx.buffer_size(), 0);
    assert_eq!(chunk3, Some(vec![9, 10, 11, 12]));
}

#[test]
fn test_response_body_filter_cache_disabled_no_buffering() {
    let mut ctx = ProxyContext::new();
    ctx.set_url("/test.dat".to_string());
    ctx.set_cache_key("cache:/test.dat".to_string());
    assert!(!ctx.is_cache_enabled());

    let mut chunk1 = Some(vec![1, 2, 3, 4]);
    assert!(ctx.on_response_body(&mut chunk1, true).is_none());

    assert_eq!(ctx.bytes_received(), 4);
    assert_eq!(ctx.buffer().len(), 0);
    assert_eq!(ctx.buffer_size(), 0);
}

#[test]
fn test_response_body_filter_empty_response_handling() {
    let mut ctx = ProxyContext::new();
    ctx.set_url("/empty.dat".to_string());
    ctx.set_cache_key("cache:/empty.dat".to_string());
    ctx.enable_cache();

    let mut body = None;
    assert!(ctx.on_response_body(&mut body, true).is_none());
    assert_eq!(ctx.buffer().len(), 0);
    assert_eq!(ctx.buffer_size(), 0);
    assert!(ctx.buffer().is_empty());
}

#[test]
fn test_cache_hit_context_state() {
    let mut ctx = ProxyContext::new();

    assert!(!ctx.is_cache_hit());
    assert!(ctx.cached_data().is_none());

    let data = vec![1, 2, 3, 4, 5];
    ctx.set_cache_hit(true);
    ctx.set_cached_data(Some(data.clone()));

    assert!(ctx.is_cache_hit());
    assert!(ctx.cached_data().is_some());
    assert_eq!(ctx.cached_data().unwrap().len(), 5);
    assert_eq!(ctx.cached_data().unwrap(), &data);

    ctx.set_cache_hit(false);
    ctx.set_cached_data(None);

    assert!(!ctx.is_cache_hit());
    assert!(ctx.cached_data().is_none());
}

#[test]
fn test_cache_hit_serves_cached_data() {
    let mut ctx = ProxyContext::new();
    ctx.begin_request("/test.dat");
    ctx.apply_cache_lookup(Some(CacheLookup::Hit(vec![7u8; 100])));
    assert!(ctx.is_cache_hit());
    let edit = ctx.on_upstream_response(true, 500, &HeaderList::new());
    assert_eq!(edit.status, Some(200));
    assert_eq!(edit.x_cache, "HIT");
    assert_eq!(edit.content_length, Some(100));
    let mut body = Some(vec![0u8; 3]);
    assert!(ctx.on_response_body(&mut body, true).is_none());
    assert_eq!(body, Some(vec![7u8; 100]));
    let range = b"bytes=0-9".to_vec();
    assert_eq!(ctx.upstream_request_headers("h", Some(&range)).len(), 2);
}

#[test]
fn test_cache_miss_enables_caching() {
    let mut ctx = ProxyContext::new();
    ctx.begin_request("/test.dat");
    ctx.apply_cache_lookup(Some(CacheLookup::Miss));
    assert!(!ctx.is_cache_hit());
    assert!(ctx.is_cache_enabled());
    assert!(!ctx.has_cache_error());
}

#[test]
fn test_cache_disabled_skips_lookup() {
    let mut ctx = ProxyContext::new();
    ctx.begin_request("/test.dat");
    ctx.apply_cache_lookup(None);
    assert!(!ctx.is_cache_hit());
    assert!(!ctx.is_cache_enabled());
    assert!(ctx.cached_data().is_none());
}

#[test]
fn test_degradation_strategy_cache_lookup_error() {
    let mut ctx = ProxyContext::new();
    ctx.begin_request("/test.dat");
    ctx.apply_cache_lookup(Some(CacheLookup::Failed));
    assert!(ctx.has_cache_error());
    assert!(ctx.is_cache_enabled());
    assert!(!ctx.is_cache_hit());
}

#[test]
fn test_upstream_failed_flag() {
    let mut ctx = ProxyContext::new();

    assert!(!ctx.is_upstream_failed());

    ctx.set_upstream_failed(true);
    assert!(ctx.is_upstream_failed());

    ctx.set_upstream_failed(false);
    assert!(!ctx.is_upstream_failed());
}

#[test]
fn test_cache_error_flag() {
    let mut ctx = ProxyContext::new();

    assert!(!ctx.has_cache_error());

    ctx.set_cache_error(true);
    assert!(ctx.has_cache_error());

    ctx.set_cache_error(false);
    assert!(!ctx.has_cache_error());
}

#[test]
fn test_error_handling_disables_caching() {
    let mut ctx = ProxyContext::new();
    ctx.set_url("/test.dat".to_string());
    ctx.set_cache_key("cache:/test.dat".to_string());
    ctx.enable_cache();

    ctx.add_chunk(vec![1, 2, 3, 4]);
    assert_eq!(ctx.buffer().len(), 1);
    assert_eq!(ctx.buffer_size(), 4);

    ctx.on_proxy_error();

    assert_eq!(ctx.buffer().len(), 0);
    assert_eq!(ctx.buffer_size(), 0);
    assert!(!ctx.is_cache_enabled());
    assert!(ctx.is_upstream_failed());
}

#[test]
fn test_partial_data_discarded_on_error() {
    let mut ctx = ProxyContext::new();
    ctx.set_url("/test.dat".to_string());
    ctx.set_cache_key("cache:/test.dat".to_string());
    ctx.enable_cache();

    ctx.add_chunk(vec![1, 2, 3]);
    ctx.add_chunk(vec![4, 5, 6]);
    ctx.add_bytes_received(6);

    assert_eq!(ctx.buffer().len(), 2);
    assert_eq!(ctx.buffer_size(), 6);
    assert_eq!(ctx.bytes_received(), 6);

    ctx.clear_buffer();
    ctx.disable_cache();

    assert_eq!(ctx.buffer().len(), 0);
    assert_eq!(ctx.buffer_size(), 0);
    assert!(!ctx.is_cache_enabled());
    assert_eq!(ctx.bytes_received(), 6);
}

#[test]
fn test_error_context_tracking() {
    let mut ctx = ProxyContext::new();
    ctx.set_url("/test.dat".to_string());
    ctx.set_cache_key("cache:/test.dat".to_string());

    assert!(!ctx.is_upstream_failed());
    assert!(!ctx.has_cache_error());

    ctx.set_cache_error(true);
    assert!(ctx.has_cache_error());
    assert!(!ctx.is_upstream_failed());

    ctx.enable_cache();
    ctx.add_chunk(vec![1, 2, 3]);

    ctx.set_upstream_failed(true);
    assert!(ctx.is_upstream_failed());
    assert!(ctx.has_cache_error());

    assert!(ctx.is_upstream_failed());
    assert!(ctx.has_cache_error());
}
