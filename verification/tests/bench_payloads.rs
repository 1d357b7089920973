//! Payloads and the mock backend.

use lb::bench::mock::{mock_body, parse_size_param, BodyCache, MockBody, MAX_BODY_SIZE};
use lb::bench::payloads::{generate_payload, HttpVersion, PayloadSize, StandardPayloads};

#[test]
fn payloads_are_exactly_the_requested_size() {
    for size in [0, 1, 59, 60, 61, 1024, 64 * 1024, 1024 * 1024] {
        assert_eq!(generate_payload(size).len(), size, "size {size}");
    }
}

#[test]
fn payloads_repeat_one_line() {
    let line = b"{\"key\":\"value\",\"data\":\"benchmark-payload-chunk-0123456789\"}\n";
    assert_eq!(&generate_payload(line.len())[..], &line[..]);
    let long = generate_payload(2 * line.len() + 5);
    assert_eq!(&long[line.len()..2 * line.len()], &line[..]);
    assert_eq!(&long[2 * line.len()..], &line[..5]);
}

#[test]
fn standard_sizes_match_the_plan() {
    let payloads = StandardPayloads::new();
    assert_eq!(payloads.small_1kb().len(), 1024);
    assert_eq!(payloads.medium_64kb().len(), 65_536);
    assert_eq!(payloads.large_1mb().len(), 1_048_576);
    for size in PayloadSize::all() {
        assert_eq!(payloads.get(size).len(), size.bytes());
    }
}

#[test]
fn cached_payloads_share_one_allocation() {
    let payloads = StandardPayloads::new();
    let a = payloads.large_1mb();
    let b = payloads.large_1mb();
    assert_eq!(
        a.as_ptr(),
        b.as_ptr(),
        "payload must be shared, not rebuilt"
    );
}

#[test]
fn labels_round_trip() {
    for size in PayloadSize::all() {
        assert_eq!(PayloadSize::parse(size.label()), Some(size));
    }
    assert_eq!(PayloadSize::parse("64KB"), Some(PayloadSize::Medium64Kb));
    assert_eq!(PayloadSize::parse("nonsense"), None);
}

#[test]
fn generated_content_is_deterministic() {
    assert_eq!(generate_payload(4096), generate_payload(4096));
}

#[test]
fn http_version_labels_round_trip() {
    assert_eq!(HttpVersion::parse("h2"), Some(HttpVersion::Http2));
    assert_eq!(HttpVersion::parse("HTTP1.1"), Some(HttpVersion::Http11));
    assert_eq!(HttpVersion::parse("h3"), None);
    assert_eq!(HttpVersion::Http2.label(), "HTTP/2");
    assert_eq!(HttpVersion::Http11.label(), "HTTP/1.1");
}

#[test]
fn size_parameter_parsing() {
    assert_eq!(parse_size_param("size=1024"), Some(1024));
    assert_eq!(parse_size_param("a=1&size=65536&b=2"), Some(65_536));
    assert_eq!(parse_size_param("nosize=1"), None);
    assert_eq!(parse_size_param("size=notanumber"), None);
}

#[test]
fn a_later_size_is_found_behind_a_bad_one() {
    assert_eq!(parse_size_param("size=x&size=7"), Some(7));
    assert_eq!(parse_size_param("size=7&size=9"), Some(7));
    assert_eq!(parse_size_param("size"), None);
}

#[test]
fn serves_the_default_body() {
    assert_eq!(mock_body("/anything", None, 0), MockBody::Standard);
    assert_eq!(mock_body("/anything", Some("x=1"), 9), MockBody::Standard);
}

#[test]
fn serves_every_payload_size_from_the_plan() {
    for size in [1024usize, 64 * 1024, 1024 * 1024] {
        let query = format!("size={size}");
        assert_eq!(
            mock_body("/bench", Some(&query), 0),
            MockBody::Payload(size)
        );
        assert_eq!(BodyCache::new().get(size).len(), size);
    }
}

#[test]
fn oversized_requests_are_clamped_not_honoured() {
    assert_eq!(
        mock_body("/bench", Some("size=99999999999"), 0),
        MockBody::Payload(MAX_BODY_SIZE)
    );
}

#[test]
fn repeated_sizes_reuse_the_cached_body() {
    let mut cache = BodyCache::new();
    let first = cache.get(4096);
    let second = cache.get(4096);
    assert_eq!(first.as_ptr(), second.as_ptr(), "body must be cached");
    assert_eq!(first, generate_payload(4096));
}

#[test]
fn healthz_answers_the_readiness_probe() {
    assert_eq!(mock_body("/healthz", Some("size=5"), 0), MockBody::Ready);
}

#[test]
fn echo_returns_what_it_was_sent() {
    assert_eq!(mock_body("/echo", None, 3), MockBody::Echo);
    assert_eq!(mock_body("/echo/deep", None, 3), MockBody::Echo);
    assert_eq!(mock_body("/echo", None, 0), MockBody::Standard);
    assert_eq!(mock_body("/echo", Some("size=2"), 3), MockBody::Payload(2));
}
