//! Settings and answers of the proxy over Hyper.

use lb::lb_core::forward::UpstreamProtocol;
use lb::proxy_hyper::client::ClientConfig;
use lb::proxy_hyper::server::{answer_headers, authority_of, ServerConfig};

#[test]
fn authority_parsing_accepts_hosts_and_ips() {
    assert!(authority_of("10.0.0.1:8080").is_some());
    assert!(authority_of("svc.default.svc.cluster.local:80").is_some());
    assert!(authority_of("not a host").is_none());
}

#[test]
fn an_authority_is_kept_as_it_stands() {
    assert_eq!(authority_of("10.0.0.1:8080").unwrap(), "10.0.0.1:8080");
}

#[test]
fn http2_upstream_flag_is_reported() {
    assert!(!ClientConfig::default().is_http2_upstream());
    let c = ClientConfig { http2_upstream: true, ..Default::default() };
    assert!(c.is_http2_upstream());
    assert_eq!(c.protocol(), UpstreamProtocol::Http2);
    assert_eq!(ClientConfig::default().protocol(), UpstreamProtocol::Http1);
}

#[test]
fn the_pool_is_sized_for_the_largest_sweep() {
    let c = ClientConfig::default();
    assert_eq!(c.pool_max_idle_per_host, 8_192);
    assert_eq!(c.pool_idle_timeout_secs, 90);
    assert_eq!(c.connect_timeout_secs, 5);
}

#[test]
fn default_worker_count_uses_every_core() {
    let cfg = ServerConfig::new("127.0.0.1:0", num_cpus::get());
    assert_eq!(cfg.workers, num_cpus::get());
    assert_eq!(cfg.accept_loops(), num_cpus::get());
    assert_eq!(ServerConfig::new("127.0.0.1:0", 0).accept_loops(), 1);
}

#[test]
fn only_a_missing_route_names_a_type() {
    assert_eq!(
        answer_headers(404),
        vec![("content-type", "text/plain"), ("content-length", "0")]
    );
    assert_eq!(answer_headers(502), vec![("content-length", "0")]);
}
