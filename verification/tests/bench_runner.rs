//! What the harness runs.

use lb::bench::candidate::Candidate;
use lb::bench::payloads::{HttpVersion, PayloadSize};
use lb::bench::result::{BenchmarkResult, Figures};
use lb::bench::runner::{
    choose_deployment, external_addr, labelled, local_spec, monitor_target, pair_pgo_results,
    warmup_url, window_load, windows, Deployment, LoadConfig, MonitorTarget, Pacer, Window,
};
use lb::bench::scenario::{Mode, ScenarioConfig};

fn result(name: &str, concurrency: usize) -> BenchmarkResult {
    let zero = || "0.00".to_string();
    BenchmarkResult {
        candidate_name: name.to_string(),
        scenario_name: "s".to_string(),
        concurrency,
        payload_bytes: 1024,
        http_version: "HTTP/1.1".to_string(),
        total_requests: 0,
        successful_requests: 0,
        failed_requests: 0,
        error_responses: 0,
        bytes_received: 0,
        latency_p50_us: 0,
        latency_p90_us: 0,
        latency_p95_us: 0,
        latency_p99_us: 0,
        latency_p999_us: 0,
        latency_p9999_us: 0,
        latency_max_us: 0,
        co_corrected_p99_us: 0,
        co_corrected_p999_us: 0,
        figures: Figures {
            duration_secs: zero(),
            rps: zero(),
            rps_whole: zero(),
            throughput: zero(),
            throughput_short: zero(),
            latency_mean_us: zero(),
            latency_stdev_us: zero(),
            cpu_usage_pct: zero(),
            cpu_usage_short: zero(),
            rss_memory_mb: zero(),
            rss_memory_short: zero(),
            rss_per_thousand: zero(),
            unclean_share: zero(),
        },
    }
}

#[test]
fn pgo_results_pair_by_workload_not_by_order() {
    let results = vec![
        result("h [standard]", 100),
        result("h [standard]", 500),
        // Deliberately reversed relative to the standard runs.
        result("h [pgo]", 500),
        result("h [pgo]", 100),
    ];
    let pairs = pair_pgo_results(&results);
    assert_eq!(pairs.len(), 2);
    for (s, p) in &pairs {
        assert_eq!(
            results[*s].concurrency, results[*p].concurrency,
            "paired across concurrencies"
        );
    }
    assert_eq!(pairs, [(0, 3), (1, 2)]);
}

#[test]
fn runs_without_a_partner_are_left_out() {
    let mut other = result("h [pgo]", 100);
    other.http_version = "HTTP/2".to_string();
    let results = vec![result("h [standard]", 100), other, result("plain", 100)];
    assert!(pair_pgo_results(&results).is_empty());
}

#[test]
fn default_deployment_is_local_with_cpu_default_workers() {
    match choose_deployment(None, Mode::Local, "target/release", None) {
        Deployment::Local { binary_dir, workers } => {
            assert_eq!(binary_dir, "target/release");
            assert!(workers.is_none());
        }
        Deployment::External { .. } => panic!("default must be Local"),
    }
}

#[test]
fn a_target_wins_over_the_mode() {
    match choose_deployment(Some(("10.0.0.1:80", 80)), Mode::Local, "d", Some(2)) {
        Deployment::External { addr, port, pid } => {
            assert_eq!((addr.as_str(), port, pid), ("10.0.0.1:80", 80, None));
        }
        Deployment::Local { .. } => panic!("a target is external"),
    }
    match choose_deployment(None, Mode::K8s, "d", Some(2)) {
        Deployment::External { addr, port, .. } => {
            assert_eq!((addr.as_str(), port), ("127.0.0.1:0", 0));
        }
        Deployment::Local { .. } => panic!("a cluster is external"),
    }
}

#[test]
fn each_candidate_is_found_on_its_own_port() {
    assert_eq!(external_addr(Candidate::Pingora, "127.0.0.1:0", 0), "127.0.0.1:8002");
    assert_eq!(external_addr(Candidate::Pingora, "10.0.0.1:80", 80), "10.0.0.1:80");
    let spec = local_spec(Candidate::Monoio, "bin", Some(3), Some("r.yaml"), "127.0.0.1:9");
    assert_eq!(spec.listen_addr, "127.0.0.1:18082");
    assert_eq!(spec.listen_port, 18082);
    assert_eq!(spec.upstream_addr, "127.0.0.1:9");
    assert_eq!(spec.workers, Some(3));
    assert_eq!(spec.config_path.as_deref(), Some("r.yaml"));
}

#[test]
fn what_cannot_be_seen_is_watched_as_a_whole() {
    assert_eq!(monitor_target(12), MonitorTarget::Process(12));
    assert_eq!(monitor_target(0), MonitorTarget::System);
}

#[test]
fn windows_are_the_cross_product_in_order() {
    let mut scenario = ScenarioConfig::throughput();
    scenario.concurrencies = vec![1, 2];
    scenario.payloads = vec![PayloadSize::Small1Kb, PayloadSize::Large1Mb];
    let list = windows(&scenario);
    assert_eq!(list.len(), scenario.measurement_count());
    let window = |version, payload, concurrency| Window { version, payload, concurrency };
    assert_eq!(
        list[..5],
        [
            window(HttpVersion::Http11, PayloadSize::Small1Kb, 1),
            window(HttpVersion::Http11, PayloadSize::Small1Kb, 2),
            window(HttpVersion::Http11, PayloadSize::Large1Mb, 1),
            window(HttpVersion::Http11, PayloadSize::Large1Mb, 2),
            window(HttpVersion::Http2, PayloadSize::Small1Kb, 1),
        ]
    );
}

#[test]
fn a_window_is_driven_as_its_scenario_says() {
    let scenario = ScenarioConfig::route_churn(50);
    let load = window_load(&scenario, "http://h:1", windows(&scenario)[0]);
    assert_eq!(load.target_url, "http://h:1/bench?size=1024");
    assert_eq!(load.concurrency, 1_000);
    assert_eq!(load.target_rps, Some(20_000));
    assert_eq!(load.method, "GET");
    assert_eq!(load.host_header, "localhost");
    assert_eq!(load.pacing_interval_us(), 50_000);
    assert_eq!(load.idle_slots(), 2_000);
    assert_eq!(warmup_url("http://h:1"), "http://h:1/bench");
}

#[test]
fn pacing_is_rounded_down() {
    let mut load = LoadConfig::new("u", 0, 1);
    assert_eq!(load.concurrency, 1);
    assert_eq!(load.pacing_interval_us(), 0);
    assert_eq!(load.idle_slots(), 64);
    load.target_rps = Some(3);
    assert_eq!(load.pacing_interval_us(), 333_333);
    load.target_rps = Some(0);
    assert_eq!(load.pacing_interval_us(), 0);
}

#[test]
fn builds_are_labelled() {
    assert_eq!(labelled("lb-proxy-hyper", "pgo"), "lb-proxy-hyper [pgo]");
}

#[test]
fn the_schedule_is_held_when_a_request_is_slow() {
    let mut pacer = Pacer::new(100, 5);
    assert_eq!(pacer.next_wait(100), Some(5_000));
    // The first request took four intervals: two more are due already.
    assert_eq!(pacer.next_wait(20_100), None);
    assert_eq!(pacer.next_wait(20_100), None);
    assert_eq!(pacer.next_wait(20_100), None);
    assert_eq!(pacer.next_wait(20_100), Some(5_000));
    assert_eq!(Pacer::new(100, 0).next_wait(0), None);
}

#[test]
fn pacing_is_worked_out_in_doubles() {
    let mut load = LoadConfig::new("u", (1 << 53) + 1, 1);
    load.target_rps = Some(1_000_000);
    assert_eq!(load.pacing_interval_us(), 1 << 53);
    for (workers, rps) in [
        (usize::MAX, 1),
        (usize::MAX, u64::MAX),
        (10_000, 3),
        (7, u64::MAX),
        (1 << 60, 12_345),
        (123_456_789_012, 7),
        (1, 999_999),
    ] {
        load.concurrency = workers;
        load.target_rps = Some(rps);
        let expected = (1_000_000.0 * workers as f64 / rps as f64) as u64;
        assert_eq!(load.pacing_interval_us(), expected);
    }
}
