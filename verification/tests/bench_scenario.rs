//! Scenarios, warm-up and the command line.

use std::time::Duration;

use lb::bench::candidate::Candidate;
use lb::bench::payloads::{HttpVersion, PayloadSize};
use lb::bench::scenario::{
    build_scenario, parse_duration, selected_candidates, DurationUnit, Mode, ScenarioConfig,
    ScenarioKind, Selection, WarmupProtocol, WarmupStep, SECOND,
};

fn nanos(duration: Duration) -> u128 {
    duration.as_nanos()
}

#[test]
fn plan_scenarios_have_the_documented_shape() {
    let t = ScenarioConfig::throughput();
    assert_eq!(t.concurrencies, [100, 1_000, 5_000, 10_000, 25_000]);
    assert_eq!(t.payloads.len(), 3);
    assert_eq!(t.http_versions.len(), 2, "HTTP/1.1 and HTTP/2 are both swept");

    let d = ScenarioConfig::connection_density();
    assert_eq!(d.concurrencies, [10_000, 25_000, 50_000]);
    assert!((f64::from(d.idle_connection_pct) / 100.0 - 0.95).abs() < f64::EPSILON);

    let c = ScenarioConfig::route_churn(100);
    assert_eq!(c.route_churn_rate_hz, 100);
    assert_eq!(
        c.target_rps,
        Some(20_000),
        "churn must be measured under a fixed offered rate"
    );
    assert_eq!(c.name, "Route Churn & Tail Latency Jitter (100 Hz)");
}

#[test]
fn measurement_count_is_the_full_cross_product() {
    let t = ScenarioConfig::throughput();
    assert_eq!(t.measurement_count(), 5 * 3 * 2);
    assert_eq!(
        t.total_measurement_time(),
        nanos(Duration::from_secs(30) * 30)
    );
}

#[test]
fn scenario_kinds_round_trip() {
    for kind in [
        ScenarioKind::Throughput,
        ScenarioKind::ConnectionDensity,
        ScenarioKind::RouteChurn,
        ScenarioKind::PgoDelta,
    ] {
        assert_eq!(ScenarioKind::parse(kind.label()), Some(kind));
    }
    assert_eq!(
        ScenarioKind::parse("2"),
        Some(ScenarioKind::ConnectionDensity)
    );
    assert_eq!(ScenarioKind::parse("nope"), None);
}

#[test]
fn default_timings_match_the_plan() {
    let w = WarmupProtocol::default();
    assert_eq!(w.cold_start, nanos(Duration::from_secs(3)));
    assert_eq!(w.traffic, nanos(Duration::from_secs(15)));
    assert_eq!(w.gc_settle, nanos(Duration::from_secs(5)));
}

#[test]
fn only_go_candidates_pay_the_gc_settle_phase() {
    let w = WarmupProtocol::default();
    assert_eq!(w.total(Candidate::Traefik), nanos(Duration::from_secs(23)));
    for c in Candidate::rust_candidates() {
        assert_eq!(w.total(c), nanos(Duration::from_secs(18)), "{c:?}");
    }
}

#[test]
fn warm_up_drives_half_the_concurrency() {
    let w = WarmupProtocol::quick();
    assert_eq!(
        w.steps(Candidate::Traefik, 100),
        [
            WarmupStep::Idle(SECOND / 2),
            WarmupStep::Traffic(50, 2 * SECOND),
            WarmupStep::Idle(SECOND / 2),
        ]
    );
    assert_eq!(
        w.steps(Candidate::Hyper, 1),
        [WarmupStep::Idle(SECOND / 2), WarmupStep::Traffic(1, 2 * SECOND)]
    );
}

/// A duration as the command line gives it.
fn duration(text: &str) -> Result<Duration, String> {
    let parts = parse_duration(text)?;
    let value: f64 = parts.value.parse().expect("a decimal number");
    Ok(Duration::from_secs_f64(match parts.unit {
        DurationUnit::Milliseconds => value / 1000.0,
        DurationUnit::Seconds => value,
        DurationUnit::Minutes => value * 60.0,
        DurationUnit::Hours => value * 3600.0,
    }))
}

#[test]
fn duration_parsing_covers_the_cli_forms() {
    assert_eq!(duration("30s").unwrap(), Duration::from_secs(30));
    assert_eq!(duration("500ms").unwrap(), Duration::from_millis(500));
    assert_eq!(duration("2m").unwrap(), Duration::from_secs(120));
    assert_eq!(duration("1h").unwrap(), Duration::from_secs(3600));
    assert_eq!(duration("15").unwrap(), Duration::from_secs(15));
    assert!(duration("abc").is_err());
    assert!(duration("10x").is_err());
}

#[test]
fn a_duration_is_a_decimal_number_and_a_unit() {
    assert_eq!(duration(" 1.5m ").unwrap(), Duration::from_secs(90));
    assert_eq!(duration(".5s").unwrap(), Duration::from_millis(500));
    assert_eq!(duration("5.").unwrap(), Duration::from_secs(5));
    assert_eq!(duration("+2s").unwrap(), Duration::from_secs(2));
    for bad in ["", "s", ".", "+", "1.2.3", "1 s", "--1s"] {
        assert_eq!(
            duration(bad).unwrap_err(),
            format!("invalid duration: {}", bad.trim()),
        );
    }
    assert_eq!(
        duration("10x").unwrap_err(),
        "unknown duration unit 'x' in '10x'"
    );
}

fn no_flags() -> Selection {
    Selection {
        mode: Mode::Local,
        candidates: vec![],
        all: false,
        scenario: "throughput".to_string(),
        concurrency: vec![],
        payload_sizes: vec![],
        http: vec![],
        duration: Ok(30 * SECOND),
        target_rps: None,
        churn_rate: 0,
        quick: false,
    }
}

fn list(names: &[&str]) -> Vec<String> {
    names.iter().map(|n| n.to_string()).collect()
}

#[test]
fn candidate_selection_honours_the_flags() {
    let args = Selection { candidates: list(&["pingora", "monoio"]), ..no_flags() };
    assert_eq!(
        selected_candidates(&args).unwrap(),
        vec![Candidate::Pingora, Candidate::Monoio]
    );

    let all_local = Selection { all: true, ..no_flags() };
    assert_eq!(selected_candidates(&all_local).unwrap().len(), 3);

    let all_k8s = Selection { all: true, mode: Mode::K8s, ..no_flags() };
    assert!(
        selected_candidates(&all_k8s)
            .unwrap()
            .contains(&Candidate::Traefik),
        "k8s mode must include the Traefik baseline"
    );
}

#[test]
fn unknown_candidate_is_rejected_with_its_name() {
    let args = Selection { candidates: list(&["envoy"]), ..no_flags() };
    let message = selected_candidates(&args).unwrap_err();
    assert!(message.contains("envoy"));
    assert_eq!(message, "unknown candidate 'envoy'");
}

#[test]
fn cli_overrides_reach_the_scenario() {
    let args = Selection {
        concurrency: vec![100, 1000],
        payload_sizes: list(&["1k", "64k"]),
        http: list(&["h1", "h2"]),
        duration: duration("45s").map(nanos),
        ..no_flags()
    };
    let s = build_scenario(&args).ok().unwrap();
    assert_eq!(s.concurrencies, vec![100, 1_000]);
    assert_eq!(
        s.payloads,
        vec![PayloadSize::Small1Kb, PayloadSize::Medium64Kb]
    );
    assert_eq!(s.http_versions, vec![HttpVersion::Http11, HttpVersion::Http2]);
    assert_eq!(s.duration, nanos(Duration::from_secs(45)));
    assert_eq!(s.measurement_count(), 2 * 2 * 2);
}

#[test]
fn scenario_selection_matches_the_plan_definitions() {
    let density = build_scenario(&Selection {
        scenario: "connection-density".to_string(),
        ..no_flags()
    })
    .ok()
    .unwrap();
    assert_eq!(density.kind, ScenarioKind::ConnectionDensity);
    assert_eq!(density.concurrencies, vec![10_000, 25_000, 50_000]);

    let churn = build_scenario(&Selection {
        scenario: "route-churn".to_string(),
        churn_rate: 250,
        ..no_flags()
    })
    .ok()
    .unwrap();
    assert_eq!(churn.route_churn_rate_hz, 250);
}

#[test]
fn unknown_scenario_and_payload_are_rejected() {
    let error = |args: Selection| build_scenario(&args).err();
    assert_eq!(
        error(Selection { scenario: "nonsense".to_string(), ..no_flags() }).unwrap(),
        "unknown scenario 'nonsense'"
    );
    assert_eq!(
        error(Selection { payload_sizes: list(&["1k", "7k"]), ..no_flags() }).unwrap(),
        "unknown payload size '7k'"
    );
    assert_eq!(
        error(Selection { http: list(&["h3"]), ..no_flags() }).unwrap(),
        "unknown HTTP version 'h3'"
    );
    let bad = || Err("invalid duration: x".to_string());
    assert_eq!(
        error(Selection { duration: bad(), ..no_flags() }).unwrap(),
        "invalid duration: x"
    );
    assert!(error(Selection { duration: bad(), quick: true, ..no_flags() }).is_none());
}

#[test]
fn quick_mode_shortens_the_sweep() {
    let s = build_scenario(&Selection { quick: true, ..no_flags() }).ok().unwrap();
    assert!(s.duration <= nanos(Duration::from_secs(5)));
    assert!(s.measurement_count() <= 4);
}

#[test]
fn default_run_benchmarks_hyper_locally() {
    let args = no_flags();
    assert_eq!(args.mode, Mode::Local);
    assert_eq!(selected_candidates(&args).unwrap(), vec![Candidate::Hyper]);
}

#[test]
fn a_churn_run_mutates_ten_times_a_second_at_least() {
    let s = build_scenario(&Selection { scenario: "churn".to_string(), ..no_flags() })
        .ok()
        .unwrap();
    assert_eq!(s.route_churn_rate_hz, 10);
    let s = build_scenario(&Selection {
        scenario: "churn".to_string(),
        churn_rate: 3,
        target_rps: Some(7),
        ..no_flags()
    })
    .ok()
    .unwrap();
    assert_eq!(s.route_churn_rate_hz, 3);
    assert_eq!(s.name, "Route Churn & Tail Latency Jitter (10 Hz)");
    assert_eq!(s.target_rps, Some(7));
}
