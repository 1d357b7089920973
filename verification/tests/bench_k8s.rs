//! The cluster and the churn of its routes.

use std::time::Duration;

use lb::bench::candidate::Candidate;
use lb::bench::k8s::{
    crd_source, deployment_ref, failure_message, gateway_name, ChurnConfig, ChurnInjector,
    ChurnStats, Deployer, KindCluster, KindConfig, Manifests, GATEWAY_API_CRD_FILE,
    GATEWAY_API_CRD_URL, GATEWAY_API_VERSION, KIND_NODE_IMAGE, TRAEFIK_IMAGE,
};

#[test]
fn default_config_matches_the_shipped_manifests() {
    let c = ChurnConfig::default();
    assert_eq!(c.route_name, "benchmark-route");
    assert_eq!(c.backends, ["mock-upstream", "mock-upstream-b"]);
    assert_eq!(c.namespace, "default");
    assert!(
        c.backends.len() >= 2,
        "churn needs something to alternate between"
    );
}

#[test]
fn churn_interval_is_the_reciprocal_of_the_rate() {
    for hz in [10u32, 50, 100, 500] {
        let injector = ChurnInjector::new(ChurnConfig { rate_hz: hz, ..Default::default() });
        let interval = Duration::from_nanos(injector.interval_nanos());
        assert!(
            (interval.as_secs_f64() * f64::from(hz) - 1.0).abs() < 1e-9,
            "interval for {hz} Hz is wrong"
        );
    }
}

#[test]
fn churn_interval_is_rounded_as_the_hardware_rounds() {
    for hz in [1u32, 2, 3, 7, 997, 1024, 5120, 25_600, 128_000, 999_999_937, u32::MAX] {
        let injector = ChurnInjector::new(ChurnConfig { rate_hz: hz, ..Default::default() });
        assert_eq!(
            Duration::from_nanos(injector.interval_nanos()),
            Duration::from_secs_f64(1.0 / f64::from(hz)),
            "interval for {hz} Hz"
        );
    }
}

#[test]
fn zero_rate_is_a_no_op_and_needs_no_cluster() {
    let mut injector = ChurnInjector::new(ChurnConfig { rate_hz: 0, ..Default::default() });
    assert!(!injector.is_running());
    assert!(injector.next_mutation().is_none());
    assert_eq!(injector.stats().snapshot(), (0, 0, 0));
}

#[test]
fn stop_handle_stops_the_loop() {
    let mut injector = ChurnInjector::new(ChurnConfig::default());
    assert!(injector.is_running());
    injector.stop();
    assert!(!injector.is_running());
    assert!(injector.next_mutation().is_none());
}

#[test]
fn stats_snapshot_reflects_recorded_counts() {
    let stats = ChurnStats {
        mutations_attempted: 10,
        mutations_succeeded: 9,
        mutations_failed: 1,
    };
    assert_eq!(stats.snapshot(), (10, 9, 1));
}

#[test]
fn mutations_take_turns_and_are_accounted_for() {
    let mut injector = ChurnInjector::new(ChurnConfig::default());
    let first = injector.next_mutation().unwrap();
    assert_eq!((first.generation, first.backend.as_str()), (1, "mock-upstream-b"));
    injector.on_outcome(true);
    let second = injector.next_mutation().unwrap();
    assert_eq!((second.generation, second.backend.as_str()), (2, "mock-upstream"));
    injector.on_outcome(false);
    assert_eq!(injector.stats().snapshot(), (2, 1, 1));
    assert_eq!(injector.config().route_name, "benchmark-route");
}

#[test]
fn every_candidate_has_a_manifest() {
    for c in Candidate::all() {
        assert!(
            Manifests::for_candidate(c).is_some(),
            "{} has no manifest",
            c.display_name()
        );
    }
    assert_eq!(
        Manifests::for_candidate(Candidate::Traefik),
        Some(Manifests::TRAEFIK)
    );
}

#[test]
fn host_ports_are_unique() {
    let ports: Vec<u16> = Candidate::all()
        .iter()
        .map(|c| Deployer::host_port(*c))
        .collect();
    let mut sorted = ports.clone();
    sorted.sort_unstable();
    sorted.dedup();
    assert_eq!(sorted.len(), ports.len(), "host ports collide: {ports:?}");
}

#[test]
fn each_candidate_owns_a_distinct_gateway() {
    let names: Vec<&str> = Candidate::all().iter().map(|c| gateway_name(*c)).collect();
    let mut sorted = names.clone();
    sorted.sort_unstable();
    sorted.dedup();
    assert_eq!(
        sorted.len(),
        names.len(),
        "gateway names collide: {names:?}"
    );
}

#[test]
fn traefik_lives_in_its_own_namespace() {
    assert_eq!(deployment_ref(Candidate::Traefik).0, "traefik");
    for c in Candidate::rust_candidates() {
        assert_eq!(deployment_ref(c).0, "default");
    }
}

#[test]
fn pinned_versions_match_the_plan() {
    assert_eq!(KIND_NODE_IMAGE, "kindest/node:v1.31.6");
    assert_eq!(GATEWAY_API_VERSION, "v1.2.1");
    assert_eq!(TRAEFIK_IMAGE, "traefik:v3.7.12");
    assert!(GATEWAY_API_CRD_URL.contains(GATEWAY_API_VERSION));
}

#[test]
fn context_name_follows_the_kind_convention() {
    let c = KindCluster::new(KindConfig::default());
    assert_eq!(c.context(), "kind-lb-bench");
}

#[test]
fn a_cluster_is_found_in_a_listing_by_its_whole_name() {
    let c = KindCluster::new(KindConfig::default());
    assert!(c.exists_in("kind\n  lb-bench \r\nother\n"));
    assert!(!c.exists_in("lb-bench-2\n"));
    assert!(!c.exists_in(""));
}

#[test]
fn commands_name_the_cluster() {
    let c = KindCluster::new(KindConfig::default());
    assert_eq!(
        c.create_args(),
        [
            "create",
            "cluster",
            "--name",
            "lb-bench",
            "--config",
            "k8s/kind-cluster-config.yaml",
            "--wait",
            "120s",
        ]
    );
    assert_eq!(c.destroy_args(), ["delete", "cluster", "--name", "lb-bench"]);
    assert_eq!(
        c.load_image_args("img:1"),
        ["load", "docker-image", "img:1", "--name", "lb-bench"]
    );
    assert_eq!(
        Deployer::rollout_args("default", "mock-upstream", 180),
        [
            "-n",
            "default",
            "rollout",
            "status",
            "deployment/mock-upstream",
            "--timeout=180s",
        ]
    );
    let (first, then) = Deployer::manifests(Candidate::Traefik);
    assert_eq!(first, [Manifests::TRAEFIK]);
    assert_eq!(then, [Manifests::TRAEFIK_GATEWAY, Manifests::BENCHMARK_ROUTE]);
}

#[test]
fn creating_without_a_config_file_reports_the_path() {
    let cluster = KindCluster::new(KindConfig {
        cluster_name: "lb-bench-test-nonexistent".to_string(),
        config_path: "/nonexistent/kind.yaml".to_string(),
    });
    let message = cluster.creation("kind\n", false).unwrap_err();
    assert!(message.contains("/nonexistent/kind.yaml"));
    assert_eq!(message, "kind config not found at /nonexistent/kind.yaml");
    assert_eq!(
        cluster.creation("kind\n", true).unwrap(),
        Some(cluster.create_args())
    );
    assert_eq!(cluster.creation("lb-bench-test-nonexistent\n", false), Ok(None));
}

#[test]
fn kept_definitions_are_preferred() {
    assert_eq!(crd_source(true), GATEWAY_API_CRD_FILE);
    assert_eq!(crd_source(false), GATEWAY_API_CRD_URL);
}

#[test]
fn failures_carry_what_was_complained_of() {
    assert_eq!(
        failure_message("kubectl apply", "exit status: 1", " no such file \n"),
        "kubectl apply failed (exit status: 1): no such file"
    );
}
