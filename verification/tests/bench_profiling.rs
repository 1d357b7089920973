//! Flamegraphs and PGO builds.

use lb::bench::candidate::Candidate;
use lb::bench::profiling::{
    count_raw_profiles, has_symbols, FlamegraphCapture, FlamegraphConfig, PgoConfig, PgoPipeline,
};

#[test]
fn output_paths_are_unique_per_candidate_and_concurrency() {
    let capture = FlamegraphCapture::new(FlamegraphConfig::default());
    let mut paths: Vec<String> = Vec::new();
    for c in Candidate::all() {
        for concurrency in [100usize, 1_000] {
            paths.push(capture.output_path(c, concurrency));
        }
    }
    let mut sorted = paths.clone();
    sorted.sort();
    sorted.dedup();
    assert_eq!(sorted.len(), paths.len(), "flamegraph paths collide");
}

#[test]
fn output_path_matches_the_layout_in_the_plan() {
    let capture = FlamegraphCapture::new(FlamegraphConfig::default());
    let path = capture.output_path(Candidate::Hyper, 1_000);
    assert!(path.ends_with("lb-proxy-hyper-c1000.svg"), "{path}");
    assert_eq!(path, "results/flamegraphs/lb-proxy-hyper-c1000.svg");
}

#[test]
fn sampling_frequency_is_prime_to_avoid_aliasing() {
    // A round frequency can lock onto a periodic workload and over-sample one
    // phase of it.
    let f = FlamegraphConfig::default().frequency;
    assert!(
        (2..f).filter(|d| f % d == 0).count() == 0,
        "{f} is not prime"
    );
}

#[test]
fn collected_is_empty_when_the_directory_is_absent() {
    let capture = FlamegraphCapture::new(FlamegraphConfig {
        output_dir: "/nonexistent/flamegraphs".to_string(),
        ..Default::default()
    });
    assert!(capture.collected(&vec![]).is_empty());
}

#[test]
fn collected_keeps_the_svgs_in_order() {
    let capture = FlamegraphCapture::new(FlamegraphConfig {
        output_dir: "d".to_string(),
        ..Default::default()
    });
    let names: Vec<String> = ["b.svg", "notes.txt", ".svg", "a.svg", "aa.svg", "B.svg"]
        .iter()
        .map(|n| n.to_string())
        .collect();
    assert_eq!(
        capture.collected(&names),
        ["d/B.svg", "d/a.svg", "d/aa.svg", "d/b.svg"]
    );
}

#[test]
fn capture_commands() {
    let capture = FlamegraphCapture::new(FlamegraphConfig::default());
    assert_eq!(
        capture.capture_args(42, "o.svg"),
        ["--pid", "42", "--freq", "997", "--output", "o.svg", "--", "sleep", "30"]
    );
    assert_eq!(
        capture.pprof_args("http://t:8080", "o.svg"),
        [
            "tool",
            "pprof",
            "-svg",
            "-output",
            "o.svg",
            "http://t:8080/debug/pprof/profile?seconds=30",
        ]
    );
}

#[test]
fn default_config_points_at_the_plan_paths() {
    let c = PgoConfig::default();
    assert_eq!(c.profile_dir, "target/pgo-profiles");
    assert_eq!(c.route_config, "examples/pgo_routes.yaml");
    assert_eq!(c.concurrencies, vec![100, 500, 1_000]);
}

#[test]
fn merging_without_profraw_files_is_an_explicit_error() {
    let pipeline = PgoPipeline::new(PgoConfig::default());
    let message = pipeline.check_profiles(0).unwrap_err();
    assert!(message.contains("no .profraw"), "unexpected error: {message}");
    assert_eq!(pipeline.check_profiles(2), Ok(2));
}

#[test]
fn traefik_cannot_be_pgo_built() {
    let message = PgoPipeline::binary(Candidate::Traefik).unwrap_err();
    assert!(message.contains("cannot be PGO built"));
    assert_eq!(PgoPipeline::binary(Candidate::Hyper), Ok("lb-proxy-hyper"));
}

#[test]
fn an_empty_profile_is_refused() {
    assert!(PgoPipeline::check_driven(0).unwrap_err().contains("drove 0 requests"));
    assert_eq!(PgoPipeline::check_driven(5), Ok(5));
}

#[test]
fn the_three_passes_in_words() {
    let pipeline = PgoPipeline::new(PgoConfig::default());
    assert_eq!(
        PgoPipeline::build_args("lb-proxy-hyper"),
        ["build", "--release", "--bin", "lb-proxy-hyper"]
    );
    assert_eq!(
        pipeline.instrumented_flags("/p"),
        "-C target-cpu=native -C profile-generate=/p"
    );
    assert_eq!(
        pipeline.optimized_flags("/p/merged.profdata"),
        "-C target-cpu=native -C profile-use=/p/merged.profdata -C llvm-args=-pgo-warn-missing-function"
    );
    assert_eq!(pipeline.merged_path(), "target/pgo-profiles/merged.profdata");
    assert_eq!(pipeline.release_dir(), "target/release");
    assert_eq!(
        pipeline.collection(),
        [
            (100, 1024),
            (100, 65_536),
            (500, 1024),
            (500, 65_536),
            (1_000, 1024),
            (1_000, 65_536),
        ]
    );
    assert_eq!(pipeline.collection_load("u", 100).duration, 10_000_000_000);
}

#[test]
fn only_raw_profiles_are_counted() {
    let names: Vec<String> = ["a.profraw", ".profraw", "b.profdata", "c.d.profraw"]
        .iter()
        .map(|n| n.to_string())
        .collect();
    assert_eq!(count_raw_profiles(&names), 2);
}

#[test]
fn a_stripped_binary_lists_next_to_nothing() {
    assert!(has_symbols(Some((true, 1025))));
    assert!(!has_symbols(Some((true, 1024))));
    assert!(!has_symbols(Some((false, 9999))));
    assert!(has_symbols(None));
}
