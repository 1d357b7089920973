//! The proxies under test and how they are launched.

use lb::bench::candidate::{
    base_url, binaries_present, default_binary_dir, next_ready_delay_ms, not_ready_message, Candidate,
    LaunchSpec,
};

#[test]
fn candidate_names_round_trip() {
    for c in Candidate::all() {
        assert_eq!(Candidate::parse(c.display_name()), Some(c), "{c:?}");
    }
    assert_eq!(Candidate::parse("HYPER"), Some(Candidate::Hyper));
    assert_eq!(Candidate::parse("nginx"), None);
    assert_eq!(Candidate::parse(" traefik-v9 "), Some(Candidate::Traefik));
}

#[test]
fn every_candidate_has_a_distinct_default_port() {
    let ports: Vec<u16> = Candidate::all().iter().map(|c| c.default_port()).collect();
    let mut sorted = ports.clone();
    sorted.sort_unstable();
    sorted.dedup();
    assert_eq!(
        sorted.len(),
        ports.len(),
        "default ports collide: {ports:?}"
    );
    assert_eq!(ports, [18080, 18081, 18082, 8000]);
}

#[test]
fn only_traefik_needs_the_go_gc_settle_phase() {
    assert!(Candidate::Traefik.is_go());
    for c in Candidate::rust_candidates() {
        assert!(!c.is_go(), "{c:?} must not be treated as a Go runtime");
    }
}

#[test]
fn traefik_cannot_be_launched_locally() {
    assert!(Candidate::Traefik.binary_name().is_none());
}

#[test]
fn launching_a_missing_binary_reports_the_path() {
    let spec = LaunchSpec::new(
        Candidate::Hyper,
        "127.0.0.1:1",
        1,
        "127.0.0.1:2",
        "/nonexistent/dir",
    );
    let message = match spec.command("/tmp", false) {
        Ok(_) => panic!("a missing binary cannot be launched"),
        Err(message) => message,
    };
    assert!(message.contains("lb-proxy-hyper"), "{message}");
    assert!(message.contains("cargo build"), "{message}");
    assert_eq!(
        message,
        "/nonexistent/dir/lb-proxy-hyper not found. Build it first: cargo build --release --bin lb-proxy-hyper"
    );
}

#[test]
fn a_rust_candidate_is_launched_with_its_own_flags() {
    let mut spec = LaunchSpec::new(Candidate::Hyper, "127.0.0.1:1", 1, "127.0.0.1:2", "bin/");
    spec.workers = Some(4);
    spec.config_path = Some("routes.yaml".to_string());
    let command = spec.command("/tmp", true).ok().unwrap();
    assert_eq!(command.program, "bin/lb-proxy-hyper");
    assert_eq!(
        command.args,
        [
            "--listen",
            "127.0.0.1:1",
            "--default-upstream",
            "127.0.0.1:2",
            "--mode",
            "standalone",
            "--workers",
            "4",
            "--config",
            "routes.yaml",
        ]
    );
    assert_eq!(command.env, [("RUST_LOG".to_string(), "warn".to_string())]);
    assert!(command.file.is_none());

    spec.candidate = Candidate::Monoio;
    spec.env.push(("RUST_LOG".to_string(), "debug".to_string()));
    let command = spec.command("/tmp", true).ok().unwrap();
    assert!(command.args.contains(&"--threads".to_string()));
    assert_eq!(command.env, [("RUST_LOG".to_string(), "debug".to_string())]);
}

#[test]
fn traefik_is_launched_with_a_route_file() {
    let spec = LaunchSpec::new(Candidate::Traefik, "127.0.0.1:8000", 8000, "127.0.0.1:2", "bin");
    let command = spec.command("/tmp", false).ok().unwrap();
    assert_eq!(command.program, "traefik");
    assert_eq!(
        command.args,
        [
            "--entrypoints.web.address=:8000",
            "--providers.file.filename=/tmp/traefik_8000.yaml",
            "--log.level=WARN",
            "--ping=false",
            "--accesslog=false",
        ]
    );
    let (path, text) = command.file.unwrap();
    assert_eq!(path, "/tmp/traefik_8000.yaml");
    assert!(text.starts_with("http:\n  routers:\n"));
    assert!(text.ends_with("          - url: 'http://127.0.0.1:2'\n"));
}

#[test]
fn binary_dir_honours_the_environment_override() {
    assert_eq!(
        default_binary_dir(Some("/tmp/lb-binaries"), None, false),
        "/tmp/lb-binaries"
    );
    assert_eq!(default_binary_dir(None, None, false), "target/release");
    assert_eq!(default_binary_dir(None, Some("/t"), true), "/t/debug");
}

#[test]
fn attempts_to_connect_back_off_to_a_quarter_second() {
    let mut delay = 10;
    let mut seen = vec![delay];
    for _ in 0..6 {
        delay = next_ready_delay_ms(delay);
        seen.push(delay);
    }
    assert_eq!(seen, [10, 20, 40, 80, 160, 250, 250]);
}

#[test]
fn texts_of_a_running_candidate() {
    assert_eq!(base_url("127.0.0.1:18080"), "http://127.0.0.1:18080");
    assert_eq!(
        not_ready_message(Candidate::Monoio, "127.0.0.1:18082"),
        "lb-proxy-monoio did not accept connections on 127.0.0.1:18082 within 30s"
    );
}

#[test]
fn every_binary_must_be_present() {
    let list = |names: &[&str]| -> Vec<String> { names.iter().map(|n| n.to_string()).collect() };
    assert!(binaries_present(&list(&[
        "lb-proxy-monoio",
        "lb-proxy-hyper",
        "deps",
        "lb-proxy-pingora",
    ])));
    assert!(!binaries_present(&list(&["lb-proxy-monoio", "lb-proxy-hyper"])));
    assert!(!binaries_present(&list(&[])));
}
