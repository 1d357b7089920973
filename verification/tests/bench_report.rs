//! Reports.

use lb::bench::calendar::format_iso8601;
use lb::bench::csv::{escape, export_csv, CSV_HEADER};
use lb::bench::order::{sorted_order, SortKey};
use lb::bench::report::{
    cpu_model, flamegraph_section, generate_markdown_report, hardware_markdown, human_bytes,
    micros, pgo_delta_section, target_cpu, tool_version, HardwareSpec, RunDirectory,
};
use lb::bench::result::{BenchmarkResult, Figures};

fn result(name: &str, rps: f64) -> BenchmarkResult {
    BenchmarkResult {
        candidate_name: name.to_string(),
        scenario_name: "Throughput".to_string(),
        concurrency: 1_000,
        payload_bytes: 1024,
        http_version: "HTTP/1.1".to_string(),
        total_requests: 1_000,
        successful_requests: 1_000,
        failed_requests: 0,
        error_responses: 0,
        bytes_received: 1_024_000,
        latency_p50_us: 500,
        latency_p90_us: 900,
        latency_p95_us: 1_200,
        latency_p99_us: 2_500,
        latency_p999_us: 9_000,
        latency_p9999_us: 40_000,
        latency_max_us: 1_500_000,
        co_corrected_p99_us: 8_000,
        co_corrected_p999_us: 90_000,
        figures: Figures {
            duration_secs: "10.0000".to_string(),
            rps: format!("{rps:.2}"),
            rps_whole: format!("{rps:.0}"),
            throughput: "0.1000".to_string(),
            throughput_short: "0.1".to_string(),
            latency_mean_us: "600.00".to_string(),
            latency_stdev_us: "120.00".to_string(),
            cpu_usage_pct: "250.00".to_string(),
            cpu_usage_short: "250.0".to_string(),
            rss_memory_mb: "64.00".to_string(),
            rss_memory_short: "64.0".to_string(),
            rss_per_thousand: "64.00".to_string(),
            unclean_share: "0.00".to_string(),
        },
    }
}

fn hardware() -> HardwareSpec {
    HardwareSpec {
        cpu_model: "Some CPU".to_string(),
        cpu_cores_physical: 8,
        cpu_cores_logical: 16,
        cpu_frequency_mhz: 3_600,
        ram_total_gb: "31.25".to_string(),
        os: "Linux 6".to_string(),
        kernel: "6.1".to_string(),
        arch: "x86_64".to_string(),
        rust_version: "rustc 1.85.0".to_string(),
        docker_version: "not installed".to_string(),
        kind_version: "not installed".to_string(),
        target_cpu: "x86_64".to_string(),
        build_profile: "release".to_string(),
        timestamp_utc: "2026-08-28T12:00:00Z".to_string(),
    }
}

// ---------------------------------------------------------------------------
// CSV
// ---------------------------------------------------------------------------

fn sample() -> BenchmarkResult {
    let mut r = result("lb-proxy-hyper", 10.0);
    r.scenario_name = "Throughput, full sweep".to_string();
    r.total_requests = 100;
    r.successful_requests = 98;
    r.failed_requests = 2;
    r.error_responses = 1;
    r.bytes_received = 102_400;
    r.latency_p50_us = 100;
    r.latency_p90_us = 200;
    r.latency_p95_us = 250;
    r.latency_p99_us = 300;
    r.latency_p999_us = 400;
    r.latency_p9999_us = 500;
    r.latency_max_us = 600;
    r.co_corrected_p99_us = 350;
    r.co_corrected_p999_us = 450;
    r.figures.throughput = "0.0097".to_string();
    r.figures.latency_mean_us = "150.00".to_string();
    r.figures.latency_stdev_us = "25.00".to_string();
    r.figures.cpu_usage_pct = "55.50".to_string();
    r.figures.rss_memory_mb = "42.25".to_string();
    r
}

/// Minimal RFC 4180 row splitter, for assertions only.
fn split_csv_row(row: &str) -> Vec<String> {
    let mut fields = Vec::new();
    let mut current = String::new();
    let mut in_quotes = false;
    let mut chars = row.chars().peekable();
    while let Some(c) = chars.next() {
        match c {
            '"' if in_quotes && chars.peek() == Some(&'"') => {
                current.push('"');
                chars.next();
            }
            '"' => in_quotes = !in_quotes,
            ',' if !in_quotes => fields.push(std::mem::take(&mut current)),
            other => current.push(other),
        }
    }
    fields.push(current);
    fields
}

#[test]
fn header_column_count_matches_the_rows() {
    let csv = export_csv(&vec![sample()]);
    let mut lines = csv.lines();
    let header_cols = lines.next().unwrap().split(',').count();
    let row = lines.next().unwrap();
    // Count fields respecting the single quoted field in the sample.
    let row_cols = split_csv_row(row).len();
    assert_eq!(header_cols, row_cols, "header/row column mismatch:\n{csv}");
    assert_eq!(header_cols, 26);
}

#[test]
fn commas_in_names_are_quoted_not_leaked() {
    let csv = export_csv(&vec![sample()]);
    assert!(
        csv.contains("\"Throughput, full sweep\""),
        "scenario name must be quoted: {csv}"
    );
    let row = csv.lines().nth(1).unwrap();
    let fields = split_csv_row(row);
    assert_eq!(fields[1], "Throughput, full sweep");
    assert_eq!(fields[2], "1000", "column alignment broke");
}

#[test]
fn a_row_lists_every_figure() {
    let csv = export_csv(&vec![sample()]);
    assert_eq!(
        csv.lines().nth(1).unwrap(),
        "lb-proxy-hyper,\"Throughput, full sweep\",1000,1024,HTTP/1.1,100,98,2,1,102400,\
         10.0000,10.00,0.0097,100,200,250,300,400,500,600,150.00,25.00,350,450,55.50,42.25"
    );
}

#[test]
fn embedded_quotes_are_doubled() {
    let mut r = sample();
    r.candidate_name = "he said \"hi\"".to_string();
    let csv = export_csv(&vec![r]);
    assert!(csv.contains("\"he said \"\"hi\"\"\""), "{csv}");
}

#[test]
fn fields_are_escaped_only_where_they_must_be() {
    assert_eq!(escape("plain"), "plain");
    assert_eq!(escape("a\nb"), "\"a\nb\"");
    assert_eq!(escape("\""), "\"\"\"\"");
    assert_eq!(escape(""), "");
    for field in ["a,b", "\"", "x\"y,z", ",,", "a\nb"] {
        let row = format!("{},end", escape(field));
        assert_eq!(split_csv_row(&row), [field, "end"]);
    }
}

#[test]
fn empty_results_still_emit_the_header() {
    let csv = export_csv(&vec![]);
    assert_eq!(csv.trim(), CSV_HEADER);
}

#[test]
fn coordinated_omission_columns_are_present() {
    let csv = export_csv(&vec![sample()]);
    assert!(csv.contains("co_p99_us"));
    assert!(csv.contains("co_p999_us"));
}

// ---------------------------------------------------------------------------
// Run directory and environment
// ---------------------------------------------------------------------------

#[test]
fn run_directory_creates_the_layout_from_the_plan() {
    let dir = RunDirectory::at("base", "2026-08-28T12:00:00Z");
    assert_eq!(dir.root, "base/run_20260828T120000");
    assert_eq!(dir.flamegraphs(), "base/run_20260828T120000/flamegraphs");
    assert_eq!(dir.plots(), "base/run_20260828T120000/plots");
    assert_eq!(dir.report_md(), "base/run_20260828T120000/report.md");
    assert_eq!(dir.hardware_json(), "base/run_20260828T120000/hardware_spec.json");
    assert_eq!(dir.raw_metrics_json(), "base/run_20260828T120000/raw_metrics.json");
    assert_eq!(dir.results_csv(), "base/run_20260828T120000/results.csv");
}

#[test]
fn directory_name_has_no_characters_that_break_archives() {
    let dir = RunDirectory::at("", "2026-08-28T12:34:56Z");
    let name = dir.root;
    assert!(!name.contains(':'), "{name}");
    assert_eq!(name, "run_20260828T123456");
}

#[test]
fn iso8601_matches_known_timestamps() {
    assert_eq!(format_iso8601(0), "1970-01-01T00:00:00Z");
    assert_eq!(format_iso8601(1_000_000_000), "2001-09-09T01:46:40Z");
    // 2024-02-29, a leap day.
    assert_eq!(format_iso8601(1_709_164_800), "2024-02-29T00:00:00Z");
    assert_eq!(format_iso8601(1_735_689_599), "2024-12-31T23:59:59Z");
}

#[test]
fn iso8601_knows_the_centuries() {
    assert_eq!(format_iso8601(951_782_400), "2000-02-29T00:00:00Z");
    assert_eq!(format_iso8601(4_107_542_399), "2100-02-28T23:59:59Z");
    assert_eq!(format_iso8601(4_107_542_400), "2100-03-01T00:00:00Z");
    assert_eq!(format_iso8601(253_402_300_800), "10000-01-01T00:00:00Z");
}

#[test]
fn markdown_reports_the_detected_toolchain_not_a_literal() {
    let hw = hardware();
    let md = hardware_markdown(&hw);
    assert!(
        md.contains(&hw.rust_version),
        "must embed the probed rustc version"
    );
    assert!(md.contains(&hw.cpu_model));
    assert!(md.contains("Docker"));
    assert!(md.contains("kind"));
    assert!(md.contains("| Cores | 8 physical / 16 logical |\n"));
    assert!(md.contains("| RAM | 31.25 GB |\n"));
    assert!(md.ends_with("| Captured | 2026-08-28T12:00:00Z |\n\n"));
}

#[test]
fn missing_tools_are_reported_not_fatal() {
    assert_eq!(tool_version(None), "not installed");
    assert_eq!(tool_version(Some("")), "not installed");
    assert_eq!(tool_version(Some("  \nx")), "not installed");
    assert_eq!(tool_version(Some(" rustc 1.85.0 \nmore")), "rustc 1.85.0");
}

#[test]
fn machines_are_described_as_far_as_they_tell() {
    assert_eq!(cpu_model(Some("  Fast ")), "Fast");
    assert_eq!(cpu_model(Some(" ")), "Unknown CPU");
    assert_eq!(cpu_model(None), "Unknown CPU");
    assert_eq!(target_cpu("x86_64", &vec![]), "x86_64");
    let features = vec!["avx2".to_string(), "sse4.2".to_string()];
    assert_eq!(target_cpu("x86_64", &features), "x86_64 (avx2, sse4.2)");
}

// ---------------------------------------------------------------------------
// Markdown
// ---------------------------------------------------------------------------

#[test]
fn report_contains_every_required_section() {
    let md = generate_markdown_report(&hardware(), &vec![result("lb-proxy-hyper", 100_000.0)]);
    for section in [
        "Hardware & Environment",
        "Throughput & Latency",
        "Tail Latency",
        "Resource Footprint",
        "Run Integrity",
    ] {
        assert!(md.contains(section), "report is missing '{section}'");
    }
    assert!(md.contains(
        "| **lb-proxy-hyper** | HTTP/1.1 | 1 KiB | 1000 | **100000** | 0.1 MiB/s | 500 µs | 2.50 ms | 9.00 ms |\n"
    ));
    assert!(md.contains(
        "| lb-proxy-hyper | 1000 | 2.50 ms | 8.00 ms | 9.00 ms | 90.00 ms | 40.00 ms | 1.50 s |\n"
    ));
}

#[test]
fn toolchain_is_taken_from_detection_not_hardcoded() {
    let hw = hardware();
    let md = generate_markdown_report(&hw, &vec![result("x", 1.0)]);
    assert!(md.contains(&hw.rust_version));
    assert!(
        !md.contains("1.97.1 (2024 Edition)") || hw.rust_version.contains("1.97.1"),
        "toolchain string must come from detection"
    );
}

#[test]
fn empty_results_produce_a_valid_report() {
    let md = generate_markdown_report(&hardware(), &vec![]);
    assert!(md.contains("No measurements"));
}

#[test]
fn dirty_runs_are_flagged_with_a_warning() {
    let mut bad = result("lb-proxy-monoio", 500_000.0);
    bad.failed_requests = 120;
    bad.error_responses = 30;
    bad.figures.unclean_share = "15.00".to_string();
    let md = generate_markdown_report(&hardware(), &vec![result("a", 1.0), bad]);
    assert!(md.contains("WARNING"), "{md}");
    assert!(md.contains("15.00%"), "failure share should be shown: {md}");
    assert!(md.contains("| lb-proxy-monoio | 1000 | 120 | 30 | 15.00% |\n"));
    assert!(!md.contains("| a | 1000 | 0 | 0 |"), "clean runs are not listed");
}

#[test]
fn clean_runs_say_so_explicitly() {
    let md = generate_markdown_report(&hardware(), &vec![result("a", 1.0)]);
    assert!(md.contains("zero transport failures"));
}

#[test]
fn pgo_section_pairs_and_averages() {
    let standard = result("h [standard]", 1_000.0);
    let pgo = result("h [pgo]", 1_100.0);
    let md = pgo_delta_section(&vec![standard, pgo], &vec!["+10.0".to_string()], "+10.0");
    assert!(md.contains("+10.0%"), "{md}");
    assert!(md.contains("Mean throughput change"));
    assert!(md.contains(
        "| c1000 / 1 KiB / HTTP/1.1 | 1000 | 1100 | **+10.0%** | 2.50 ms | 2.50 ms |\n"
    ));
}

#[test]
fn pgo_section_is_empty_without_paired_runs() {
    assert!(pgo_delta_section(&vec![result("plain", 1.0)], &vec![], "").is_empty());
}

#[test]
fn units_are_rendered_readably() {
    assert_eq!(micros(999), "999 µs");
    assert_eq!(micros(2_500), "2.50 ms");
    assert_eq!(micros(1_500_000), "1.50 s");
    assert_eq!(human_bytes(1024), "1 KiB");
    assert_eq!(human_bytes(1024 * 1024), "1 MiB");
    assert_eq!(human_bytes(0), "-");
}

#[test]
fn units_are_rounded_as_the_hardware_rounds() {
    for us in (1_000..20_000u64).chain(999_000..1_000_000) {
        assert_eq!(micros(us), format!("{:.2} ms", us as f64 / 1_000.0));
    }
    for us in [1_000_000, 1_005_000, 1_015_000, 59_999_999, 1 << 60, u64::MAX] {
        assert_eq!(micros(us), format!("{:.2} s", us as f64 / 1_000_000.0));
    }
    assert_eq!(human_bytes(1023), "1023 B");
}

#[test]
fn flamegraph_links_are_relative_to_the_report() {
    let md = flamegraph_section(&vec![
        "/abs/results/run_x/flamegraphs/lb-proxy-hyper-c1000.svg".to_string(),
    ]);
    assert!(
        md.contains("(flamegraphs/lb-proxy-hyper-c1000.svg)"),
        "{md}"
    );
    assert!(!md.contains("/abs/"), "links must not be absolute: {md}");
    assert_eq!(
        md,
        "## Flamegraphs\n\n- [lb-proxy-hyper-c1000](flamegraphs/lb-proxy-hyper-c1000.svg)\n\n"
    );
    assert!(flamegraph_section(&vec![]).is_empty());
}

#[test]
fn flamegraph_names_follow_the_path() {
    for path in ["a/b.tar.svg", "b.tar.svg/", "x/b.tar.svg/.", "/b.tar.svg"] {
        let std_path = std::path::Path::new(path);
        let stem = std_path.file_stem().unwrap().to_str().unwrap();
        let name = std_path.file_name().unwrap().to_str().unwrap();
        assert_eq!(
            flamegraph_section(&vec![path.to_string()]),
            format!("## Flamegraphs\n\n- [{stem}](flamegraphs/{name})\n\n")
        );
    }
    for path in ["/", "..", "a/..", "."] {
        assert_eq!(
            flamegraph_section(&vec![path.to_string()]),
            format!("## Flamegraphs\n\n- [profile]({path})\n\n")
        );
    }
    assert!(flamegraph_section(&vec![".hidden".to_string()]).contains("[.hidden]"));
}

#[test]
fn resource_table_normalises_per_thousand_connections() {
    let md = generate_markdown_report(&hardware(), &vec![result("x", 1.0)]);
    // 64 MiB at 1000 connections.
    assert!(md.contains("64.00 MiB"), "{md}");
    assert!(md.contains("| x | 1000 | 250.0% | 64.0 MiB | 64.00 MiB |\n"));
}

#[test]
fn results_are_listed_by_name_then_concurrency_as_they_came() {
    let key = |name: &str, number: usize| SortKey { name: name.to_string(), number };
    let keys = vec![key("b", 5), key("a", 9), key("b", 1), key("a", 9), key("", 3), key("aa", 0)];
    assert_eq!(sorted_order(&keys), [4, 1, 3, 5, 2, 0]);
}

#[test]
fn timestamps_sort_as_the_moments_do() {
    let moments = [
        0,
        59,
        60,
        86_399,
        86_400,
        951_782_399,
        951_782_400,
        1_709_164_800,
        1_735_689_599,
        1_735_689_600,
        253_402_300_799,
    ];
    for pair in moments.windows(2) {
        let (a, b) = (format_iso8601(pair[0]), format_iso8601(pair[1]));
        assert!(a < b, "{a} and {b}");
        assert_eq!((a.len(), b.len()), (20, 20));
    }
}
