//! System limits.

use lb::bench::preflight::{
    ephemeral_range, parse_setting, Check, Limits, Preflight, Severity, MOST_CONNECTIONS,
};
use lb::lb_core::double::{scale_up, Double};

fn times(multiplier: f64) -> Double {
    Double::from_bits(multiplier.to_bits()).unwrap()
}

/// The limits of a common Linux machine.
fn linux() -> Limits {
    Limits {
        open_files: 1_048_576,
        max_files_per_process: None,
        max_files: None,
        listen_backlog: None,
        first_port: Some(32_768),
        last_port: Some(60_999),
        segment_lifetime_ms: None,
    }
}

/// The limits of macOS out of the box.
fn macos() -> Limits {
    Limits {
        open_files: 256,
        max_files_per_process: Some(61_440),
        max_files: Some(122_880),
        listen_backlog: Some(128),
        first_port: Some(49_152),
        last_port: Some(65_535),
        segment_lifetime_ms: Some(15_000),
    }
}

#[test]
fn low_concurrency_has_headroom_everywhere() {
    let pre = Preflight::evaluate(100, times(1.0), &linux());
    assert!(
        pre.blocking().is_empty(),
        "100 connections should be trivially achievable:\n{}",
        pre.report()
    );
}

#[test]
fn absurd_concurrency_is_blocked_not_silently_accepted() {
    let pre = Preflight::evaluate(500_000, times(1.0), &linux());
    assert!(
        !pre.blocking().is_empty(),
        "500k connections cannot be achievable on any developer machine"
    );
}

#[test]
fn severity_ordering_is_meaningful() {
    assert!(Severity::Fine < Severity::Tight);
    assert!(Severity::Tight < Severity::Blocking);
}

#[test]
fn a_check_at_exactly_the_requirement_passes() {
    let c = Check::new("x", 100, 100, "", None);
    assert_eq!(c.severity, Severity::Fine);
}

#[test]
fn a_check_slightly_under_is_tight_not_blocking() {
    let c = Check::new("x", 85, 100, "", None);
    assert_eq!(c.severity, Severity::Tight);
    assert!(!c.is_blocking());
}

#[test]
fn a_check_far_under_blocks() {
    let c = Check::new("x", 10, 100, "", None);
    assert_eq!(c.severity, Severity::Blocking);
    assert!(c.is_blocking());
}

#[test]
fn the_threshold_lies_at_four_fifths() {
    assert_eq!(Check::new("x", 80, 100, "", None).severity, Severity::Tight);
    assert_eq!(Check::new("x", 79, 100, "", None).severity, Severity::Blocking);
}

#[test]
fn max_supported_is_monotonic_and_self_consistent() {
    for limits in [linux(), macos()] {
        let max = Preflight::max_supported(times(1.0), &limits);
        assert!(
            max == 0 || Preflight::evaluate(max, times(1.0), &limits).blocking().is_empty(),
            "max_supported returned {max}, which itself blocks"
        );
        if max < MOST_CONNECTIONS {
            assert!(
                !Preflight::evaluate(max + 1, times(1.0), &limits).blocking().is_empty(),
                "max_supported returned {max} but {} also passes",
                max + 1
            );
        }
    }
    // 28 232 ports are four fifths of 35 290, of which 4 096 are kept back.
    assert_eq!(Preflight::max_supported(times(1.0), &linux()), (35_290 - 4_096) / 2);
    assert_eq!(Preflight::max_supported(times(1.0), &macos()), 0);
}

#[test]
fn report_names_the_remedy_for_every_blocking_check() {
    let pre = Preflight::evaluate(500_000, times(1.0), &macos());
    let report = pre.report();
    assert!(report.contains("BLOCKING"));
    for check in pre.blocking() {
        if check.remedy.is_some() {
            assert!(
                report.contains(check.name),
                "report omits blocking check {}",
                check.name
            );
        }
    }
    assert!(report.contains("      ulimit -n 2000000\n"));
    assert!(report.contains("      sudo sysctl -w kern.maxfiles=4000000\n"));
    assert!(report.contains("      sudo sysctl -w kern.ipc.somaxconn=8192\n"));
    assert!(report.contains("  # macOS\n      # Linux: sudo sysctl"));
}

#[test]
fn a_report_has_one_line_for_each_check() {
    let pre = Preflight::evaluate(100, times(1.0), &linux());
    assert_eq!(
        pre.report(),
        "System preflight for 100 concurrent connections\n\n\
         \x20 [ok  ] open files (ulimit -n)     have 1048576  need    1224\n\
         \x20 [ok  ] ephemeral port range       have   28232  need    4296\n\
         \n  All limits have headroom.\n"
    );
}

#[test]
fn lifetimes_are_checked_as_headroom() {
    let pre = Preflight::evaluate(1, times(0.0), &macos());
    let drain = pre.checks.last().unwrap();
    assert_eq!(drain.name, "TIME_WAIT drain (2*MSL, s)");
    assert_eq!((drain.current, drain.required), (2, 2));
}

#[test]
fn settings_are_read_as_the_system_prints_them() {
    assert_eq!(parse_setting("61440\n"), Some(61_440));
    assert_eq!(parse_setting("unknown"), None);
    assert_eq!(
        ephemeral_range(Some(1), Some(2), Some("3 4")),
        (Some(1), Some(2))
    );
    assert_eq!(
        ephemeral_range(Some(1), None, Some("32768\t60999\n")),
        (Some(32_768), Some(60_999))
    );
    assert_eq!(ephemeral_range(None, None, Some("x 5")), (None, Some(5)));
    assert_eq!(ephemeral_range(None, None, None), (None, None));
}

#[test]
fn needs_are_worked_out_in_doubles() {
    // 1.15 is a little less than it says.
    let pre = Preflight::evaluate(100, times(0.15), &linux());
    assert_eq!(pre.checks[1].required, 114 + 4_096);
    for multiplier in [
        0.0,
        0.15,
        1.0,
        0.1 + 0.2,
        1.0 / 3.0,
        1e-4,
        1e-7,
        1e-15,
        1.2e-16,
        1e-300,
        5e-324,
        1_234.567,
        9_007_199_254_740_991.0,
    ] {
        for n in [0u64, 1, 3, 7, 100, 65_537, 199_999, (1 << 53) + 1, u64::MAX / 5] {
            let (once, twice) = scale_up(n, times(multiplier));
            assert_eq!(once, (n as f64 * (1.0 + multiplier)) as u128, "{n} {multiplier}");
            assert_eq!(twice, (n as f64 * (2.0 + multiplier * 2.0)) as u128, "{n} {multiplier}");
        }
    }
}

#[test]
fn doubles_out_of_range_are_not_taken() {
    for x in [-1.0, f64::NAN, f64::INFINITY, 9_007_199_254_740_992.0] {
        assert!(Double::from_bits(x.to_bits()).is_none());
    }
    assert!(Preflight::can_count(200_000, times(1.0)));
    assert!(!Preflight::can_count(200_000, times(1e15)));
}
