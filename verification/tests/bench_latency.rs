//! Latency recording.

use hdrhistogram::Histogram;
use lb::bench::latency::{LatencyRecorder, Tally, WorkerRecorder, HIGHEST_US, LOWEST_US, SIGFIGS};

/// What a run gives.
struct Summary {
    tally: Tally,
    raw: Histogram<u64>,
    corrected: Histogram<u64>,
}

fn histogram(counts: &[(u64, u64)]) -> Histogram<u64> {
    let mut h = Histogram::new_with_bounds(LOWEST_US, HIGHEST_US, SIGFIGS).unwrap();
    for (value, count) in counts {
        h.record_n(*value, *count).unwrap();
    }
    h
}

fn summarize(mut rec: LatencyRecorder) -> Summary {
    let (raw, corrected) = rec.counts();
    Summary {
        tally: rec.tally(),
        raw: histogram(&raw),
        corrected: histogram(&corrected),
    }
}

#[test]
fn records_percentiles_from_a_known_distribution() {
    let mut rec = LatencyRecorder::new();
    let mut w = rec.worker();
    for i in 1..=1_000u64 {
        w.record_success(i, 100, 0);
    }
    rec.absorb(w);
    let r = summarize(rec);
    assert_eq!(r.tally.successful, 1_000);
    assert_eq!(r.tally.bytes, 100_000);
    // 3 significant figures, so allow the bucket width.
    let p50 = r.raw.value_at_percentile(50.0);
    let p99 = r.raw.value_at_percentile(99.0);
    assert!((490..=510).contains(&p50), "p50 was {p50}");
    assert!((985..=1_000).contains(&p99), "p99 was {p99}");
    assert_eq!(r.raw.max(), 1_000);
}

#[test]
fn coordinated_omission_correction_raises_the_tail() {
    // One 1-second stall against a 1 ms pacing target: the raw histogram sees a
    // single slow request, the corrected one back-fills the ~1000 requests that
    // could not be sent during the stall.
    let mut rec = LatencyRecorder::new();
    let mut w = rec.worker();
    for _ in 0..1_000 {
        w.record_success(1_000, 0, 1_000);
    }
    w.record_success(1_000_000, 0, 1_000);
    rec.absorb(w);
    let r = summarize(rec);
    let raw = r.raw.value_at_percentile(99.9);
    let corrected = r.corrected.value_at_percentile(99.9);
    assert!(
        corrected > raw,
        "CO correction must raise the tail: raw p99.9 {raw} vs corrected {corrected}"
    );
    let p99 = r.corrected.value_at_percentile(99.0);
    assert!(
        p99 > 100_000,
        "a 1s stall must dominate the corrected p99, got {p99}"
    );
    assert_eq!(r.corrected.len(), 2_000);
}

#[test]
fn zero_expected_interval_disables_correction() {
    let mut rec = LatencyRecorder::new();
    let mut w = rec.worker();
    for _ in 0..1_000 {
        w.record_success(1_000, 0, 0);
    }
    w.record_success(1_000_000, 0, 0);
    rec.absorb(w);
    let r = summarize(rec);
    assert_eq!(
        r.corrected.value_at_percentile(99.0),
        r.raw.value_at_percentile(99.0)
    );
}

#[test]
fn failures_are_counted_but_not_recorded_as_latency() {
    let mut rec = LatencyRecorder::new();
    let mut w = rec.worker();
    w.record_success(500, 10, 0);
    w.record_failure();
    w.record_failure();
    rec.absorb(w);
    assert_eq!(rec.completed(), 3);
    let r = summarize(rec);
    assert_eq!(r.tally.successful, 1);
    assert_eq!(r.tally.failed, 2);
    assert_eq!(r.tally.total(), 3);
    assert_eq!(r.raw.max(), 500, "failures must not enter the histogram");
    assert!(!r.tally.is_clean());
}

#[test]
fn error_responses_are_tracked_separately_from_failures() {
    let mut rec = LatencyRecorder::new();
    let mut w = rec.worker();
    w.record_success(100, 5, 0);
    w.record_error_response(200, 0);
    rec.absorb(w);
    let r = summarize(rec);
    assert_eq!(r.tally.error_responses, 1);
    assert_eq!(r.tally.failed, 0);
    assert_eq!(r.tally.successful, 2, "an error response still completed");
    assert!(!r.tally.is_clean());
}

#[test]
fn responses_are_told_apart_by_their_status() {
    let mut rec = LatencyRecorder::new();
    let mut w = rec.worker();
    for status in [200, 302, 399] {
        w.record_response(status, 10, 7, 0);
    }
    for status in [199, 404, 500] {
        w.record_response(status, 10, 7, 0);
    }
    rec.absorb(w);
    let tally = rec.tally();
    assert_eq!(tally.successful, 6);
    assert_eq!(tally.error_responses, 3);
    assert_eq!(tally.bytes, 21);
}

#[test]
fn latencies_are_clamped_to_what_the_histogram_tracks() {
    let mut rec = LatencyRecorder::new();
    let mut w = rec.worker();
    w.record_success(0, 0, 0);
    w.record_success(u64::MAX, 0, 0);
    rec.absorb(w);
    let r = summarize(rec);
    assert_eq!(r.raw.len(), 2);
    assert_eq!(r.raw.min(), 1);
    assert_eq!(r.raw.max(), r.raw.highest_equivalent(HIGHEST_US));
}

#[test]
fn many_workers_aggregate_without_losing_samples() {
    let mut rec = LatencyRecorder::new();
    let mut workers: Vec<WorkerRecorder> = (0..8).map(|_| rec.worker()).collect();
    for i in 0..5_000u64 {
        for w in &mut workers {
            w.record_success(1 + i % 1_000, 1, 0);
        }
    }
    for w in workers {
        rec.absorb(w);
    }
    let r = summarize(rec);
    assert_eq!(r.tally.successful, 40_000);
    assert_eq!(r.tally.bytes, 40_000);
    assert_eq!(r.raw.len(), 40_000);
}

#[test]
fn empty_run_summarizes_without_panicking() {
    let r = summarize(LatencyRecorder::new());
    assert_eq!(r.tally.total(), 0);
    assert_eq!(r.raw.len(), 0);
    assert!(r.tally.is_clean());
}
