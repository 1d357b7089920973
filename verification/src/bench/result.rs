//! What one measurement gives.

use vstd::prelude::*;

verus! {

/// One benchmark measurement.
#[derive(Debug)]
pub struct BenchmarkResult {
    pub candidate_name: String,
    pub scenario_name: String,
    pub concurrency: usize,
    pub payload_bytes: usize,
    pub http_version: String,
    pub total_requests: u64,
    pub successful_requests: u64,
    pub failed_requests: u64,
    /// Responses with a 4xx/5xx status. Counted as completed but not clean.
    pub error_responses: u64,
    pub bytes_received: u64,
    pub latency_p50_us: u64,
    pub latency_p90_us: u64,
    pub latency_p95_us: u64,
    pub latency_p99_us: u64,
    pub latency_p999_us: u64,
    pub latency_p9999_us: u64,
    pub latency_max_us: u64,
    /// Percentiles from the histogram corrected for coordinated omission.
    pub co_corrected_p99_us: u64,
    pub co_corrected_p999_us: u64,
    /// The fractional figures, as they are shown.
    pub figures: Figures,
}

/// The fractional figures of a measurement, each rounded as the column that shows it
/// wants it.
#[derive(Debug)]
pub struct Figures {
    /// The measured time in seconds, to four decimals.
    pub duration_secs: String,
    /// Requests per second, to two decimals.
    pub rps: String,
    /// Requests per second, to none.
    pub rps_whole: String,
    /// MiB per second, to four decimals.
    pub throughput: String,
    /// MiB per second, to one.
    pub throughput_short: String,
    /// The mean latency in microseconds, to two decimals.
    pub latency_mean_us: String,
    /// Its standard deviation, to two decimals.
    pub latency_stdev_us: String,
    /// The CPU percentage of the proxy process only, to two decimals.
    pub cpu_usage_pct: String,
    /// The CPU percentage, to one.
    pub cpu_usage_short: String,
    /// Peak RSS of the proxy process only in MiB, to two decimals.
    pub rss_memory_mb: String,
    /// Peak RSS in MiB, to one.
    pub rss_memory_short: String,
    /// Peak RSS in MiB per thousand connections, to two decimals.
    pub rss_per_thousand: String,
    /// The percentage of requests that failed or were answered 4xx/5xx, to two
    /// decimals.
    pub unclean_share: String,
}

impl BenchmarkResult {
    /// Whether a measurement can be trusted.
    pub open spec fn clean(self) -> bool {
        self.failed_requests == 0 && self.error_responses == 0
    }

    /// Requests that neither failed at the transport level nor returned 4xx/5xx.
    #[must_use]
    pub fn is_clean(&self) -> (r: bool)
        ensures
            r == self.clean(),
    {
        self.failed_requests == 0 && self.error_responses == 0
    }
}

} // verus!
