//! Latency and throughput recording.
//!
//! Every worker records through a handle of its own, so that no lock is taken per
//! request. Beside the raw histogram there is a second one that is corrected for
//! coordinated omission: a client that waits for a response before it sends the next
//! request cannot observe the latency of the requests that it failed to send while
//! it was blocked.

use hdrhistogram::sync::{Recorder, SyncHistogram};
use vstd::prelude::*;

verus! {

/// Lowest latency the histogram can represent, in microseconds.
pub const LOWEST_US: u64 = 1;

/// Highest latency, 60 s. Anything slower is a timeout, not a latency.
pub const HIGHEST_US: u64 = 60_000_000;

/// Significant figures retained. 3 gives 0.1% precision at every magnitude.
pub const SIGFIGS: u8 = 3;

/// How long the workers' samples are waited for, in seconds.
pub const DRAIN_SECS: u64 = 5;

// ---------------------------------------------------------------------------
// Histograms
// ---------------------------------------------------------------------------

/// A histogram that several recorders write to: `hdrhistogram`'s `SyncHistogram`.
#[verifier::external_body]
pub struct SharedHistogram {
    inner: SyncHistogram<u64>,
}

/// A handle that records into a [`SharedHistogram`]: `hdrhistogram`'s `Recorder`.
#[verifier::external_body]
pub struct SampleRecorder {
    inner: Recorder<u64>,
}

/// The highest value that a histogram was made to track.
pub uninterp spec fn highest_of(histogram: SharedHistogram) -> u64;

/// The values that a histogram holds, lowest first, each with its count.
pub uninterp spec fn held_by(histogram: SharedHistogram) -> Seq<(u64, u64)>;

/// The samples of the handles that were handed in to a histogram, oldest first.
pub uninterp spec fn handed_in(histogram: SharedHistogram) -> Seq<u64>;

/// What tells a histogram from every other.
pub uninterp spec fn mark_of(histogram: SharedHistogram) -> int;

/// The mark of the histogram that a handle records into.
pub uninterp spec fn home_of(recorder: SampleRecorder) -> int;

/// The highest value that a handle's histogram was made to track.
pub uninterp spec fn limit_of(recorder: SampleRecorder) -> u64;

/// The samples that were recorded through a handle, oldest first.
pub uninterp spec fn recorded(recorder: SampleRecorder) -> Seq<u64>;

/// How many samples a list of values with their counts stands for.
pub open spec fn sample_count(counts: Seq<(u64, u64)>) -> nat
    decreases counts.len(),
{
    if counts.len() == 0 {
        0
    } else {
        sample_count(counts.drop_last()) + counts.last().1 as nat
    }
}

/// Whether counts stand for all of the samples, and maybe more. A count stays at the
/// largest number once it has reached it.
pub open spec fn none_lost(counts: Seq<(u64, u64)>, samples: Seq<u64>) -> bool {
    samples.len() <= u64::MAX ==> sample_count(counts) >= samples.len()
}

/// `Histogram::new_with_bounds` makes an empty histogram that tracks values up to
/// `highest`, with so many significant digits. It fails on other bounds than those required
/// here.
#[verifier::external_body]
fn new_histogram(lowest: u64, highest: u64, digits: u8) -> (r: SharedHistogram)
    requires
        1 <= lowest <= 1_000,
        2 * lowest <= highest <= 0x100_0000_0000,
        digits <= 5,
    ensures
        highest_of(r) == highest,
        held_by(r) == Seq::<(u64, u64)>::empty(),
        handed_in(r) == Seq::<u64>::empty(),
{
    let histogram = hdrhistogram::Histogram::<u64>::new_with_bounds(lowest, highest, digits);
    SharedHistogram { inner: SyncHistogram::from(histogram.expect("bounds are valid")) }
}

/// `SyncHistogram::recorder` makes a handle through which nothing was recorded yet,
/// on this histogram and with the same bounds.
#[verifier::external_body]
fn recorder_of(histogram: &SharedHistogram) -> (r: SampleRecorder)
    ensures
        recorded(r) == Seq::<u64>::empty(),
        limit_of(r) == highest_of(*histogram),
        home_of(r) == mark_of(*histogram),
{
    SampleRecorder { inner: histogram.inner.recorder() }
}

/// `Recorder::saturating_record` records a value, clamped to what the histogram
/// tracks.
#[verifier::external_body]
fn record_value(recorder: &mut SampleRecorder, value: u64)
    requires
        value <= limit_of(*old(recorder)),
    ensures
        recorded(*final(recorder)) == recorded(*old(recorder)).push(value),
        limit_of(*final(recorder)) == limit_of(*old(recorder)),
        home_of(*final(recorder)) == home_of(*old(recorder)),
{
    recorder.inner.saturating_record(value);
}

/// `Recorder::record_correct` records a value and, where it exceeds the expected
/// interval, the series of values that lie a whole number of intervals below it,
/// down to the interval itself. It fails, and records nothing, only on a value above
/// what the histogram tracks.
#[verifier::external_body]
fn record_series(recorder: &mut SampleRecorder, value: u64, interval: u64) -> (r: bool)
    ensures
        value <= limit_of(*old(recorder)) ==> r,
        r ==> recorded(*final(recorder)) == recorded(*old(recorder)) + corrected_samples(
            value as int,
            interval as int,
        ),
        !r ==> recorded(*final(recorder)) == recorded(*old(recorder)),
        limit_of(*final(recorder)) == limit_of(*old(recorder)),
        home_of(*final(recorder)) == home_of(*old(recorder)),
{
    recorder.inner.record_correct(value, interval).is_ok()
}

/// Dropping a `Recorder` sends what it still holds to its histogram, which takes it in
/// at the next refresh; what it does not hold any more it has sent before. So all that
/// was recorded through the handle counts as handed in.
#[verifier::external_body]
fn hand_in(histogram: &mut SharedHistogram, recorder: SampleRecorder)
    ensures
        handed_in(*final(histogram)) == (if home_of(recorder) == mark_of(*old(histogram)) {
            handed_in(*old(histogram)) + recorded(recorder)
        } else {
            handed_in(*old(histogram))
        }),
        held_by(*final(histogram)) == held_by(*old(histogram)),
        highest_of(*final(histogram)) == highest_of(*old(histogram)),
        mark_of(*final(histogram)) == mark_of(*old(histogram)),
{
    let _ = histogram;
    drop(recorder.inner);
}

/// `SyncHistogram::refresh_timeout` takes in what dropped recorders have sent, then
/// asks the others for what they hold and waits so many seconds for them at most. So
/// whatever the timeout, all that was handed in is held afterwards, and nothing that
/// was held is lost. What else has arrived by then rests on the other threads.
#[verifier::external_body]
fn refresh(histogram: &mut SharedHistogram, secs: u64)
    requires
        secs <= DRAIN_SECS,
    ensures
        none_lost(held_by(*final(histogram)), handed_in(*old(histogram))),
        sample_count(held_by(*final(histogram))) >= sample_count(held_by(*old(histogram))),
        handed_in(*final(histogram)) == handed_in(*old(histogram)),
        highest_of(*final(histogram)) == highest_of(*old(histogram)),
        mark_of(*final(histogram)) == mark_of(*old(histogram)),
{
    histogram.inner.refresh_timeout(core::time::Duration::from_secs(secs));
}

/// `Histogram::iter_recorded` walks over the values that the histogram holds: each
/// comes with its count.
#[verifier::external_body]
fn counts_of(histogram: &SharedHistogram) -> (r: Vec<(u64, u64)>)
    ensures
        r@ == held_by(*histogram),
{
    histogram.inner.iter_recorded().map(|v| (v.value_iterated_to(), v.count_at_value())).collect()
}

/// The values below `top` that lie a whole number of intervals below it, down to the
/// interval itself, `top` first.
pub open spec fn missed_samples(top: int, interval: int) -> Seq<u64>
    decreases top,
{
    if interval <= 0 || top < interval {
        Seq::empty()
    } else {
        seq![top as u64] + missed_samples(top - interval, interval)
    }
}

/// What is recorded of a request that took `value` where the next one was due after
/// `interval`: the value, and one sample for each request that could not be sent
/// meanwhile. No interval means no correction.
pub open spec fn corrected_samples(value: int, interval: int) -> Seq<u64> {
    if interval > 0 && value > interval {
        seq![value as u64] + missed_samples(value - interval, interval)
    } else {
        seq![value as u64]
    }
}

proof fn lemma_missed_samples(top: int, interval: int)
    requires
        0 < interval,
        0 <= top <= u64::MAX,
    ensures
        missed_samples(top, interval).len() == top / interval,
        forall|i: int|
            0 <= i < missed_samples(top, interval).len() ==> interval <= #[trigger] missed_samples(
                top,
                interval,
            )[i] <= top && missed_samples(top, interval)[i] == top - i * interval,
    decreases top,
{
    if top < interval {
        assert(top / interval == 0) by (nonlinear_arith)
            requires
                0 <= top < interval,
        ;
    } else {
        lemma_missed_samples(top - interval, interval);
        let rest = missed_samples(top - interval, interval);
        let all = missed_samples(top, interval);
        assert(top / interval == (top - interval) / interval + 1) by (nonlinear_arith)
            requires
                0 < interval <= top,
        ;
        assert forall|i: int| 0 <= i < all.len() implies interval <= #[trigger] all[i] <= top
            && all[i] == top - i * interval by {
            if i > 0 {
                assert(all[i] == rest[i - 1]);
                assert((i - 1) * interval == i * interval - interval) by (nonlinear_arith);
            } else {
                assert(0 * interval == 0) by (nonlinear_arith);
            }
        }
    }
}

/// The correction stands for every request that could not be sent: a stall of `n`
/// intervals gives `n` samples, each between the interval and the stall itself and
/// one interval below the one before.
pub proof fn lemma_correction_fills_the_stall(value: int, interval: int)
    requires
        0 < interval <= value <= u64::MAX,
    ensures
        corrected_samples(value, interval).len() == value / interval,
        forall|i: int|
            0 <= i < corrected_samples(value, interval).len() ==> interval
                <= #[trigger] corrected_samples(value, interval)[i] <= value
                && corrected_samples(value, interval)[i] == value - i * interval,
{
    let all = corrected_samples(value, interval);
    if value > interval {
        lemma_missed_samples(value - interval, interval);
        let rest = missed_samples(value - interval, interval);
        assert(value / interval == (value - interval) / interval + 1) by (nonlinear_arith)
            requires
                0 < interval <= value,
        ;
        assert forall|i: int| 0 <= i < all.len() implies interval <= #[trigger] all[i] <= value
            && all[i] == value - i * interval by {
            if i > 0 {
                assert(all[i] == rest[i - 1]);
                assert((i - 1) * interval == i * interval - interval) by (nonlinear_arith);
            } else {
                assert(0 * interval == 0) by (nonlinear_arith);
            }
        }
    } else {
        assert(value / interval == 1) by (nonlinear_arith)
            requires
                0 < interval,
                value == interval,
        ;
        assert(0 * interval == 0) by (nonlinear_arith);
    }
}

/// Without an interval the corrected histogram gets what the raw one gets.
pub proof fn lemma_no_interval_no_correction(value: u64)
    ensures
        corrected_samples(value as int, 0) == seq![value],
{
}

// ---------------------------------------------------------------------------
// Counters
// ---------------------------------------------------------------------------

/// Counters that do not belong in the histogram.
#[derive(Debug, Clone, Copy, PartialEq, Eq, Structural)]
pub struct Tally {
    pub successful: u64,
    pub failed: u64,
    /// Responses with a 4xx/5xx status. Counted as completed too.
    pub error_responses: u64,
    pub bytes: u64,
}

/// A sum in 64 bits: it starts anew beyond the largest.
pub open spec fn counted(a: u64, b: u64) -> u64 {
    ((a + b) % 0x1_0000_0000_0000_0000) as u64
}

/// The counters of two tallies together.
pub open spec fn together(a: Tally, b: Tally) -> Tally {
    Tally {
        successful: counted(a.successful, b.successful),
        failed: counted(a.failed, b.failed),
        error_responses: counted(a.error_responses, b.error_responses),
        bytes: counted(a.bytes, b.bytes),
    }
}

/// Counters at nought.
pub open spec fn no_tally() -> Tally {
    Tally { successful: 0, failed: 0, error_responses: 0, bytes: 0 }
}

fn count(a: u64, b: u64) -> (r: u64)
    ensures
        r == counted(a, b),
{
    a.wrapping_add(b)
}

impl Tally {
    /// Counters at nought.
    #[must_use]
    pub fn new() -> (r: Self)
        ensures
            r == no_tally(),
    {
        Self { successful: 0, failed: 0, error_responses: 0, bytes: 0 }
    }

    /// Requests that were answered or failed.
    #[must_use]
    pub fn total(&self) -> (r: u64)
        requires
            self.successful + self.failed <= u64::MAX,
        ensures
            r == self.successful + self.failed,
    {
        self.successful + self.failed
    }

    /// Whether no request failed at the transport level nor was answered 4xx/5xx.
    #[must_use]
    pub fn is_clean(&self) -> (r: bool)
        ensures
            r == (self.failed == 0 && self.error_responses == 0),
    {
        self.failed == 0 && self.error_responses == 0
    }
}

/// A latency as the histograms take it.
pub open spec fn clamped(latency_us: u64) -> u64 {
    if latency_us < LOWEST_US {
        LOWEST_US
    } else if latency_us > HIGHEST_US {
        HIGHEST_US
    } else {
        latency_us
    }
}

/// A worker's recording handle: give each task its own.
pub struct WorkerRecorder {
    raw: SampleRecorder,
    corrected: SampleRecorder,
    tally: Tally,
}

impl WorkerRecorder {
    /// Both handles take every latency.
    pub closed spec fn wf(self) -> bool {
        limit_of(self.raw) == HIGHEST_US && limit_of(self.corrected) == HIGHEST_US
    }

    /// What was recorded as it was measured.
    pub closed spec fn raw_samples(self) -> Seq<u64> {
        recorded(self.raw)
    }

    /// What was recorded with the correction.
    pub closed spec fn corrected_samples(self) -> Seq<u64> {
        recorded(self.corrected)
    }

    /// What was counted.
    pub closed spec fn counters(self) -> Tally {
        self.tally
    }

    /// The marks of the histograms that the handle records into.
    pub closed spec fn home(self) -> (int, int) {
        (home_of(self.raw), home_of(self.corrected))
    }

    /// Record a successful request.
    ///
    /// `expected_interval_us` is the pacing interval this worker is trying to hold;
    /// nought disables the correction.
    pub fn record_success(&mut self, latency_us: u64, bytes: u64, expected_interval_us: u64)
        requires
            old(self).wf(),
        ensures
            final(self).wf(),
            final(self).home() == old(self).home(),
            final(self).raw_samples() == old(self).raw_samples().push(clamped(latency_us)),
            final(self).corrected_samples() == old(self).corrected_samples() + corrected_samples(
                clamped(latency_us) as int,
                expected_interval_us as int,
            ),
            final(self).counters() == together(
                old(self).counters(),
                (Tally { successful: 1, failed: 0, error_responses: 0, bytes }),
            ),
    {
        let value: u64 = if latency_us < LOWEST_US {
            LOWEST_US
        } else if latency_us > HIGHEST_US {
            HIGHEST_US
        } else {
            latency_us
        };
        self.tally.successful = count(self.tally.successful, 1);
        self.tally.bytes = count(self.tally.bytes, bytes);
        record_value(&mut self.raw, value);
        if expected_interval_us > 0 {
            if !record_series(&mut self.corrected, value, expected_interval_us) {
                record_value(&mut self.corrected, value);
            }
        } else {
            record_value(&mut self.corrected, value);
            assert(recorded(self.corrected) =~= old(self).corrected_samples() + seq![value]);
        }
    }

    /// Record a request that completed with a 4xx/5xx status.
    pub fn record_error_response(&mut self, latency_us: u64, expected_interval_us: u64)
        requires
            old(self).wf(),
        ensures
            final(self).wf(),
            final(self).home() == old(self).home(),
            final(self).raw_samples() == old(self).raw_samples().push(clamped(latency_us)),
            final(self).corrected_samples() == old(self).corrected_samples() + corrected_samples(
                clamped(latency_us) as int,
                expected_interval_us as int,
            ),
            final(self).counters() == together(
                old(self).counters(),
                (Tally { successful: 1, failed: 0, error_responses: 1, bytes: 0 }),
            ),
    {
        self.tally.error_responses = count(self.tally.error_responses, 1);
        self.record_success(latency_us, 0, expected_interval_us);
    }

    /// Record a transport-level failure. Failures carry no latency, so they are
    /// counted but not recorded into the histogram: a connection refused in 5 µs is
    /// not a 5 µs latency.
    pub fn record_failure(&mut self)
        requires
            old(self).wf(),
        ensures
            final(self).wf(),
            final(self).home() == old(self).home(),
            final(self).raw_samples() == old(self).raw_samples(),
            final(self).corrected_samples() == old(self).corrected_samples(),
            final(self).counters() == together(
                old(self).counters(),
                (Tally { successful: 0, failed: 1, error_responses: 0, bytes: 0 }),
            ),
    {
        self.tally.failed = count(self.tally.failed, 1);
    }

    /// Record a response by its status: 2xx and 3xx are successes.
    pub fn record_response(
        &mut self,
        status: u16,
        latency_us: u64,
        bytes: u64,
        expected_interval_us: u64,
    )
        requires
            old(self).wf(),
        ensures
            final(self).wf(),
            final(self).home() == old(self).home(),
            final(self).raw_samples() == old(self).raw_samples().push(clamped(latency_us)),
            final(self).corrected_samples() == old(self).corrected_samples() + corrected_samples(
                clamped(latency_us) as int,
                expected_interval_us as int,
            ),
            final(self).counters() == together(
                old(self).counters(),
                if 200 <= status < 400 {
                    (Tally { successful: 1, failed: 0, error_responses: 0, bytes })
                } else {
                    (Tally { successful: 1, failed: 0, error_responses: 1, bytes: 0 })
                },
            ),
    {
        if 200 <= status && status < 400 {
            self.record_success(latency_us, bytes, expected_interval_us);
        } else {
            self.record_error_response(latency_us, expected_interval_us);
        }
    }
}

/// Aggregating recorder.
pub struct LatencyRecorder {
    histogram: SharedHistogram,
    corrected: SharedHistogram,
    tally: Tally,
}

impl LatencyRecorder {
    /// Both histograms take every latency.
    pub closed spec fn wf(self) -> bool {
        highest_of(self.histogram) == HIGHEST_US && highest_of(self.corrected) == HIGHEST_US
    }

    /// What the workers that were taken in have counted.
    pub closed spec fn counters(self) -> Tally {
        self.tally
    }

    /// The latencies that the workers that were taken in have recorded.
    pub closed spec fn raw_samples(self) -> Seq<u64> {
        handed_in(self.histogram)
    }

    /// What those workers have recorded with the correction.
    pub closed spec fn corrected_samples(self) -> Seq<u64> {
        handed_in(self.corrected)
    }

    /// The marks of the two histograms.
    pub closed spec fn home(self) -> (int, int) {
        (mark_of(self.histogram), mark_of(self.corrected))
    }

    /// What has been drained so far of the latencies as they were measured.
    pub closed spec fn raw_counts(self) -> Seq<(u64, u64)> {
        held_by(self.histogram)
    }

    /// What has been drained so far of the corrected latencies.
    pub closed spec fn corrected_counts(self) -> Seq<(u64, u64)> {
        held_by(self.corrected)
    }

    /// A recorder that holds nothing yet.
    #[must_use]
    pub fn new() -> (r: Self)
        ensures
            r.wf(),
            r.counters() == no_tally(),
            r.raw_counts() == Seq::<(u64, u64)>::empty(),
            r.corrected_counts() == Seq::<(u64, u64)>::empty(),
            r.raw_samples() == Seq::<u64>::empty(),
            r.corrected_samples() == Seq::<u64>::empty(),
    {
        Self {
            histogram: new_histogram(LOWEST_US, HIGHEST_US, SIGFIGS),
            corrected: new_histogram(LOWEST_US, HIGHEST_US, SIGFIGS),
            tally: Tally::new(),
        }
    }

    /// Create a per-worker handle. Each worker records into its own buffer; the
    /// aggregate is only assembled at the end.
    #[must_use]
    pub fn worker(&self) -> (r: WorkerRecorder)
        requires
            self.wf(),
        ensures
            r.wf(),
            r.home() == self.home(),
            r.raw_samples() == Seq::<u64>::empty(),
            r.corrected_samples() == Seq::<u64>::empty(),
            r.counters() == no_tally(),
    {
        WorkerRecorder {
            raw: recorder_of(&self.histogram),
            corrected: recorder_of(&self.corrected),
            tally: Tally::new(),
        }
    }

    /// Take in what a worker has counted and, where it is one of this recorder's own,
    /// what it has recorded: that reaches the histograms as its handle goes.
    pub fn absorb(&mut self, worker: WorkerRecorder)
        ensures
            old(self).wf() ==> final(self).wf(),
            final(self).home() == old(self).home(),
            final(self).counters() == together(old(self).counters(), worker.counters()),
            worker.home() == old(self).home() ==> {
                &&& final(self).raw_samples() == old(self).raw_samples() + worker.raw_samples()
                &&& final(self).corrected_samples() == old(self).corrected_samples()
                    + worker.corrected_samples()
            },
            final(self).raw_counts() == old(self).raw_counts(),
            final(self).corrected_counts() == old(self).corrected_counts(),
    {
        let WorkerRecorder { raw, corrected, tally } = worker;
        hand_in(&mut self.histogram, raw);
        hand_in(&mut self.corrected, corrected);
        self.tally = Tally {
            successful: count(self.tally.successful, tally.successful),
            failed: count(self.tally.failed, tally.failed),
            error_responses: count(self.tally.error_responses, tally.error_responses),
            bytes: count(self.tally.bytes, tally.bytes),
        };
    }

    /// What the workers that were taken in have counted.
    #[must_use]
    pub fn tally(&self) -> (r: Tally)
        ensures
            r == self.counters(),
    {
        self.tally
    }

    /// Total requests of the workers that were taken in, without draining the
    /// histograms.
    #[must_use]
    pub fn completed(&self) -> (r: u64)
        requires
            self.counters().successful + self.counters().failed <= u64::MAX,
        ensures
            r == self.counters().successful + self.counters().failed,
    {
        self.tally.total()
    }

    /// Drain every worker's buffer and give the values that the raw and the corrected
    /// histogram then hold, each with its count. No sample of a worker that was taken in
    /// is lost; what else has arrived by then rests on the other threads.
    pub fn counts(&mut self) -> (r: (Vec<(u64, u64)>, Vec<(u64, u64)>))
        ensures
            old(self).wf() ==> final(self).wf(),
            final(self).counters() == old(self).counters(),
            r.0@ == final(self).raw_counts(),
            r.1@ == final(self).corrected_counts(),
            none_lost(r.0@, old(self).raw_samples()),
            none_lost(r.1@, old(self).corrected_samples()),
            sample_count(r.0@) >= sample_count(old(self).raw_counts()),
            sample_count(r.1@) >= sample_count(old(self).corrected_counts()),
            final(self).raw_samples() == old(self).raw_samples(),
            final(self).corrected_samples() == old(self).corrected_samples(),
            final(self).home() == old(self).home(),
    {
        refresh(&mut self.histogram, DRAIN_SECS);
        refresh(&mut self.corrected, DRAIN_SECS);
        (counts_of(&self.histogram), counts_of(&self.corrected))
    }
}

} // verus!
