//! What the harness runs: where the traffic goes, in which order the measurement
//! windows come, how the load is paced, and how results are set side by side.

use vstd::prelude::*;
use vstd::string::*;

use crate::bench::candidate::{Candidate, LaunchSpec};
use crate::bench::k8s::{host_port_of, Deployer};
use crate::bench::payloads::{HttpVersion, PayloadSize};
use crate::bench::result::BenchmarkResult;
use crate::bench::scenario::{window_count, Mode, Scenario, ScenarioConfig};
use crate::lb_core::binary64::{
    double_of, lemma_double_bounds, nearest_double, ratio_floor, ratio_whole,
};
use crate::text::{around, decimal, ends_with, joined, nat_text, strip_suffix};

verus! {

/// Sampling interval for the CPU/RSS monitor.
pub const SAMPLE_INTERVAL_MS: u64 = 100;

/// Idle gap between measurement windows, so one window's queue drain does not land
/// inside the next window's histogram.
pub const INTER_RUN_SETTLE_MS: u64 = 2_000;

/// Where the harness should send traffic and what it should measure.
pub enum Deployment {
    /// The harness launches the candidate locally as a child process.
    Local { binary_dir: String, workers: Option<u64> },
    /// The candidate is already running. Port 0 stands for the port that each
    /// candidate has on the host.
    External { addr: String, port: u16, pid: Option<u32> },
}

/// The deployment that a command line asks for: a target that is already running
/// wins; a cluster run finds each candidate on its own host port.
pub fn choose_deployment(
    target: Option<(&str, u16)>,
    mode: Mode,
    binary_dir: &str,
    workers: Option<u64>,
) -> (r: Deployment)
    ensures
        target matches Some(t) ==> (r matches Deployment::External { addr, port, pid } && addr@
            == t.0@ && port == t.1 && pid is None),
        target is None && mode == Mode::Local ==> (r matches Deployment::Local {
            binary_dir: dir,
            workers: w,
        } && dir@ == binary_dir@ && w == workers),
        target is None && mode == Mode::K8s ==> (r matches Deployment::External {
            addr,
            port,
            pid,
        } && addr@ == "127.0.0.1:0"@ && port == 0 && pid is None),
{
    match target {
        Some((addr, port)) => Deployment::External { addr: addr.to_owned(), port, pid: None },
        None => match mode {
            Mode::Local => Deployment::Local { binary_dir: binary_dir.to_owned(), workers },
            Mode::K8s => Deployment::External {
                addr: "127.0.0.1:0".to_owned(),
                port: 0,
                pid: None,
            },
        },
    }
}

/// A loopback address.
pub open spec fn loopback(port: u16) -> Seq<char> {
    "127.0.0.1:"@ + nat_text(port as nat)
}

/// A loopback address.
#[must_use]
pub fn loopback_addr(port: u16) -> (r: String)
    ensures
        r@ == loopback(port),
{
    joined("127.0.0.1:", decimal(port as u64).as_str())
}

/// Where a candidate that is already running answers. In a cluster each candidate
/// has its own host port, so one address would send every candidate's load to one
/// proxy.
#[must_use]
pub fn external_addr(candidate: Candidate, addr: &str, port: u16) -> (r: String)
    ensures
        r@ == (if port == 0 {
            loopback(host_port_of(candidate))
        } else {
            addr@
        }),
{
    if port == 0 {
        loopback_addr(Deployer::host_port(candidate))
    } else {
        addr.to_owned()
    }
}

/// How a candidate is launched for a run: on its default port, with the workers and
/// the route config that the run was given.
#[must_use]
pub fn local_spec(
    candidate: Candidate,
    binary_dir: &str,
    workers: Option<u64>,
    config_path: Option<&str>,
    upstream_addr: &str,
) -> (r: LaunchSpec)
    ensures
        r.candidate == candidate,
        r.listen_addr@ == loopback(candidate.port_of()),
        r.listen_port == candidate.port_of(),
        r.upstream_addr@ == upstream_addr@,
        r.workers == workers,
        r.binary_dir@ == binary_dir@,
        r.config_path is Some <==> config_path is Some,
        config_path matches Some(path) ==> r.config_path->0@ == path@,
        r.env@.len() == 0,
{
    let port: u16 = candidate.default_port();
    let listen = loopback_addr(port);
    let mut spec = LaunchSpec::new(candidate, listen.as_str(), port, upstream_addr, binary_dir);
    spec.workers = workers;
    if let Some(path) = config_path {
        spec.config_path = Some(path.to_owned());
    }
    spec
}

/// What a monitor should watch.
#[derive(Debug, Clone, Copy, PartialEq, Eq, Structural)]
pub enum MonitorTarget {
    /// A specific process, plus its children (a proxy may fork workers).
    Process(u32),
    /// The whole machine. Used when the candidate runs in a container the harness
    /// cannot see into.
    System,
}

/// What to watch of a candidate whose process is known by `pid`, or is not, by nought.
#[must_use]
pub fn monitor_target(pid: u32) -> (r: MonitorTarget)
    ensures
        r == (if pid > 0 {
            MonitorTarget::Process(pid)
        } else {
            MonitorTarget::System
        }),
{
    if pid > 0 {
        MonitorTarget::Process(pid)
    } else {
        MonitorTarget::System
    }
}

// ---------------------------------------------------------------------------
// Measurement windows
// ---------------------------------------------------------------------------

/// One measurement window.
#[derive(Debug, Clone, Copy, PartialEq, Eq, Structural)]
pub struct Window {
    pub version: HttpVersion,
    pub payload: PayloadSize,
    pub concurrency: usize,
}

/// The windows of one version and one payload: one for each concurrency.
pub open spec fn windows_of_payload(
    version: HttpVersion,
    payload: PayloadSize,
    concurrencies: Seq<usize>,
) -> Seq<Window> {
    Seq::new(
        concurrencies.len(),
        |i: int| Window { version, payload, concurrency: concurrencies[i] },
    )
}

/// The windows of one version, payload by payload.
pub open spec fn windows_of_version(
    version: HttpVersion,
    payloads: Seq<PayloadSize>,
    concurrencies: Seq<usize>,
) -> Seq<Window>
    decreases payloads.len(),
{
    if payloads.len() == 0 {
        Seq::empty()
    } else {
        windows_of_version(version, payloads.drop_last(), concurrencies) + windows_of_payload(
            version,
            payloads.last(),
            concurrencies,
        )
    }
}

/// All windows, version by version.
pub open spec fn windows_of(
    versions: Seq<HttpVersion>,
    payloads: Seq<PayloadSize>,
    concurrencies: Seq<usize>,
) -> Seq<Window>
    decreases versions.len(),
{
    if versions.len() == 0 {
        Seq::empty()
    } else {
        windows_of(versions.drop_last(), payloads, concurrencies) + windows_of_version(
            versions.last(),
            payloads,
            concurrencies,
        )
    }
}

/// The windows that a scenario measures, in order.
#[must_use]
pub fn windows(scenario: &ScenarioConfig) -> (r: Vec<Window>)
    ensures
        r@ == windows_of(
            scenario@.http_versions,
            scenario@.payloads,
            scenario@.concurrencies,
        ),
{
    let ghost versions = scenario.http_versions@;
    let ghost payloads = scenario.payloads@;
    let ghost concurrencies = scenario.concurrencies@;
    let mut out: Vec<Window> = Vec::new();
    let mut v: usize = 0;
    assert(versions.take(0) =~= Seq::empty());
    while v < scenario.http_versions.len()
        invariant
            v <= versions.len(),
            versions == scenario.http_versions@,
            payloads == scenario.payloads@,
            concurrencies == scenario.concurrencies@,
            out@ == windows_of(versions.take(v as int), payloads, concurrencies),
        decreases versions.len() - v,
    {
        let version = scenario.http_versions[v];
        let ghost done = out@;
        let mut p: usize = 0;
        assert(payloads.take(0) =~= Seq::empty());
        assert(out@ =~= done + windows_of_version(version, payloads.take(0), concurrencies));
        while p < scenario.payloads.len()
            invariant
                p <= payloads.len(),
                payloads == scenario.payloads@,
                concurrencies == scenario.concurrencies@,
                out@ == done + windows_of_version(version, payloads.take(p as int), concurrencies),
            decreases payloads.len() - p,
        {
            let payload = scenario.payloads[p];
            let ghost start = out@;
            let mut c: usize = 0;
            while c < scenario.concurrencies.len()
                invariant
                    c <= concurrencies.len(),
                    concurrencies == scenario.concurrencies@,
                    out@ == start + windows_of_payload(
                        version,
                        payload,
                        concurrencies.take(c as int),
                    ),
                decreases concurrencies.len() - c,
            {
                out.push(Window { version, payload, concurrency: scenario.concurrencies[c] });
                c = c + 1;
                assert(out@ =~= start + windows_of_payload(
                    version,
                    payload,
                    concurrencies.take(c as int),
                ));
            }
            assert(concurrencies.take(c as int) =~= concurrencies);
            assert(payloads.take(p + 1).drop_last() =~= payloads.take(p as int));
            p = p + 1;
            assert(out@ =~= done + windows_of_version(
                version,
                payloads.take(p as int),
                concurrencies,
            ));
        }
        assert(payloads.take(p as int) =~= payloads);
        assert(versions.take(v + 1).drop_last() =~= versions.take(v as int));
        v = v + 1;
    }
    assert(versions.take(v as int) =~= versions);
    out
}

proof fn lemma_version_windows(
    version: HttpVersion,
    payloads: Seq<PayloadSize>,
    concurrencies: Seq<usize>,
    payload: PayloadSize,
    concurrency: usize,
)
    ensures
        windows_of_version(version, payloads, concurrencies).len() == payloads.len()
            * concurrencies.len(),
        payloads.contains(payload) && concurrencies.contains(concurrency) ==> windows_of_version(
            version,
            payloads,
            concurrencies,
        ).contains(Window { version, payload, concurrency }),
    decreases payloads.len(),
{
    if payloads.len() == 0 {
        assert(payloads.len() * concurrencies.len() == 0) by (nonlinear_arith)
            requires
                payloads.len() == 0,
        ;
    } else {
        let rest = payloads.drop_last();
        lemma_version_windows(version, rest, concurrencies, payload, concurrency);
        assert(payloads.len() * concurrencies.len() == rest.len() * concurrencies.len()
            + concurrencies.len()) by (nonlinear_arith)
            requires
                payloads.len() == rest.len() + 1,
        ;
        let before = windows_of_version(version, rest, concurrencies);
        let last = windows_of_payload(version, payloads.last(), concurrencies);
        let w = Window { version, payload, concurrency };
        if payloads.contains(payload) && concurrencies.contains(concurrency) {
            let k = choose|k: int| 0 <= k < payloads.len() && payloads[k] == payload;
            if k < rest.len() {
                assert(rest[k] == payload);
                let i = choose|i: int| 0 <= i < before.len() && before[i] == w;
                assert((before + last)[i] == w);
            } else {
                let c = choose|c: int|
                    0 <= c < concurrencies.len() && concurrencies[c] == concurrency;
                assert(last[c] == w);
                assert((before + last)[before.len() + c] == w);
            }
        }
    }
}

proof fn lemma_all_windows(
    versions: Seq<HttpVersion>,
    payloads: Seq<PayloadSize>,
    concurrencies: Seq<usize>,
    w: Window,
)
    ensures
        windows_of(versions, payloads, concurrencies).len() == versions.len() * (payloads.len()
            * concurrencies.len()),
        versions.contains(w.version) && payloads.contains(w.payload) && concurrencies.contains(
            w.concurrency,
        ) ==> windows_of(versions, payloads, concurrencies).contains(w),
    decreases versions.len(),
{
    let each = payloads.len() * concurrencies.len();
    if versions.len() == 0 {
        assert(versions.len() * each == 0) by (nonlinear_arith)
            requires
                versions.len() == 0,
        ;
    } else {
        let rest = versions.drop_last();
        lemma_all_windows(rest, payloads, concurrencies, w);
        lemma_version_windows(
            versions.last(),
            payloads,
            concurrencies,
            w.payload,
            w.concurrency,
        );
        assert(versions.len() * each == rest.len() * each + each) by (nonlinear_arith)
            requires
                versions.len() == rest.len() + 1,
        ;
        let before = windows_of(rest, payloads, concurrencies);
        let last = windows_of_version(versions.last(), payloads, concurrencies);
        if versions.contains(w.version) && payloads.contains(w.payload) && concurrencies.contains(
            w.concurrency,
        ) {
            let k = choose|k: int| 0 <= k < versions.len() && versions[k] == w.version;
            if k < rest.len() {
                assert(rest[k] == w.version);
                let i = choose|i: int| 0 <= i < before.len() && before[i] == w;
                assert((before + last)[i] == w);
            } else {
                let i = choose|i: int| 0 <= i < last.len() && last[i] == w;
                assert((before + last)[before.len() + i] == w);
            }
        }
    }
}

/// A scenario measures the full cross product: as many windows as it says, and one
/// for every version, payload and concurrency.
pub proof fn lemma_windows_are_the_cross_product(s: Scenario, w: Window)
    ensures
        windows_of(s.http_versions, s.payloads, s.concurrencies).len() == window_count(s),
        s.http_versions.contains(w.version) && s.payloads.contains(w.payload)
            && s.concurrencies.contains(w.concurrency) ==> windows_of(
            s.http_versions,
            s.payloads,
            s.concurrencies,
        ).contains(w),
{
    lemma_all_windows(s.http_versions, s.payloads, s.concurrencies, w);
    let (v, p, c) = (s.http_versions.len(), s.payloads.len(), s.concurrencies.len());
    assert(c * p * v == v * (p * c)) by (nonlinear_arith);
}

// ---------------------------------------------------------------------------
// Load
// ---------------------------------------------------------------------------

/// Load generator configuration.
pub struct LoadConfig {
    pub target_url: String,
    pub concurrency: usize,
    /// How long to drive load, in nanoseconds.
    pub duration: u128,
    pub method: String,
    pub http_version: HttpVersion,
    /// Aggregate requests per second to pace at. `None` runs closed-loop (as fast as
    /// responses allow).
    pub target_rps: Option<u64>,
    /// `Host` header sent with every request.
    pub host_header: String,
}

/// The pacing interval of one worker in microseconds, of which `concurrency` together
/// send `rps` requests a second: worked out in doubles and rounded down, and nought
/// where there is no pacing.
pub open spec fn pacing_of(concurrency: nat, target_rps: Option<u64>) -> int {
    match target_rps {
        Some(rps) => if rps > 0 {
            let interval = ratio_floor(
                double_of(1_000_000 * double_of(concurrency as int)),
                double_of(rps as int),
            );
            if interval > u64::MAX {
                u64::MAX as int
            } else {
                interval
            }
        } else {
            0
        },
        None => 0,
    }
}

impl LoadConfig {
    /// Closed-loop GET requests over HTTP/1.1, by one worker at least.
    #[must_use]
    pub fn new(target_url: &str, concurrency: usize, duration: u128) -> (r: Self)
        ensures
            r.target_url@ == target_url@,
            r.concurrency == (if concurrency == 0 {
                1
            } else {
                concurrency
            }),
            r.duration == duration,
            r.method@ == "GET"@,
            r.http_version == HttpVersion::Http11,
            r.target_rps is None,
            r.host_header@ == "localhost"@,
    {
        Self {
            target_url: target_url.to_owned(),
            concurrency: if concurrency == 0 {
                1
            } else {
                concurrency
            },
            duration,
            method: "GET".to_owned(),
            http_version: HttpVersion::Http11,
            target_rps: None,
            host_header: "localhost".to_owned(),
        }
    }

    /// Per-worker pacing interval, in microseconds, for the correction of
    /// coordinated omission.
    #[must_use]
    pub fn pacing_interval_us(&self) -> (r: u64)
        ensures
            r == pacing_of(self.concurrency as nat, self.target_rps),
    {
        match self.target_rps {
            Some(rps) => if rps > 0 {
                proof {
                    lemma_double_bounds(self.concurrency as int);
                    lemma_double_bounds(1_000_000 * double_of(self.concurrency as int));
                    lemma_double_bounds(rps as int);
                }
                let workers: u128 = nearest_double(self.concurrency as u128);
                ratio_whole(nearest_double(1_000_000 * workers), nearest_double(rps as u128))
            } else {
                0
            },
            None => 0,
        }
    }

    /// Idle connections to keep: two per worker, so that a worker never has to
    /// reconnect between requests, and 64 at least.
    #[must_use]
    pub fn idle_slots(&self) -> (r: usize)
        ensures
            r == (if 2 * self.concurrency < 64 {
                64
            } else if 2 * self.concurrency > usize::MAX {
                usize::MAX as int
            } else {
                2 * self.concurrency
            }),
    {
        if self.concurrency < 32 {
            64
        } else if self.concurrency > usize::MAX / 2 {
            usize::MAX
        } else {
            2 * self.concurrency
        }
    }
}

/// The schedule of one worker: when its next request is due, in nanoseconds on its
/// own clock. With no interval there is no schedule.
pub struct Pacer {
    due: u128,
    interval_us: u64,
}

impl Pacer {
    /// When the next request was due last.
    pub closed spec fn due_at(self) -> int {
        self.due as int
    }

    /// The interval between two requests in microseconds.
    pub closed spec fn interval(self) -> int {
        self.interval_us as int
    }

    /// A schedule that starts at `start`.
    #[must_use]
    pub fn new(start: u128, interval_us: u64) -> (r: Self)
        ensures
            r.due_at() == start,
            r.interval() == interval_us,
    {
        Self { due: start, interval_us }
    }

    /// Whether there is a next request: whether its time can be told.
    #[must_use]
    pub fn can_go_on(&self) -> (r: bool)
        ensures
            r == (self.due_at() + 1_000 * self.interval() <= u128::MAX),
    {
        self.due <= u128::MAX - 1_000 * (self.interval_us as u128)
    }

    /// Move on to the next request and tell how long to wait for it, if it is not due
    /// already. The schedule is held even if the previous request was slow, which is
    /// what the correction of coordinated omission rests on.
    pub fn next_wait(&mut self, now: u128) -> (r: Option<u128>)
        requires
            old(self).due_at() + 1_000 * old(self).interval() <= u128::MAX,
        ensures
            final(self).interval() == old(self).interval(),
            final(self).due_at() == due_after(old(self).due_at(), old(self).interval(), 1),
            r is Some <==> final(self).interval() > 0 && final(self).due_at() > now,
            r matches Some(wait) ==> wait == final(self).due_at() - now,
    {
        if self.interval_us == 0 {
            return None;
        }
        self.due = self.due + 1_000 * (self.interval_us as u128);
        if self.due > now {
            Some(self.due - now)
        } else {
            None
        }
    }
}

/// When the `n`-th request behind `due` is due.
pub open spec fn due_after(due: int, interval_us: int, n: nat) -> int {
    due + 1_000 * interval_us * n
}

/// The schedule does not drift: however long the requests before it took, the `n`-th
/// request is due `n` intervals behind the start.
pub proof fn lemma_schedule_does_not_drift(start: int, interval_us: int, n: nat)
    ensures
        due_after(start, interval_us, 0) == start,
        due_after(due_after(start, interval_us, n), interval_us, 1) == due_after(
            start,
            interval_us,
            n + 1,
        ),
{
    assert(1_000 * interval_us * (n + 1) == 1_000 * interval_us * n + 1_000 * interval_us * 1)
        by (nonlinear_arith);
    assert(1_000 * interval_us * 0 == 0) by (nonlinear_arith);
}

/// Where the warm-up traffic goes.
#[must_use]
pub fn warmup_url(base_url: &str) -> (r: String)
    ensures
        r@ == base_url@ + "/bench"@,
{
    joined(base_url, "/bench")
}

/// Where the measured traffic goes: the backend honours the size hint in the query.
#[must_use]
pub fn sized_url(base_url: &str, size: usize) -> (r: String)
    ensures
        r@ == base_url@ + "/bench?size="@ + nat_text(size as nat),
{
    around(base_url, "/bench?size=", decimal(size as u64).as_str())
}

/// How one window is driven: GET requests for a body of the window's size, paced as
/// the scenario says.
#[must_use]
pub fn window_load(scenario: &ScenarioConfig, base_url: &str, window: Window) -> (r: LoadConfig)
    ensures
        r.target_url@ == base_url@ + "/bench?size="@ + nat_text(window.payload.size_of() as nat),
        r.concurrency == (if window.concurrency == 0 {
            1
        } else {
            window.concurrency
        }),
        r.duration == scenario.duration,
        r.method@ == "GET"@,
        r.http_version == window.version,
        r.target_rps == scenario.target_rps,
        r.host_header@ == "localhost"@,
{
    let url = sized_url(base_url, window.payload.bytes());
    let mut load = LoadConfig::new(url.as_str(), window.concurrency, scenario.duration);
    load.http_version = window.version;
    load.target_rps = scenario.target_rps;
    load
}

// ---------------------------------------------------------------------------
// Standard and PGO builds side by side
// ---------------------------------------------------------------------------

/// A name with the build that it belongs to behind it.
#[must_use]
pub fn labelled(name: &str, label: &str) -> (r: String)
    ensures
        r@ == name@ + " ["@ + label@ + "]"@,
{
    let start = around(name, " [", label);
    joined(start.as_str(), "]")
}

/// Whether a result is of a standard build.
pub open spec fn is_standard(w: BenchmarkResult) -> bool {
    ends_with(w.candidate_name@, "[standard]"@)
}

/// Whether a result is of a PGO build.
pub open spec fn is_pgo(w: BenchmarkResult) -> bool {
    ends_with(w.candidate_name@, "[pgo]"@)
}

/// Whether two results are of the same workload.
pub open spec fn same_workload(a: BenchmarkResult, b: BenchmarkResult) -> bool {
    a.concurrency == b.concurrency && a.payload_bytes == b.payload_bytes && a.http_version@
        == b.http_version@
}

/// The first result of a PGO build from `from` on that has the workload of `w`.
pub open spec fn partner_from(all: Seq<BenchmarkResult>, w: BenchmarkResult, from: int) -> Option<int>
    decreases all.len() - from,
{
    if from < 0 || from >= all.len() {
        None
    } else if is_pgo(all[from]) && same_workload(all[from], w) {
        Some(from)
    } else {
        partner_from(all, w, from + 1)
    }
}

/// The pairs of the first `n` results: each standard one with the first PGO one of
/// the same workload, by their places.
pub open spec fn pairs_up_to(all: Seq<BenchmarkResult>, n: int) -> Seq<(int, int)>
    decreases n,
{
    if n <= 0 {
        Seq::empty()
    } else {
        let before = pairs_up_to(all, n - 1);
        if is_standard(all[n - 1]) {
            match partner_from(all, all[n - 1], 0) {
                Some(p) => before.push((n - 1, p)),
                None => before,
            }
        } else {
            before
        }
    }
}

/// Pairs of places, as whole numbers.
pub open spec fn place_pairs(list: Seq<(usize, usize)>) -> Seq<(int, int)> {
    Seq::new(list.len(), |i: int| (list[i].0 as int, list[i].1 as int))
}

fn find_partner(all: &Vec<BenchmarkResult>, w: &BenchmarkResult) -> (r: Option<usize>)
    ensures
        r is Some <==> partner_from(all@, *w, 0) is Some,
        r matches Some(p) ==> Some(p as int) == partner_from(all@, *w, 0) && p < all@.len(),
{
    let mut i: usize = 0;
    while i < all.len()
        invariant
            i <= all@.len(),
            partner_from(all@, *w, 0) == partner_from(all@, *w, i as int),
        decreases all@.len() - i,
    {
        let x = &all[i];
        if strip_suffix(x.candidate_name.as_str(), "[pgo]").is_some() && x.concurrency
            == w.concurrency && x.payload_bytes == w.payload_bytes && x.http_version.as_str().eq(
            w.http_version.as_str(),
        ) {
            return Some(i);
        }
        i = i + 1;
    }
    None
}

/// Pair standard and PGO results by workload, not by order: the places of each
/// standard result and of the first PGO result of the same workload.
#[must_use]
pub fn pair_pgo_results(results: &Vec<BenchmarkResult>) -> (r: Vec<(usize, usize)>)
    ensures
        place_pairs(r@) == pairs_up_to(results@, results@.len() as int),
        forall|i: int|
            0 <= i < r@.len() ==> (#[trigger] r@[i]).0 < results@.len() && r@[i].1 < results@.len(),
{
    let mut out: Vec<(usize, usize)> = Vec::new();
    let mut i: usize = 0;
    assert(place_pairs(out@) =~= Seq::empty());
    while i < results.len()
        invariant
            i <= results@.len(),
            place_pairs(out@) == pairs_up_to(results@, i as int),
            forall|k: int|
                0 <= k < out@.len() ==> (#[trigger] out@[k]).0 < results@.len() && out@[k].1
                    < results@.len(),
        decreases results@.len() - i,
    {
        if strip_suffix(results[i].candidate_name.as_str(), "[standard]").is_some() {
            if let Some(p) = find_partner(results, &results[i]) {
                let ghost before = place_pairs(out@);
                out.push((i, p));
                assert(place_pairs(out@) =~= before.push((i as int, p as int)));
            }
        }
        i = i + 1;
    }
    out
}

proof fn lemma_partner(all: Seq<BenchmarkResult>, w: BenchmarkResult, from: int)
    ensures
        partner_from(all, w, from) matches Some(p) ==> from <= p < all.len() && is_pgo(all[p])
            && same_workload(all[p], w),
    decreases all.len() - from,
{
    if 0 <= from < all.len() && !(is_pgo(all[from]) && same_workload(all[from], w)) {
        lemma_partner(all, w, from + 1);
    }
}

/// A pair sets two builds side by side on one workload, and nothing else.
pub proof fn lemma_pairs_share_their_workload(all: Seq<BenchmarkResult>, n: int, i: int)
    requires
        0 <= n <= all.len(),
        0 <= i < pairs_up_to(all, n).len(),
    ensures
        ({
            let (s, p) = pairs_up_to(all, n)[i];
            0 <= s < n && 0 <= p < all.len() && is_standard(all[s]) && is_pgo(all[p])
                && same_workload(all[p], all[s])
        }),
    decreases n,
{
    if n > 0 {
        let before = pairs_up_to(all, n - 1);
        lemma_partner(all, all[n - 1], 0);
        if i < before.len() {
            lemma_pairs_share_their_workload(all, n - 1, i);
        }
    }
}

} // verus!
