//! Benchmark scenarios, the warm-up before each of them, and how the command line
//! selects one.

use vstd::prelude::*;
use vstd::string::*;

use crate::bench::candidate::Candidate;
use crate::bench::payloads::{HttpVersion, PayloadSize};
use crate::text::{
    around, chars_of, decimal, joined, lemma_plain_name, nat_text, plain_name, string_of,
    to_plain_name, trim, trimmed,
};
use crate::wire::is_digit;

verus! {

/// Nanoseconds in a second.
pub const SECOND: u128 = 1_000_000_000;

/// Which scenario a run is executing.
#[derive(Debug, Clone, Copy, PartialEq, Eq, Structural)]
pub enum ScenarioKind {
    /// Throughput and tail latency across concurrency and payload size.
    Throughput,
    /// C10K-C50K connection density and memory footprint.
    ConnectionDensity,
    /// Steady load with HTTPRoute churn, measuring p99.99 jitter.
    RouteChurn,
    /// The same workload as Throughput, against a PGO build.
    PgoDelta,
}

impl ScenarioKind {
    /// The name of a scenario.
    pub open spec fn label_of(self) -> Seq<char> {
        match self {
            ScenarioKind::Throughput => "throughput"@,
            ScenarioKind::ConnectionDensity => "connection-density"@,
            ScenarioKind::RouteChurn => "route-churn"@,
            ScenarioKind::PgoDelta => "pgo-delta"@,
        }
    }

    /// The scenario that a CLI value stands for.
    pub open spec fn named(s: Seq<char>) -> Option<Self> {
        let n = plain_name(s);
        if n == "throughput"@ || n == "1"@ {
            Some(ScenarioKind::Throughput)
        } else if n == "connection-density"@ || n == "density"@ || n == "2"@ {
            Some(ScenarioKind::ConnectionDensity)
        } else if n == "route-churn"@ || n == "churn"@ || n == "3"@ {
            Some(ScenarioKind::RouteChurn)
        } else if n == "pgo-delta"@ || n == "pgo"@ || n == "5"@ {
            Some(ScenarioKind::PgoDelta)
        } else {
            None
        }
    }

    /// The name of a scenario.
    #[must_use]
    pub fn label(self) -> (r: &'static str)
        ensures
            r@ == self.label_of(),
    {
        match self {
            ScenarioKind::Throughput => "throughput",
            ScenarioKind::ConnectionDensity => "connection-density",
            ScenarioKind::RouteChurn => "route-churn",
            ScenarioKind::PgoDelta => "pgo-delta",
        }
    }

    /// Parse a name, a short form or a number.
    #[must_use]
    pub fn parse(s: &str) -> (r: Option<Self>)
        ensures
            r == Self::named(s@),
    {
        let n = to_plain_name(s);
        let n = n.as_str();
        if n.eq("throughput") || n.eq("1") {
            Some(ScenarioKind::Throughput)
        } else if n.eq("connection-density") || n.eq("density") || n.eq("2") {
            Some(ScenarioKind::ConnectionDensity)
        } else if n.eq("route-churn") || n.eq("churn") || n.eq("3") {
            Some(ScenarioKind::RouteChurn)
        } else if n.eq("pgo-delta") || n.eq("pgo") || n.eq("5") {
            Some(ScenarioKind::PgoDelta)
        } else {
            None
        }
    }
}

/// Every name stands for its scenario.
pub proof fn lemma_scenario_names_round_trip(kind: ScenarioKind)
    ensures
        ScenarioKind::named(kind.label_of()) == Some(kind),
{
    reveal_strlit("throughput");
    reveal_strlit("connection-density");
    reveal_strlit("density");
    reveal_strlit("route-churn");
    reveal_strlit("churn");
    reveal_strlit("pgo-delta");
    reveal_strlit("pgo");
    reveal_strlit("1");
    reveal_strlit("2");
    reveal_strlit("3");
    reveal_strlit("5");
    lemma_plain_name(kind.label_of());
    assert("throughput"@.len() == 10 && "connection-density"@.len() == 18
        && "route-churn"@.len() == 11 && "pgo-delta"@.len() == 9 && "density"@.len() == 7
        && "churn"@.len() == 5 && "pgo"@.len() == 3 && "1"@.len() == 1 && "2"@.len() == 1
        && "3"@.len() == 1);
}

/// A single scenario's parameters.
pub struct ScenarioConfig {
    pub name: String,
    pub kind: ScenarioKind,
    pub concurrencies: Vec<usize>,
    pub payloads: Vec<PayloadSize>,
    pub http_versions: Vec<HttpVersion>,
    /// The measurement window in nanoseconds.
    pub duration: u128,
    /// Offered load for open-loop runs; `None` runs closed-loop.
    pub target_rps: Option<u64>,
    /// HTTPRoute mutations per second.
    pub route_churn_rate_hz: u32,
    /// Percentage of connections kept idle.
    pub idle_connection_pct: u32,
}

/// A scenario's parameters, as plain values.
pub ghost struct Scenario {
    pub name: Seq<char>,
    pub kind: ScenarioKind,
    pub concurrencies: Seq<usize>,
    pub payloads: Seq<PayloadSize>,
    pub http_versions: Seq<HttpVersion>,
    pub duration: u128,
    pub target_rps: Option<u64>,
    pub route_churn_rate_hz: u32,
    pub idle_connection_pct: u32,
}

impl View for ScenarioConfig {
    type V = Scenario;

    open spec fn view(&self) -> Scenario {
        Scenario {
            name: self.name@,
            kind: self.kind,
            concurrencies: self.concurrencies@,
            payloads: self.payloads@,
            http_versions: self.http_versions@,
            duration: self.duration,
            target_rps: self.target_rps,
            route_churn_rate_hz: self.route_churn_rate_hz,
            idle_connection_pct: self.idle_connection_pct,
        }
    }
}

/// The full sweep.
pub open spec fn throughput_scenario() -> Scenario {
    Scenario {
        name: "Maximum Throughput & Tail Latency Sweep"@,
        kind: ScenarioKind::Throughput,
        concurrencies: seq![100, 1_000, 5_000, 10_000, 25_000],
        payloads: seq![PayloadSize::Small1Kb, PayloadSize::Medium64Kb, PayloadSize::Large1Mb],
        http_versions: seq![HttpVersion::Http11, HttpVersion::Http2],
        duration: 30_000_000_000,
        target_rps: None,
        route_churn_rate_hz: 0,
        idle_connection_pct: 0,
    }
}

/// Connection density.
pub open spec fn density_scenario() -> Scenario {
    Scenario {
        name: "Connection Density & Memory Footprint (C10K-C50K)"@,
        kind: ScenarioKind::ConnectionDensity,
        concurrencies: seq![10_000, 25_000, 50_000],
        payloads: seq![PayloadSize::Small1Kb],
        http_versions: seq![HttpVersion::Http11],
        duration: 60_000_000_000,
        target_rps: None,
        route_churn_rate_hz: 0,
        idle_connection_pct: 95,
    }
}

/// Route churn at a rate.
pub open spec fn churn_scenario(churn_hz: u32) -> Scenario {
    Scenario {
        name: "Route Churn & Tail Latency Jitter ("@ + nat_text(churn_hz as nat) + " Hz)"@,
        kind: ScenarioKind::RouteChurn,
        concurrencies: seq![1_000],
        payloads: seq![PayloadSize::Small1Kb],
        http_versions: seq![HttpVersion::Http11],
        duration: 30_000_000_000,
        target_rps: Some(20_000),
        route_churn_rate_hz: churn_hz,
        idle_connection_pct: 0,
    }
}

/// The workload that a standard and a PGO build are compared on.
pub open spec fn pgo_scenario() -> Scenario {
    Scenario {
        name: "PGO Impact Delta"@,
        kind: ScenarioKind::PgoDelta,
        concurrencies: seq![100, 1_000, 5_000],
        payloads: seq![PayloadSize::Small1Kb, PayloadSize::Medium64Kb],
        http_versions: seq![HttpVersion::Http11],
        duration: 30_000_000_000,
        target_rps: None,
        route_churn_rate_hz: 0,
        idle_connection_pct: 0,
    }
}

/// The smoke test.
pub open spec fn quick_scenario() -> Scenario {
    Scenario {
        name: "Quick Sweep"@,
        kind: ScenarioKind::Throughput,
        concurrencies: seq![50, 200],
        payloads: seq![PayloadSize::Small1Kb],
        http_versions: seq![HttpVersion::Http11],
        duration: 5_000_000_000,
        target_rps: None,
        route_churn_rate_hz: 0,
        idle_connection_pct: 0,
    }
}

/// How many measurement windows a scenario has.
pub open spec fn window_count(s: Scenario) -> nat {
    s.concurrencies.len() * s.payloads.len() * s.http_versions.len()
}

/// The longest span of time, in nanoseconds: `u64::MAX` seconds and all but one
/// nanosecond of another.
pub open spec fn longest_duration() -> int {
    u64::MAX * 1_000_000_000 + 999_999_999
}

impl ScenarioConfig {
    /// Full sweep: 100 to 25 000 connections, all three payload sizes.
    #[must_use]
    pub fn throughput() -> (r: Self)
        ensures
            r@ == throughput_scenario(),
    {
        let r = Self {
            name: "Maximum Throughput & Tail Latency Sweep".to_owned(),
            kind: ScenarioKind::Throughput,
            concurrencies: vec![100, 1_000, 5_000, 10_000, 25_000],
            payloads: vec![PayloadSize::Small1Kb, PayloadSize::Medium64Kb, PayloadSize::Large1Mb],
            http_versions: vec![HttpVersion::Http11, HttpVersion::Http2],
            duration: 30 * SECOND,
            target_rps: None,
            route_churn_rate_hz: 0,
            idle_connection_pct: 0,
        };
        assert(r@.concurrencies =~= throughput_scenario().concurrencies);
        assert(r@.payloads =~= throughput_scenario().payloads);
        assert(r@.http_versions =~= throughput_scenario().http_versions);
        r
    }

    /// Connection density: 10k-50k persistent connections, 95% idle.
    #[must_use]
    pub fn connection_density() -> (r: Self)
        ensures
            r@ == density_scenario(),
    {
        let r = Self {
            name: "Connection Density & Memory Footprint (C10K-C50K)".to_owned(),
            kind: ScenarioKind::ConnectionDensity,
            concurrencies: vec![10_000, 25_000, 50_000],
            payloads: vec![PayloadSize::Small1Kb],
            http_versions: vec![HttpVersion::Http11],
            duration: 60 * SECOND,
            target_rps: None,
            route_churn_rate_hz: 0,
            idle_connection_pct: 95,
        };
        assert(r@.concurrencies =~= density_scenario().concurrencies);
        assert(r@.payloads =~= density_scenario().payloads);
        assert(r@.http_versions =~= density_scenario().http_versions);
        r
    }

    /// Steady 20 000 RPS with route mutations. The loop is open: the point is to see
    /// the tail move, which requires a fixed offered rate.
    #[must_use]
    pub fn route_churn(churn_hz: u32) -> (r: Self)
        ensures
            r@ == churn_scenario(churn_hz),
    {
        let rate = decimal(churn_hz as u64);
        let r = Self {
            name: around("Route Churn & Tail Latency Jitter (", rate.as_str(), " Hz)"),
            kind: ScenarioKind::RouteChurn,
            concurrencies: vec![1_000],
            payloads: vec![PayloadSize::Small1Kb],
            http_versions: vec![HttpVersion::Http11],
            duration: 30 * SECOND,
            target_rps: Some(20_000),
            route_churn_rate_hz: churn_hz,
            idle_connection_pct: 0,
        };
        assert(r@.concurrencies =~= churn_scenario(churn_hz).concurrencies);
        assert(r@.payloads =~= churn_scenario(churn_hz).payloads);
        assert(r@.http_versions =~= churn_scenario(churn_hz).http_versions);
        r
    }

    /// Identical workload to the sweep, run against a PGO build.
    #[must_use]
    pub fn pgo_delta() -> (r: Self)
        ensures
            r@ == pgo_scenario(),
    {
        let r = Self {
            name: "PGO Impact Delta".to_owned(),
            kind: ScenarioKind::PgoDelta,
            concurrencies: vec![100, 1_000, 5_000],
            payloads: vec![PayloadSize::Small1Kb, PayloadSize::Medium64Kb],
            http_versions: vec![HttpVersion::Http11],
            duration: 30 * SECOND,
            target_rps: None,
            route_churn_rate_hz: 0,
            idle_connection_pct: 0,
        };
        assert(r@.concurrencies =~= pgo_scenario().concurrencies);
        assert(r@.payloads =~= pgo_scenario().payloads);
        assert(r@.http_versions =~= pgo_scenario().http_versions);
        r
    }

    /// A short smoke-test sweep for CI and local iteration.
    #[must_use]
    pub fn quick() -> (r: Self)
        ensures
            r@ == quick_scenario(),
    {
        let r = Self {
            name: "Quick Sweep".to_owned(),
            kind: ScenarioKind::Throughput,
            concurrencies: vec![50, 200],
            payloads: vec![PayloadSize::Small1Kb],
            http_versions: vec![HttpVersion::Http11],
            duration: 5 * SECOND,
            target_rps: None,
            route_churn_rate_hz: 0,
            idle_connection_pct: 0,
        };
        assert(r@.concurrencies =~= quick_scenario().concurrencies);
        assert(r@.payloads =~= quick_scenario().payloads);
        assert(r@.http_versions =~= quick_scenario().http_versions);
        r
    }

    /// Number of measurement windows this scenario will run per candidate.
    #[must_use]
    pub fn measurement_count(&self) -> (r: usize)
        requires
            self@.concurrencies.len() * self@.payloads.len() <= usize::MAX,
            window_count(self@) <= usize::MAX,
        ensures
            r == window_count(self@),
    {
        self.concurrencies.len() * self.payloads.len() * self.http_versions.len()
    }

    /// Total measurement time, excluding warm-up, in nanoseconds.
    #[must_use]
    pub fn total_measurement_time(&self) -> (r: u128)
        requires
            self@.concurrencies.len() * self@.payloads.len() <= usize::MAX,
            window_count(self@) <= usize::MAX,
            self.duration * window_count(self@) <= longest_duration(),
        ensures
            r == self.duration * window_count(self@),
    {
        let count: usize = self.measurement_count();
        self.duration * (count as u128)
    }
}

impl Default for ScenarioConfig {
    fn default() -> (r: Self)
        ensures
            r@ == quick_scenario(),
    {
        Self::quick()
    }
}

// ---------------------------------------------------------------------------
// Warm-up
// ---------------------------------------------------------------------------

/// Warm-up timings, in nanoseconds.
#[derive(Debug, Clone, Copy, PartialEq, Eq, Structural)]
pub struct WarmupProtocol {
    /// Idle time for runtime initialisation and page faults.
    pub cold_start: u128,
    /// Traffic at half the concurrency, to fill connection pools and heaps.
    pub traffic: u128,
    /// Idle time for the Go sweep to complete, for Go candidates only.
    pub gc_settle: u128,
}

impl Default for WarmupProtocol {
    fn default() -> (r: Self)
        ensures
            r == (WarmupProtocol {
                cold_start: 3_000_000_000,
                traffic: 15_000_000_000,
                gc_settle: 5_000_000_000,
            }),
    {
        Self { cold_start: 3 * SECOND, traffic: 15 * SECOND, gc_settle: 5 * SECOND }
    }
}

/// One step of the warm-up.
#[derive(Debug, Clone, Copy, PartialEq, Eq, Structural)]
pub enum WarmupStep {
    /// Stay idle for so many nanoseconds.
    Idle(u128),
    /// Drive traffic over so many connections for so many nanoseconds.
    Traffic(usize, u128),
}

impl WarmupProtocol {
    /// A shortened protocol for smoke tests.
    #[must_use]
    pub fn quick() -> (r: Self)
        ensures
            r == (WarmupProtocol {
                cold_start: 500_000_000,
                traffic: 2_000_000_000,
                gc_settle: 500_000_000,
            }),
    {
        Self { cold_start: 500_000_000, traffic: 2 * SECOND, gc_settle: 500_000_000 }
    }

    /// What the protocol costs a candidate.
    pub open spec fn total_of(self, candidate: Candidate) -> int {
        self.cold_start + self.traffic + (if candidate == Candidate::Traefik {
            self.gc_settle as int
        } else {
            0
        })
    }

    /// What the protocol does to a candidate: cold start, traffic at half of the
    /// concurrency but over one connection at least, and the settling of a Go heap.
    /// It goes by the candidate's runtime, not by its name.
    pub open spec fn steps_of(self, candidate: Candidate, concurrency: usize) -> Seq<WarmupStep> {
        let half: usize = if concurrency < 2 {
            1
        } else {
            (concurrency / 2) as usize
        };
        let start = seq![
            WarmupStep::Idle(self.cold_start),
            WarmupStep::Traffic(half, self.traffic),
        ];
        if candidate == Candidate::Traefik {
            start.push(WarmupStep::Idle(self.gc_settle))
        } else {
            start
        }
    }

    /// Total wall time this protocol costs for `candidate`, in nanoseconds.
    #[must_use]
    pub fn total(&self, candidate: Candidate) -> (r: u128)
        requires
            self.total_of(candidate) <= longest_duration(),
        ensures
            r == self.total_of(candidate),
    {
        let total: u128 = self.cold_start + self.traffic;
        if candidate.is_go() {
            total + self.gc_settle
        } else {
            total
        }
    }

    /// The steps of the warm-up, in order.
    #[must_use]
    pub fn steps(&self, candidate: Candidate, target_concurrency: usize) -> (r: Vec<WarmupStep>)
        ensures
            r@ == self.steps_of(candidate, target_concurrency),
    {
        let half: usize = if target_concurrency < 2 {
            1
        } else {
            target_concurrency / 2
        };
        let mut steps: Vec<WarmupStep> = Vec::new();
        steps.push(WarmupStep::Idle(self.cold_start));
        steps.push(WarmupStep::Traffic(half, self.traffic));
        if candidate.is_go() {
            steps.push(WarmupStep::Idle(self.gc_settle));
        }
        assert(steps@ =~= self.steps_of(candidate, target_concurrency));
        steps
    }
}

/// The time that warm-up steps take.
pub open spec fn time_of(steps: Seq<WarmupStep>) -> int
    decreases steps.len(),
{
    if steps.len() == 0 {
        0
    } else {
        time_of(steps.drop_last()) + match steps.last() {
            WarmupStep::Idle(d) => d as int,
            WarmupStep::Traffic(_, d) => d as int,
        }
    }
}

/// The warm-up takes as long as the protocol says it does, at any concurrency.
pub proof fn lemma_warmup_takes_its_time(
    protocol: WarmupProtocol,
    candidate: Candidate,
    concurrency: usize,
)
    ensures
        time_of(protocol.steps_of(candidate, concurrency)) == protocol.total_of(candidate),
{
    reveal_with_fuel(time_of, 4);
    let steps = protocol.steps_of(candidate, concurrency);
    if candidate == Candidate::Traefik {
        assert(steps.drop_last() =~= protocol.steps_of(Candidate::Hyper, concurrency));
    }
    let start = protocol.steps_of(Candidate::Hyper, concurrency);
    assert(start.drop_last() =~= seq![WarmupStep::Idle(protocol.cold_start)]);
    assert(start.drop_last().drop_last() =~= Seq::empty());
}

/// Only Go candidates pay for the settling of a heap.
pub proof fn lemma_only_go_settles(protocol: WarmupProtocol, candidate: Candidate)
    ensures
        candidate != Candidate::Traefik ==> protocol.total_of(candidate) == protocol.cold_start
            + protocol.traffic,
        protocol.total_of(Candidate::Traefik) == protocol.total_of(Candidate::Hyper)
            + protocol.gc_settle,
{
}

// ---------------------------------------------------------------------------
// Durations on the command line
// ---------------------------------------------------------------------------

/// The unit of a duration.
#[derive(Debug, Clone, Copy, PartialEq, Eq, Structural)]
pub enum DurationUnit {
    Milliseconds,
    Seconds,
    Minutes,
    Hours,
}

/// A duration as it was written: a decimal number and its unit.
#[derive(Debug)]
pub struct DurationText {
    pub value: String,
    pub unit: DurationUnit,
}

/// Whether a character is an ASCII letter.
pub open spec fn is_letter(c: char) -> bool {
    'a' <= c <= 'z' || 'A' <= c <= 'Z'
}

/// Where the first ASCII letter of a text stands; its length, if it has none.
pub open spec fn first_letter(s: Seq<char>) -> int
    decreases s.len(),
{
    if s.len() == 0 || is_letter(s[0]) {
        0
    } else {
        1 + first_letter(s.skip(1))
    }
}

/// The number in a duration.
pub open spec fn duration_value(s: Seq<char>) -> Seq<char> {
    s.take(first_letter(s))
}

/// The unit of a duration: seconds, where none is written.
pub open spec fn duration_unit(s: Seq<char>) -> Option<DurationUnit> {
    let unit = s.skip(first_letter(s));
    if unit == "ms"@ {
        Some(DurationUnit::Milliseconds)
    } else if unit == "s"@ || unit == ""@ {
        Some(DurationUnit::Seconds)
    } else if unit == "m"@ {
        Some(DurationUnit::Minutes)
    } else if unit == "h"@ {
        Some(DurationUnit::Hours)
    } else {
        None
    }
}

/// How many decimal digits a text begins with.
pub open spec fn leading_digits(s: Seq<char>) -> int
    decreases s.len(),
{
    if s.len() == 0 || !is_digit(s[0]) {
        0
    } else {
        1 + leading_digits(s.skip(1))
    }
}

/// A text without a sign in front.
pub open spec fn unsigned(s: Seq<char>) -> Seq<char> {
    if s.len() > 0 && (s[0] == '+' || s[0] == '-') {
        s.skip(1)
    } else {
        s
    }
}

/// Whether a text without letters is a decimal number: an optional sign, and digits
/// with at most one point among, before or behind them.
pub open spec fn is_decimal(s: Seq<char>) -> bool {
    let t = unsigned(s);
    let whole = leading_digits(t);
    if whole == t.len() {
        whole > 0
    } else {
        let part = leading_digits(t.skip(whole + 1));
        t[whole] == '.' && whole + 1 + part == t.len() && whole + part > 0
    }
}

fn count_digits(chars: &Vec<char>, from: usize) -> (r: usize)
    requires
        from <= chars@.len(),
    ensures
        from <= r <= chars@.len(),
        r - from == leading_digits(chars@.skip(from as int)),
{
    let mut i: usize = from;
    let ghost all = chars@;
    while i < chars.len() && '0' <= chars[i] && chars[i] <= '9'
        invariant
            from <= i <= chars@.len(),
            chars@ == all,
            leading_digits(all.skip(from as int)) == (i - from) + leading_digits(
                all.skip(i as int),
            ),
        decreases chars@.len() - i,
    {
        assert(all.skip(i as int).skip(1) =~= all.skip(i + 1));
        i = i + 1;
    }
    i
}

/// [`is_decimal`], computed.
fn decimal_number(s: &str) -> (r: bool)
    ensures
        r == is_decimal(s@),
{
    let chars = chars_of(s);
    let from: usize = if chars.len() > 0 && (chars[0] == '+' || chars[0] == '-') {
        1
    } else {
        0
    };
    let ghost t = unsigned(s@);
    assert(t =~= chars@.skip(from as int));
    let whole: usize = count_digits(&chars, from);
    if whole == chars.len() {
        return whole > from;
    }
    let ghost w = whole - from;
    assert(t[w] == chars@[whole as int]);
    assert(t.skip(w + 1) =~= chars@.skip(whole + 1));
    if chars[whole] != '.' {
        return false;
    }
    let end: usize = count_digits(&chars, whole + 1);
    end == chars.len() && chars.len() > from + 1
}

/// Parse a duration such as `30s`, `500ms`, `2m` into its number and its unit. A
/// number that is none is reported before a unit that is unknown.
pub fn parse_duration(text: &str) -> (r: Result<DurationText, String>)
    ensures
        r is Ok <==> is_decimal(duration_value(trimmed(text@))) && duration_unit(
            trimmed(text@),
        ) is Some,
        r matches Ok(d) ==> d.value@ == duration_value(trimmed(text@)) && Some(d.unit)
            == duration_unit(trimmed(text@)),
        r matches Err(message) ==> message@ == (if !is_decimal(duration_value(trimmed(text@))) {
            "invalid duration: "@ + trimmed(text@)
        } else {
            "unknown duration unit '"@ + trimmed(text@).skip(first_letter(trimmed(text@)))
                + "' in '"@ + trimmed(text@) + "'"@
        }),
{
    let text = trim(text);
    let chars = chars_of(text.as_str());
    let ghost all = chars@;
    let mut k: usize = 0;
    assert(all.skip(0) =~= all);
    while k < chars.len() && !('a' <= chars[k] && chars[k] <= 'z' || 'A' <= chars[k] && chars[k]
        <= 'Z')
        invariant
            k <= chars@.len(),
            chars@ == all,
            first_letter(all) == k + first_letter(all.skip(k as int)),
        decreases chars@.len() - k,
    {
        assert(all.skip(k as int).skip(1) =~= all.skip(k + 1));
        k = k + 1;
    }
    let value = string_of(&chars, 0, k);
    let unit = string_of(&chars, k, chars.len());
    assert(value@ =~= all.take(k as int));
    assert(unit@ =~= all.skip(k as int));
    if !decimal_number(value.as_str()) {
        return Err(joined("invalid duration: ", text.as_str()));
    }
    let u = unit.as_str();
    if u.eq("ms") {
        Ok(DurationText { value, unit: DurationUnit::Milliseconds })
    } else if u.eq("s") || u.eq("") {
        Ok(DurationText { value, unit: DurationUnit::Seconds })
    } else if u.eq("m") {
        Ok(DurationText { value, unit: DurationUnit::Minutes })
    } else if u.eq("h") {
        Ok(DurationText { value, unit: DurationUnit::Hours })
    } else {
        let start = around("unknown duration unit '", u, "' in '");
        Err(around(start.as_str(), text.as_str(), "'"))
    }
}

// ---------------------------------------------------------------------------
// The command line
// ---------------------------------------------------------------------------

/// Where the candidates run.
#[derive(Debug, Clone, Copy, PartialEq, Eq, Structural)]
pub enum Mode {
    /// Launch candidates locally as child processes.
    Local,
    /// Drive candidates already deployed to a kind cluster.
    K8s,
}

/// What the command line says of candidates and scenario.
pub struct Selection {
    pub mode: Mode,
    pub candidates: Vec<String>,
    pub all: bool,
    pub scenario: String,
    pub concurrency: Vec<usize>,
    pub payload_sizes: Vec<String>,
    pub http: Vec<String>,
    /// The measurement window in nanoseconds, or why it cannot be told.
    pub duration: Result<u128, String>,
    pub target_rps: Option<u64>,
    pub churn_rate: u32,
    pub quick: bool,
}

/// What an unknown name is answered with.
pub open spec fn unknown(what: Seq<char>, name: Seq<char>) -> Seq<char> {
    "unknown "@ + what + " '"@ + name + "'"@
}

fn unknown_name(what: &str, name: &str) -> (r: String)
    ensures
        r@ == unknown(what@, name@),
{
    let start = around("unknown ", what, " '");
    around(start.as_str(), name, "'")
}

/// The first name in a list that stands for no payload size.
pub open spec fn bad_size(names: Seq<String>) -> Option<Seq<char>>
    decreases names.len(),
{
    if names.len() == 0 {
        None
    } else if PayloadSize::named(names[0]@) is None {
        Some(names[0]@)
    } else {
        bad_size(names.skip(1))
    }
}

/// The first name in a list that stands for no HTTP version.
pub open spec fn bad_version(names: Seq<String>) -> Option<Seq<char>>
    decreases names.len(),
{
    if names.len() == 0 {
        None
    } else if HttpVersion::named(names[0]@) is None {
        Some(names[0]@)
    } else {
        bad_version(names.skip(1))
    }
}

/// The first name in a list that stands for no candidate.
pub open spec fn bad_candidate(names: Seq<String>) -> Option<Seq<char>>
    decreases names.len(),
{
    if names.len() == 0 {
        None
    } else if Candidate::named(names[0]@) is None {
        Some(names[0]@)
    } else {
        bad_candidate(names.skip(1))
    }
}

fn parse_sizes(names: &Vec<String>) -> (r: Result<Vec<PayloadSize>, String>)
    ensures
        r is Ok <==> bad_size(names@) is None,
        r matches Ok(list) ==> list@.len() == names@.len() && forall|i: int|
            0 <= i < list@.len() ==> Some(#[trigger] list@[i]) == PayloadSize::named(names@[i]@),
        r matches Err(m) ==> m@ == unknown("payload size"@, bad_size(names@)->0),
{
    let mut list: Vec<PayloadSize> = Vec::new();
    let mut i: usize = 0;
    assert(names@.skip(0) =~= names@);
    while i < names.len()
        invariant
            i == list@.len() <= names@.len(),
            bad_size(names@) == bad_size(names@.skip(i as int)),
            forall|k: int|
                0 <= k < i ==> Some(#[trigger] list@[k]) == PayloadSize::named(names@[k]@),
        decreases names@.len() - i,
    {
        assert(names@.skip(i as int).skip(1) =~= names@.skip(i + 1));
        match PayloadSize::parse(names[i].as_str()) {
            Some(size) => list.push(size),
            None => return Err(unknown_name("payload size", names[i].as_str())),
        }
        i = i + 1;
    }
    Ok(list)
}

fn parse_versions(names: &Vec<String>) -> (r: Result<Vec<HttpVersion>, String>)
    ensures
        r is Ok <==> bad_version(names@) is None,
        r matches Ok(list) ==> list@.len() == names@.len() && forall|i: int|
            0 <= i < list@.len() ==> Some(#[trigger] list@[i]) == HttpVersion::named(names@[i]@),
        r matches Err(m) ==> m@ == unknown("HTTP version"@, bad_version(names@)->0),
{
    let mut list: Vec<HttpVersion> = Vec::new();
    let mut i: usize = 0;
    assert(names@.skip(0) =~= names@);
    while i < names.len()
        invariant
            i == list@.len() <= names@.len(),
            bad_version(names@) == bad_version(names@.skip(i as int)),
            forall|k: int|
                0 <= k < i ==> Some(#[trigger] list@[k]) == HttpVersion::named(names@[k]@),
        decreases names@.len() - i,
    {
        assert(names@.skip(i as int).skip(1) =~= names@.skip(i + 1));
        match HttpVersion::parse(names[i].as_str()) {
            Some(version) => list.push(version),
            None => return Err(unknown_name("HTTP version", names[i].as_str())),
        }
        i = i + 1;
    }
    Ok(list)
}

fn copied(list: &Vec<usize>) -> (r: Vec<usize>)
    ensures
        r@ == list@,
{
    let mut r: Vec<usize> = Vec::new();
    let mut i: usize = 0;
    while i < list.len()
        invariant
            i == r@.len() <= list@.len(),
            r@ == list@.take(i as int),
        decreases list@.len() - i,
    {
        r.push(list[i]);
        i = i + 1;
        assert(r@ =~= list@.take(i as int));
    }
    assert(r@ =~= list@);
    r
}

/// What a scenario is before anything overrides it. A churn run mutates routes ten
/// times a second at least.
pub open spec fn base_scenario(kind: ScenarioKind, quick: bool, churn_rate: u32) -> Scenario {
    if quick {
        quick_scenario()
    } else {
        match kind {
            ScenarioKind::Throughput => throughput_scenario(),
            ScenarioKind::ConnectionDensity => density_scenario(),
            ScenarioKind::RouteChurn => churn_scenario(
                if churn_rate < 10 {
                    10
                } else {
                    churn_rate
                },
            ),
            ScenarioKind::PgoDelta => pgo_scenario(),
        }
    }
}

/// Why a selection gives no scenario: an unknown scenario comes first, then an
/// unknown payload size, an unknown HTTP version and a bad duration, which a quick
/// run does not look at.
pub open spec fn scenario_error(s: Selection) -> Option<Seq<char>> {
    if ScenarioKind::named(s.scenario@) is None {
        Some(unknown("scenario"@, s.scenario@))
    } else if bad_size(s.payload_sizes@) is Some {
        Some(unknown("payload size"@, bad_size(s.payload_sizes@)->0))
    } else if bad_version(s.http@) is Some {
        Some(unknown("HTTP version"@, bad_version(s.http@)->0))
    } else if !s.quick && s.duration is Err {
        Some(s.duration->Err_0@)
    } else {
        None
    }
}

/// The scenario that a selection gives: what the command line says overrides what
/// the scenario has by itself.
pub open spec fn selected_scenario(s: Selection) -> Scenario {
    let base = base_scenario(ScenarioKind::named(s.scenario@)->0, s.quick, s.churn_rate);
    Scenario {
        name: base.name,
        kind: base.kind,
        concurrencies: if s.concurrency@.len() == 0 {
            base.concurrencies
        } else {
            s.concurrency@
        },
        payloads: if s.payload_sizes@.len() == 0 {
            base.payloads
        } else {
            Seq::new(
                s.payload_sizes@.len(),
                |i: int| PayloadSize::named(s.payload_sizes@[i]@)->0,
            )
        },
        http_versions: if s.http@.len() == 0 {
            base.http_versions
        } else {
            Seq::new(s.http@.len(), |i: int| HttpVersion::named(s.http@[i]@)->0)
        },
        duration: if s.quick {
            base.duration
        } else {
            s.duration->Ok_0
        },
        target_rps: if s.target_rps is Some {
            s.target_rps
        } else {
            base.target_rps
        },
        route_churn_rate_hz: if s.churn_rate > 0 {
            s.churn_rate
        } else {
            base.route_churn_rate_hz
        },
        idle_connection_pct: base.idle_connection_pct,
    }
}

/// The scenario that the command line selects.
pub fn build_scenario(args: &Selection) -> (r: Result<ScenarioConfig, String>)
    ensures
        r is Ok <==> scenario_error(*args) is None,
        r matches Ok(s) ==> s@ == selected_scenario(*args),
        r matches Err(m) ==> Some(m@) == scenario_error(*args),
{
    let kind = match ScenarioKind::parse(args.scenario.as_str()) {
        Some(kind) => kind,
        None => return Err(unknown_name("scenario", args.scenario.as_str())),
    };
    let mut scenario = if args.quick {
        ScenarioConfig::quick()
    } else {
        match kind {
            ScenarioKind::Throughput => ScenarioConfig::throughput(),
            ScenarioKind::ConnectionDensity => ScenarioConfig::connection_density(),
            ScenarioKind::RouteChurn => ScenarioConfig::route_churn(
                if args.churn_rate < 10 {
                    10
                } else {
                    args.churn_rate
                },
            ),
            ScenarioKind::PgoDelta => ScenarioConfig::pgo_delta(),
        }
    };
    if args.concurrency.len() > 0 {
        scenario.concurrencies = copied(&args.concurrency);
    }
    if args.payload_sizes.len() > 0 {
        scenario.payloads = match parse_sizes(&args.payload_sizes) {
            Ok(list) => list,
            Err(m) => return Err(m),
        };
        assert(scenario.payloads@ =~= selected_scenario(*args).payloads);
    }
    if args.http.len() > 0 {
        scenario.http_versions = match parse_versions(&args.http) {
            Ok(list) => list,
            Err(m) => return Err(m),
        };
        assert(scenario.http_versions@ =~= selected_scenario(*args).http_versions);
    }
    if !args.quick {
        scenario.duration = match &args.duration {
            Ok(d) => *d,
            Err(m) => return Err(m.as_str().to_owned()),
        };
    }
    if let Some(rps) = args.target_rps {
        scenario.target_rps = Some(rps);
    }
    if args.churn_rate > 0 {
        scenario.route_churn_rate_hz = args.churn_rate;
    }
    Ok(scenario)
}

/// The candidates that a selection names: all of them, with Traefik only inside a
/// cluster; the first of them, where none is named; or those that are named.
pub open spec fn chosen_candidates(s: Selection) -> Seq<Candidate> {
    let rust = seq![Candidate::Hyper, Candidate::Pingora, Candidate::Monoio];
    if s.all {
        match s.mode {
            Mode::Local => rust,
            Mode::K8s => rust.push(Candidate::Traefik),
        }
    } else if s.candidates@.len() == 0 {
        seq![Candidate::Hyper]
    } else {
        Seq::new(s.candidates@.len(), |i: int| Candidate::named(s.candidates@[i]@)->0)
    }
}

/// The candidates that the command line selects.
pub fn selected_candidates(args: &Selection) -> (r: Result<Vec<Candidate>, String>)
    ensures
        r is Ok <==> args.all || bad_candidate(args.candidates@) is None,
        r matches Ok(list) ==> list@ == chosen_candidates(*args),
        r matches Err(m) ==> m@ == unknown("candidate"@, bad_candidate(args.candidates@)->0),
{
    let mut list: Vec<Candidate> = Vec::new();
    if args.all {
        list.push(Candidate::Hyper);
        list.push(Candidate::Pingora);
        list.push(Candidate::Monoio);
        if args.mode == Mode::K8s {
            list.push(Candidate::Traefik);
        }
        assert(list@ =~= chosen_candidates(*args));
        return Ok(list);
    }
    let names = &args.candidates;
    if names.len() == 0 {
        list.push(Candidate::Hyper);
        assert(list@ =~= chosen_candidates(*args));
        return Ok(list);
    }
    let mut i: usize = 0;
    assert(names@.skip(0) =~= names@);
    while i < names.len()
        invariant
            !args.all,
            names@ == args.candidates@,
            names@.len() > 0,
            i == list@.len() <= names@.len(),
            bad_candidate(names@) == bad_candidate(names@.skip(i as int)),
            forall|k: int|
                0 <= k < i ==> Some(#[trigger] list@[k]) == Candidate::named(names@[k]@),
        decreases names@.len() - i,
    {
        assert(names@.skip(i as int).skip(1) =~= names@.skip(i + 1));
        match Candidate::parse(names[i].as_str()) {
            Some(candidate) => list.push(candidate),
            None => return Err(unknown_name("candidate", names[i].as_str())),
        }
        i = i + 1;
    }
    assert(list@ =~= chosen_candidates(*args));
    Ok(list)
}

} // verus!
