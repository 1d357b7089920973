//! What is run, for how long, and what a machine must offer for it.

use vstd::prelude::*;
use vstd::string::*;

use crate::bench::candidate::Candidate;
use crate::bench::payloads::{HttpVersion, PayloadSize};
use crate::bench::preflight::{
    backlog_needed, blocking_of, checks_of, range_size, severity_of, CheckText, Limits, Severity,
};
use crate::bench::scenario::{
    base_scenario, chosen_candidates, duration_unit, duration_value, first_letter, is_decimal,
    is_letter, leading_digits, DurationUnit, Mode, ScenarioKind, Selection,
};
use crate::lb_core::double::Double;
use crate::text::nat_text;
use crate::text_laws::lemma_decimal;

verus! {

/// A scenario is of the kind that was asked for and measures what that kind is about: the
/// sweep every size over both protocols, the density run mostly idle connections, the
/// churn run at the rate asked for and ten a second at least. A quick run is short,
/// whatever was asked for.
pub proof fn lemma_scenarios_measure_what_they_are_about(kind: ScenarioKind, churn_rate: u32)
    ensures
        ({
            let s = base_scenario(kind, false, churn_rate);
            let quick = base_scenario(kind, true, churn_rate);
            &&& s.kind == kind
            &&& kind == ScenarioKind::Throughput ==> s.payloads.contains(PayloadSize::Small1Kb)
                && s.payloads.contains(PayloadSize::Medium64Kb) && s.payloads.contains(
                PayloadSize::Large1Mb,
            ) && s.http_versions.contains(HttpVersion::Http11) && s.http_versions.contains(
                HttpVersion::Http2,
            ) && s.concurrencies == seq![100usize, 1_000, 5_000, 10_000, 25_000]
            &&& kind == ScenarioKind::ConnectionDensity ==> s.idle_connection_pct == 95
                && s.concurrencies == seq![10_000usize, 25_000, 50_000]
            &&& kind == ScenarioKind::RouteChurn ==> s.route_churn_rate_hz >= 10 && (churn_rate
                >= 10 ==> s.route_churn_rate_hz == churn_rate) && s.target_rps == Some(20_000u64)
            &&& kind == ScenarioKind::PgoDelta ==> s.concurrencies == seq![100usize, 1_000, 5_000]
            &&& kind != ScenarioKind::RouteChurn ==> s.route_churn_rate_hz == 0 && s.target_rps
                is None
            &&& kind != ScenarioKind::ConnectionDensity ==> s.idle_connection_pct == 0
            &&& kind != ScenarioKind::ConnectionDensity ==> s.duration == 30_000_000_000
            &&& kind == ScenarioKind::ConnectionDensity ==> s.duration == 60_000_000_000
            &&& quick.duration == 5_000_000_000
            &&& quick.concurrencies == seq![50usize, 200]
        }),
{
    let s = base_scenario(kind, false, churn_rate);
    if kind == ScenarioKind::Throughput {
        assert(s.payloads[0] == PayloadSize::Small1Kb);
        assert(s.payloads[1] == PayloadSize::Medium64Kb);
        assert(s.payloads[2] == PayloadSize::Large1Mb);
        assert(s.http_versions[0] == HttpVersion::Http11);
        assert(s.http_versions[1] == HttpVersion::Http2);
    }
}

/// The candidates that run are those that were named, in their order; all of them where
/// all were asked for, the one that is deployed elsewhere only on a cluster; and one
/// where none was named.
pub proof fn lemma_named_candidates_run(s: Selection, i: int)
    ensures
        ({
            let run = chosen_candidates(s);
            &&& s.all ==> run.contains(Candidate::Hyper) && run.contains(Candidate::Pingora)
                && run.contains(Candidate::Monoio)
            &&& s.all ==> (run.contains(Candidate::Traefik) <==> s.mode == Mode::K8s)
            &&& !s.all && s.candidates@.len() == 0 ==> run == seq![Candidate::Hyper]
            &&& !s.all && s.candidates@.len() > 0 ==> run.len() == s.candidates@.len()
            &&& !s.all && 0 <= i < s.candidates@.len() && Candidate::named(s.candidates@[i]@)
                is Some ==> Candidate::named(s.candidates@[i]@) == Some(run[i])
        }),
{
    let run = chosen_candidates(s);
    if s.all {
        assert(run[0] == Candidate::Hyper);
        assert(run[1] == Candidate::Pingora);
        assert(run[2] == Candidate::Monoio);
        if s.mode == Mode::K8s {
            assert(run[3] == Candidate::Traefik);
        }
    }
}

proof fn lemma_first_letter(a: Seq<char>, b: Seq<char>)
    requires
        forall|i: int| 0 <= i < a.len() ==> '0' <= #[trigger] a[i] <= '9',
        b.len() > 0 ==> is_letter(b[0]),
    ensures
        first_letter(a + b) == a.len(),
        leading_digits(a) == a.len(),
    decreases a.len(),
{
    if a.len() == 0 {
        assert(a + b =~= b);
    } else {
        let rest = a.skip(1);
        assert forall|i: int| 0 <= i < rest.len() implies '0' <= #[trigger] rest[i] <= '9' by {
            assert(rest[i] == a[i + 1]);
        }
        lemma_first_letter(rest, b);
        assert((a + b).skip(1) =~= rest + b);
        assert((a + b)[0] == a[0]);
    }
}

/// A duration of a whole number of milliseconds, seconds, minutes or hours is read as that
/// number in that unit, and a bare number as seconds.
pub proof fn lemma_durations_read_back(n: nat, unit: Seq<char>)
    requires
        unit == "ms"@ || unit == "s"@ || unit == "m"@ || unit == "h"@ || unit == ""@,
    ensures
        is_decimal(duration_value(nat_text(n) + unit)),
        duration_value(nat_text(n) + unit) == nat_text(n),
        duration_unit(nat_text(n) + unit) == Some(
            if unit == "ms"@ {
                DurationUnit::Milliseconds
            } else if unit == "m"@ {
                DurationUnit::Minutes
            } else if unit == "h"@ {
                DurationUnit::Hours
            } else {
                DurationUnit::Seconds
            },
        ),
{
    reveal_strlit("ms");
    reveal_strlit("s");
    reveal_strlit("m");
    reveal_strlit("h");
    reveal_strlit("");
    let t = nat_text(n);
    lemma_decimal(n);
    lemma_first_letter(t, unit);
    assert((t + unit).take(t.len() as int) =~= t);
    assert((t + unit).skip(t.len() as int) =~= unit);
    assert(t.len() > 0);
    assert('0' <= t[0] <= '9');
    assert("ms"@.len() == 2 && "s"@.len() == 1 && "m"@.len() == 1 && "h"@.len() == 1);
    assert("ms"@[0] == 'm' && "s"@[0] == 's' && "m"@[0] == 'm' && "h"@[0] == 'h');
}

/// A limit is fine where it covers the need, blocks the run where it does not cover four
/// fifths of it, and is tight in between.
pub proof fn lemma_limits_are_judged_by_the_need(current: int, required: int)
    requires
        0 <= current,
        0 <= required,
    ensures
        severity_of(current, required) == Severity::Fine <==> current >= required,
        severity_of(current, required) == Severity::Blocking <==> current < required && 5 * current
            < 4 * required,
{
}

/// The checks that block a run are those of that severity, in their order.
pub proof fn lemma_blocking_checks_are_listed(checks: Seq<CheckText>)
    ensures
        blocking_of(checks) == checks.filter(|c: CheckText| c.severity == Severity::Blocking),
    decreases checks.len(),
{
    reveal(Seq::filter);
    if checks.len() > 0 {
        lemma_blocking_checks_are_listed(checks.drop_last());
    }
}

/// A run of `n` connections needs two open files for each of them and a thousand more, and
/// a backlog of an eighth of them, from 128 to 8192; a range of ports counts both its ends.
pub proof fn lemma_needs_grow_with_the_connections(
    n: int,
    upstream: Double,
    limits: Limits,
    first: int,
    last: int,
)
    requires
        n >= 0,
    ensures
        checks_of(n, upstream, limits).len() > 0,
        checks_of(n, upstream, limits)[0].current == limits.open_files,
        checks_of(n, upstream, limits)[0].required == 2 * n + 1_024,
        checks_of(n, upstream, limits)[0].severity == Severity::Fine <==> limits.open_files >= 2 * n
            + 1_024,
        128 <= backlog_needed(n) <= 8_192,
        1_024 <= n <= 65_536 ==> 8 * backlog_needed(n) <= n < 8 * backlog_needed(n) + 8,
        n < 1_024 ==> backlog_needed(n) == 128,
        n >= 65_536 ==> backlog_needed(n) == 8_192,
        first <= last ==> range_size(first, last) == last - first + 1,
{
}

} // verus!
