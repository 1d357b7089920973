//! What the harness owes whoever reads its numbers: load is offered at the rate that was
//! asked for, a proxy is started with what it was given, and a choice on the command line
//! is the choice that is run.

use vstd::prelude::*;

use crate::bench::candidate::{command_of, launch_env, Candidate, LaunchSpec};
use crate::bench::mock::{first_size, mock_answer, pair_size, MockBody};
use crate::bench::payloads::{HttpVersion, PayloadSize};
use crate::bench::result::BenchmarkResult;
use crate::bench::runner::{
    is_pgo, is_standard, pacing_of, pairs_up_to, partner_from, same_workload,
};
use crate::bench::scenario::{
    bad_size, bad_version, base_scenario, scenario_error, selected_scenario,
    ScenarioKind, Selection,
};
use crate::lb_core::binary64::{lemma_double_bounds, ratio_floor};
use crate::lb_core::share_laws::lemma_small_ratios_are_cut_off_exactly;
use crate::text::{begins_with, lemma_position, nat_text, pieces, position_of};
use crate::text_laws::lemma_numbers_read_back;

verus! {

/// Workers that each wait the pacing interval between two requests send, together, the
/// rate that was asked for: another microsecond would be too slow, and the interval itself
/// is not. Without a rate nobody waits.
pub proof fn lemma_pacing_offers_the_rate(workers: nat, rps: u64)
    requires
        1_000_000 * workers < 0x20_0000_0000_0000,
        rps < 0x20_0000_0000_0000,
    ensures
        rps > 0 ==> pacing_of(workers, Some(rps)) * rps <= 1_000_000 * workers,
        rps > 0 ==> 1_000_000 * workers < (pacing_of(workers, Some(rps)) + 1) * rps,
        pacing_of(workers, None) == 0,
        pacing_of(workers, Some(0)) == 0,
{
    if rps > 0 {
        lemma_double_bounds(workers as int);
        let a: int = 1_000_000 * (workers as int);
        lemma_double_bounds(a);
        lemma_double_bounds(rps as int);
        let q = ratio_floor(a, rps as int);
        lemma_small_ratios_are_cut_off_exactly(a, rps as int);
        assert(q <= a) by (nonlinear_arith)
            requires
                q * rps <= a,
                rps >= 1,
                a >= 0,
        ;
        assert(pacing_of(workers, Some(rps)) == q);
    }
}

/// Whether a flag stands among arguments with a value right behind it.
pub open spec fn says(args: Seq<Seq<char>>, flag: Seq<char>, value: Seq<char>) -> bool {
    exists|i: int| says_at(args, i, flag, value)
}

/// Whether a flag stands at a place among arguments with a value right behind it.
pub open spec fn says_at(args: Seq<Seq<char>>, i: int, flag: Seq<char>, value: Seq<char>) -> bool {
    0 <= i < args.len() - 1 && args[i] == flag && args[i + 1] == value
}

/// A proxy is told where to listen, where to send what no route takes, how many threads
/// to run and which file to read, as far as it was said.
pub proof fn lemma_proxy_is_told_what_was_said(spec: LaunchSpec, temp_dir: Seq<char>)
    requires
        spec.candidate != Candidate::Traefik,
    ensures
        ({
            let args = command_of(spec, temp_dir).args;
            &&& says(args, "--listen"@, spec.listen_addr@)
            &&& says(args, "--default-upstream"@, spec.upstream_addr@)
            &&& says(args, "--mode"@, "standalone"@)
            &&& spec.workers matches Some(n) ==> says(
                args,
                if spec.candidate == Candidate::Hyper {
                    "--workers"@
                } else {
                    "--threads"@
                },
                nat_text(n as nat),
            )
            &&& spec.config_path matches Some(path) ==> says(args, "--config"@, path@)
            &&& args.len() == 6 + (if spec.workers is Some {
                2int
            } else {
                0
            }) + (if spec.config_path is Some {
                2int
            } else {
                0
            })
        }),
{
    let args = command_of(spec, temp_dir).args;
    assert(says_at(args, 0, "--listen"@, spec.listen_addr@));
    assert(says_at(args, 2, "--default-upstream"@, spec.upstream_addr@));
    assert(says_at(args, 4, "--mode"@, "standalone"@));
    if spec.workers is Some {
        let n = spec.workers->0;
        let flag = if spec.candidate == Candidate::Hyper {
            "--workers"@
        } else {
            "--threads"@
        };
        assert(says_at(args, 6, flag, nat_text(n as nat)));
    }
    if spec.config_path is Some {
        let k: int = if spec.workers is Some {
            8
        } else {
            6
        };
        assert(says_at(args, k, "--config"@, spec.config_path->0@));
    }
}

/// The environment that was given goes along as it is; the log level is quietened only
/// where it was not given.
pub proof fn lemma_environment_goes_along(env: Seq<(Seq<char>, Seq<char>)>, i: int)
    requires
        0 <= i < env.len(),
    ensures
        launch_env(env).take(env.len() as int) == env,
        env[i].0 == "RUST_LOG"@ ==> launch_env(env) == env,
        (forall|k: int| 0 <= k < env.len() ==> (#[trigger] env[k]).0 != "RUST_LOG"@) ==> launch_env(
            env,
        ) == env.push(("RUST_LOG"@, "warn"@)),
{
    assert(launch_env(env).take(env.len() as int) =~= env);
}

/// A mock backend answers with a body of the first size that its query asks for, at most
/// eight megabytes; only its health check is never a payload.
pub proof fn lemma_size_that_is_asked_for_is_sent(
    path: Seq<char>,
    q: Seq<char>,
    j: int,
    n: nat,
    received: nat,
)
    requires
        n <= usize::MAX,
        0 <= j < pieces(q, '&').len(),
        pieces(q, '&')[j] == "size="@ + nat_text(n),
        forall|i: int| 0 <= i < j ==> !begins_with(#[trigger] pieces(q, '&')[i], "size="@),
    ensures
        path != "/healthz"@ ==> mock_answer(path, Some(q), received) == MockBody::Payload(
            (if n < 8_388_608 {
                n
            } else {
                8_388_608
            }) as usize,
        ),
        path == "/healthz"@ ==> mock_answer(path, Some(q), received) == MockBody::Ready,
{
    lemma_first_size(pieces(q, '&'), j, n);
}

proof fn lemma_first_size(pairs: Seq<Seq<char>>, j: int, n: nat)
    requires
        n <= usize::MAX,
        0 <= j < pairs.len(),
        pairs[j] == "size="@ + nat_text(n),
        forall|i: int| 0 <= i < j ==> !begins_with(#[trigger] pairs[i], "size="@),
    ensures
        first_size(pairs) == Some(n as int),
    decreases j,
{
    reveal_strlit("size=");
    reveal_strlit("size");
    let pair = pairs[0];
    lemma_position(pair, '=');
    let k = position_of(pair, '=');
    if j == 0 {
        assert(pair[4] == '=');
        assert(pair[0] == 's' && pair[1] == 'i' && pair[2] == 'z' && pair[3] == 'e');
        assert(k == 4);
        assert(pair.take(4) =~= "size"@);
        assert(pair.skip(5) =~= nat_text(n));
        lemma_numbers_read_back(n, usize::MAX as int);
    } else {
        if pair_size(pair) is Some {
            assert(pair.take(k) == "size"@);
            assert(pair.take(k)[0] == 's' && pair.take(k)[1] == 'i' && pair.take(k)[2] == 'z'
                && pair.take(k)[3] == 'e');
            assert(pair.take(5) =~= "size="@);
        }
        let rest = pairs.skip(1);
        assert forall|i: int| 0 <= i < j - 1 implies !begins_with(#[trigger] rest[i], "size="@) by {
            assert(rest[i] == pairs[i + 1]);
        }
        lemma_first_size(rest, j - 1, n);
    }
}

/// Without a size a request to the echo path that brought a body gets it back, and any
/// other gets the standard body.
pub proof fn lemma_echo_needs_a_body(path: Seq<char>, received: nat)
    requires
        path != "/healthz"@,
    ensures
        mock_answer(path, None, received) == (if begins_with(path, "/echo"@) && received > 0 {
            MockBody::Echo
        } else {
            MockBody::Standard
        }),
{
}

/// What the command line chooses is what runs, name by name and in its order, and what it
/// leaves open is as the kind of scenario has it.
pub proof fn lemma_choices_are_run(s: Selection)
    requires
        scenario_error(s) is None,
    ensures
        ({
            let run = selected_scenario(s);
            let base = base_scenario(ScenarioKind::named(s.scenario@)->0, s.quick, s.churn_rate);
            &&& run.kind == base.kind && run.name == base.name
            &&& s.concurrency@.len() > 0 ==> run.concurrencies == s.concurrency@
            &&& s.concurrency@.len() == 0 ==> run.concurrencies == base.concurrencies
            &&& s.payload_sizes@.len() > 0 ==> run.payloads.len() == s.payload_sizes@.len() && (
            forall|i: int|
                0 <= i < run.payloads.len() ==> PayloadSize::named(
                    (#[trigger] s.payload_sizes@[i])@,
                ) == Some(run.payloads[i]))
            &&& s.payload_sizes@.len() == 0 ==> run.payloads == base.payloads
            &&& s.http@.len() > 0 ==> run.http_versions.len() == s.http@.len() && (forall|i: int|
                0 <= i < run.http_versions.len() ==> HttpVersion::named((#[trigger] s.http@[i])@)
                    == Some(run.http_versions[i]))
            &&& s.http@.len() == 0 ==> run.http_versions == base.http_versions
            &&& !s.quick ==> (s.duration matches Ok(d) && run.duration == d)
            &&& s.quick ==> run.duration == base.duration
            &&& s.target_rps is Some ==> run.target_rps == s.target_rps
            &&& s.churn_rate > 0 ==> run.route_churn_rate_hz == s.churn_rate
        }),
{
    assert forall|i: int| 0 <= i < s.payload_sizes@.len() implies PayloadSize::named(
        (#[trigger] s.payload_sizes@[i])@,
    ) is Some by {
        lemma_no_bad_size(s.payload_sizes@, i);
    }
    assert forall|i: int| 0 <= i < s.http@.len() implies HttpVersion::named(
        (#[trigger] s.http@[i])@,
    ) is Some by {
        lemma_no_bad_version(s.http@, i);
    }
}

proof fn lemma_no_bad_size(names: Seq<String>, i: int)
    requires
        bad_size(names) is None,
        0 <= i < names.len(),
    ensures
        PayloadSize::named(names[i]@) is Some,
    decreases names.len(),
{
    if i > 0 {
        lemma_no_bad_size(names.skip(1), i - 1);
        assert(names.skip(1)[i - 1] == names[i]);
    }
}

proof fn lemma_no_bad_version(names: Seq<String>, i: int)
    requires
        bad_version(names) is None,
        0 <= i < names.len(),
    ensures
        HttpVersion::named(names[i]@) is Some,
    decreases names.len(),
{
    if i > 0 {
        lemma_no_bad_version(names.skip(1), i - 1);
        assert(names.skip(1)[i - 1] == names[i]);
    }
}

/// The first name that nothing goes by is the one that is complained of.
pub proof fn lemma_first_bad_name_is_reported(sizes: Seq<String>, versions: Seq<String>, i: int)
    ensures
        0 <= i < sizes.len() && PayloadSize::named(sizes[i]@) is None && (forall|k: int|
            0 <= k < i ==> PayloadSize::named((#[trigger] sizes[k])@) is Some) ==> bad_size(sizes)
            == Some(sizes[i]@),
        0 <= i < versions.len() && HttpVersion::named(versions[i]@) is None && (forall|k: int|
            0 <= k < i ==> HttpVersion::named((#[trigger] versions[k])@) is Some) ==> bad_version(
            versions,
        ) == Some(versions[i]@),
    decreases i,
{
    if i > 0 {
        let (a, b) = (sizes.skip(1), versions.skip(1));
        lemma_first_bad_name_is_reported(a, b, i - 1);
        if i < sizes.len() && (forall|k: int|
            0 <= k < i ==> PayloadSize::named((#[trigger] sizes[k])@) is Some) {
            assert(a[i - 1] == sizes[i]);
            assert(PayloadSize::named(sizes[0]@) is Some);
            assert forall|k: int| 0 <= k < i - 1 implies PayloadSize::named(
                (#[trigger] a[k])@,
            ) is Some by {
                assert(a[k] == sizes[k + 1]);
            }
        }
        if i < versions.len() && (forall|k: int|
            0 <= k < i ==> HttpVersion::named((#[trigger] versions[k])@) is Some) {
            assert(b[i - 1] == versions[i]);
            assert(HttpVersion::named(versions[0]@) is Some);
            assert forall|k: int| 0 <= k < i - 1 implies HttpVersion::named(
                (#[trigger] b[k])@,
            ) is Some by {
                assert(b[k] == versions[k + 1]);
            }
        }
    }
}

/// Every run of the standard build that has a run of the optimised build of the same
/// workload is compared with the first such run.
pub proof fn lemma_every_pair_is_compared(all: Seq<BenchmarkResult>, n: int, s: int, p: int)
    requires
        0 <= s < n <= all.len(),
        0 <= p < all.len(),
        is_standard(all[s]),
        is_pgo(all[p]),
        same_workload(all[p], all[s]),
        forall|k: int|
            0 <= k < p ==> !(is_pgo(#[trigger] all[k]) && same_workload(all[k], all[s])),
    ensures
        pairs_up_to(all, n).contains((s, p)),
    decreases n,
{
    let before = pairs_up_to(all, n - 1);
    let now = pairs_up_to(all, n);
    if s == n - 1 {
        lemma_first_partner(all, all[s], 0, p);
        assert(now[before.len() as int] == (s, p));
    } else {
        lemma_every_pair_is_compared(all, n - 1, s, p);
        let k = choose|k: int| 0 <= k < before.len() && before[k] == (s, p);
        assert(now[k] == (s, p));
    }
}

proof fn lemma_first_partner(all: Seq<BenchmarkResult>, w: BenchmarkResult, from: int, p: int)
    requires
        0 <= from <= p < all.len(),
        is_pgo(all[p]),
        same_workload(all[p], w),
        forall|k: int| from <= k < p ==> !(is_pgo(#[trigger] all[k]) && same_workload(all[k], w)),
    ensures
        partner_from(all, w, from) == Some(p),
    decreases p - from,
{
    if from < p {
        lemma_first_partner(all, w, from + 1, p);
    }
}

} // verus!
