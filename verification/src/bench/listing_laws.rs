//! What the harness finds, counts and profiles.

use vstd::prelude::*;

use crate::bench::harness_laws::{says, says_at};
use crate::bench::latency::sample_count;
use crate::bench::profiling::{
    capture_of, collection_up_to, pprof_of, raw_profiles, svgs_of, FlamegraphConfig,
};
use crate::text::nat_text;

verus! {

/// Whether a file is named something, and then the ending.
pub open spec fn has_ending(name: Seq<char>, ending: Seq<char>) -> bool {
    name.len() > ending.len() && name.skip(name.len() - ending.len()) == ending
}

/// The pictures that are listed are the files of a directory that are named so, in their
/// order, and the raw profiles that are counted likewise.
pub proof fn lemma_files_are_found_by_their_ending(names: Seq<Seq<char>>)
    ensures
        svgs_of(names) == names.filter(|name: Seq<char>| has_ending(name, ".svg"@)),
        raw_profiles(names) == names.filter(
            |name: Seq<char>| has_ending(name, ".profraw"@),
        ).len(),
    decreases names.len(),
{
    reveal(Seq::filter);
    if names.len() > 0 {
        lemma_files_are_found_by_their_ending(names.drop_last());
    }
}

/// A profile is collected at every concurrency, with small bodies and then with large
/// ones, and at no other.
pub proof fn lemma_every_concurrency_is_profiled(concurrencies: Seq<usize>, n: int, i: int)
    requires
        0 <= i < n <= concurrencies.len(),
    ensures
        collection_up_to(concurrencies, n).len() == 2 * n,
        collection_up_to(concurrencies, n)[2 * i] == (concurrencies[i], 1_024usize),
        collection_up_to(concurrencies, n)[2 * i + 1] == (concurrencies[i], 65_536usize),
    decreases n,
{
    if i < n - 1 {
        lemma_every_concurrency_is_profiled(concurrencies, n - 1, i);
    } else if n > 1 {
        lemma_every_concurrency_is_profiled(concurrencies, n - 1, 0);
    } else {
        assert(collection_up_to(concurrencies, 0).len() == 0);
    }
}

/// A profiler is told which process to watch, how often, for how long and where to put
/// what it sees.
pub proof fn lemma_profilers_are_told_what_to_watch(
    config: FlamegraphConfig,
    pid: nat,
    url: Seq<char>,
    output: Seq<char>,
)
    ensures
        says(capture_of(config, pid, output), "--pid"@, nat_text(pid)),
        says(capture_of(config, pid, output), "--freq"@, nat_text(config.frequency as nat)),
        says(capture_of(config, pid, output), "--output"@, output),
        says(capture_of(config, pid, output), "sleep"@, nat_text(config.duration_secs as nat)),
        says(pprof_of(config, url, output), "-output"@, output),
        pprof_of(config, url, output).last() == url + "/debug/pprof/profile?seconds="@ + nat_text(
            config.duration_secs as nat,
        ),
{
    let args = capture_of(config, pid, output);
    assert(says_at(args, 0, "--pid"@, nat_text(pid)));
    assert(says_at(args, 2, "--freq"@, nat_text(config.frequency as nat)));
    assert(says_at(args, 4, "--output"@, output));
    assert(says_at(args, 7, "sleep"@, nat_text(config.duration_secs as nat)));
    assert(says_at(pprof_of(config, url, output), 3, "-output"@, output));
}

/// Samples add up, list by list, and each bin counts for as many as it holds.
pub proof fn lemma_samples_add_up(a: Seq<(u64, u64)>, b: Seq<(u64, u64)>, e: (u64, u64))
    ensures
        sample_count(a + b) == sample_count(a) + sample_count(b),
        sample_count(a.push(e)) == sample_count(a) + e.1,
    decreases b.len(),
{
    assert(a.push(e).drop_last() =~= a);
    if b.len() == 0 {
        assert(a + b =~= a);
    } else {
        lemma_samples_add_up(a, b.drop_last(), e);
        assert((a + b).drop_last() =~= a + b.drop_last());
    }
}

} // verus!
