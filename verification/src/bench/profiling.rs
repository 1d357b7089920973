//! Flamegraphs and the three-pass PGO build.

use vstd::prelude::*;
use vstd::string::*;

use crate::bench::candidate::Candidate;
use crate::bench::order::{in_order, lists_all, sorted_order, SortKey};
use crate::bench::runner::LoadConfig;
use crate::bench::scenario::SECOND;
use crate::text::{
    around, decimal, ends_with, join_path, joined, lemma_nat_text_injective, nat_text, path_join,
    strip_suffix, texts,
};

verus! {

/// A binary must retain symbols to be profilable: this build profile has the same
/// codegen as the release one, with symbols kept.
pub const PROFILING_PROFILE: &'static str = "profiling";

/// Flamegraph capture settings.
#[derive(Debug)]
pub struct FlamegraphConfig {
    /// Directory to write SVGs into.
    pub output_dir: String,
    /// How long to sample, in seconds.
    pub duration_secs: u64,
    /// Sampling frequency in Hz.
    pub frequency: u32,
}

impl Default for FlamegraphConfig {
    /// The frequency is prime, to avoid aliasing with periodic workloads.
    fn default() -> (r: Self)
        ensures
            r.output_dir@ == "results/flamegraphs"@,
            r.duration_secs == 30,
            r.frequency == 997,
    {
        Self { output_dir: "results/flamegraphs".to_owned(), duration_secs: 30, frequency: 997 }
    }
}

/// Where the flamegraph of a candidate at a concurrency goes.
pub open spec fn flamegraph_path(dir: Seq<char>, candidate: Candidate, concurrency: nat) -> Seq<
    char,
> {
    path_join(dir, candidate.shown() + "-c"@ + nat_text(concurrency) + ".svg"@)
}

/// The arguments that sample a running process.
pub open spec fn capture_of(config: FlamegraphConfig, pid: nat, output: Seq<char>) -> Seq<
    Seq<char>,
> {
    seq![
        "--pid"@,
        nat_text(pid),
        "--freq"@,
        nat_text(config.frequency as nat),
        "--output"@,
        output,
        "--"@,
        "sleep"@,
        nat_text(config.duration_secs as nat),
    ]
}

/// The arguments that take Traefik's own profile.
pub open spec fn pprof_of(config: FlamegraphConfig, url: Seq<char>, output: Seq<char>) -> Seq<
    Seq<char>,
> {
    seq![
        "tool"@,
        "pprof"@,
        "-svg"@,
        "-output"@,
        output,
        url + "/debug/pprof/profile?seconds="@ + nat_text(config.duration_secs as nat),
    ]
}

/// Whether a file is an SVG, by its name: something must stand before the extension.
pub open spec fn is_svg(name: Seq<char>) -> bool {
    ends_with(name, ".svg"@) && name.len() > ".svg"@.len()
}

/// The SVGs in a list of file names.
pub open spec fn svgs_of(names: Seq<Seq<char>>) -> Seq<Seq<char>>
    decreases names.len(),
{
    if names.len() == 0 {
        Seq::empty()
    } else if is_svg(names.last()) {
        svgs_of(names.drop_last()).push(names.last())
    } else {
        svgs_of(names.drop_last())
    }
}

/// Whether paths are those of files in a directory, each once and in the order of
/// their names.
pub open spec fn listed_in_order(
    paths: Seq<Seq<char>>,
    dir: Seq<char>,
    names: Seq<Seq<char>>,
    keys: Seq<SortKey>,
    order: Seq<usize>,
) -> bool {
    &&& lists_all(order, names.len() as int)
    &&& keys.len() == names.len()
    &&& forall|i: int|
        0 <= i < names.len() ==> (#[trigger] keys[i]).name@ == names[i] && keys[i].number == 0
    &&& in_order(keys, order)
    &&& paths == Seq::new(order.len(), |i: int| path_join(dir, names[order[i] as int]))
}

/// Captures CPU profiles.
pub struct FlamegraphCapture {
    pub config: FlamegraphConfig,
}

impl FlamegraphCapture {
    /// A capture with these settings.
    #[must_use]
    pub fn new(config: FlamegraphConfig) -> (r: Self)
        ensures
            r.config == config,
    {
        Self { config }
    }

    /// Output path for one candidate at one concurrency.
    #[must_use]
    pub fn output_path(&self, candidate: Candidate, concurrency: usize) -> (r: String)
        ensures
            r@ == flamegraph_path(self.config.output_dir@, candidate, concurrency as nat),
    {
        let start = around(candidate.display_name(), "-c", decimal(concurrency as u64).as_str());
        let name = joined(start.as_str(), ".svg");
        join_path(self.config.output_dir.as_str(), name.as_str())
    }

    /// The arguments that sample a running process into a flamegraph.
    #[must_use]
    pub fn capture_args(&self, pid: u32, output: &str) -> (r: Vec<String>)
        ensures
            texts(r@) == capture_of(self.config, pid as nat, output@),
    {
        let mut r: Vec<String> = Vec::new();
        r.push("--pid".to_owned());
        r.push(decimal(pid as u64));
        r.push("--freq".to_owned());
        r.push(decimal(self.config.frequency as u64));
        r.push("--output".to_owned());
        r.push(output.to_owned());
        r.push("--".to_owned());
        r.push("sleep".to_owned());
        r.push(decimal(self.config.duration_secs));
        assert(texts(r@) =~= capture_of(self.config, pid as nat, output@));
        r
    }

    /// The arguments that take Traefik's profile through its own endpoint.
    #[must_use]
    pub fn pprof_args(&self, pprof_url: &str, output: &str) -> (r: Vec<String>)
        ensures
            texts(r@) == pprof_of(self.config, pprof_url@, output@),
    {
        let mut r: Vec<String> = Vec::new();
        r.push("tool".to_owned());
        r.push("pprof".to_owned());
        r.push("-svg".to_owned());
        r.push("-output".to_owned());
        r.push(output.to_owned());
        r.push(
            around(
                pprof_url,
                "/debug/pprof/profile?seconds=",
                decimal(self.config.duration_secs).as_str(),
            ),
        );
        assert(texts(r@) =~= pprof_of(self.config, pprof_url@, output@));
        r
    }

    /// Every SVG among the files of the output directory, for embedding in the
    /// report: in the order of their names.
    #[must_use]
    pub fn collected(&self, names: &Vec<String>) -> (r: Vec<String>)
        ensures
            exists|keys: Seq<SortKey>, order: Seq<usize>| #[trigger]
                listed_in_order(
                    texts(r@),
                    self.config.output_dir@,
                    svgs_of(texts(names@)),
                    keys,
                    order,
                ),
    {
        let mut keys: Vec<SortKey> = Vec::new();
        let ghost all = texts(names@);
        let mut i: usize = 0;
        assert(all.take(0) =~= Seq::empty());
        while i < names.len()
            invariant
                i <= names@.len(),
                all == texts(names@),
                keys@.len() == svgs_of(all.take(i as int)).len(),
                forall|k: int|
                    0 <= k < keys@.len() ==> (#[trigger] keys@[k]).name@ == svgs_of(
                        all.take(i as int),
                    )[k] && keys@[k].number == 0,
            decreases names@.len() - i,
        {
            assert(all.take(i + 1).drop_last() =~= all.take(i as int));
            assert(all.take(i + 1).last() == names@[i as int]@);
            let name = names[i].as_str();
            if let Some(stem) = strip_suffix(name, ".svg") {
                if stem.as_str().unicode_len() > 0 {
                    keys.push(SortKey { name: name.to_owned(), number: 0 });
                }
            }
            i = i + 1;
        }
        assert(all.take(i as int) =~= all);
        let order = sorted_order(&keys);
        let mut out: Vec<String> = Vec::new();
        let ghost svgs = svgs_of(all);
        let ghost paths = Seq::new(
            order@.len(),
            |k: int| path_join(self.config.output_dir@, svgs[order@[k] as int]),
        );
        let mut k: usize = 0;
        while k < order.len()
            invariant
                k == out@.len() <= order@.len(),
                keys@.len() == svgs.len(),
                lists_all(order@, keys@.len() as int),
                forall|j: int|
                    0 <= j < keys@.len() ==> (#[trigger] keys@[j]).name@ == svgs[j],
                paths == Seq::new(
                    order@.len(),
                    |j: int| path_join(self.config.output_dir@, svgs[order@[j] as int]),
                ),
                forall|j: int| 0 <= j < k ==> (#[trigger] out@[j])@ == paths[j],
            decreases order@.len() - k,
        {
            out.push(join_path(self.config.output_dir.as_str(), keys[order[k]].name.as_str()));
            k = k + 1;
        }
        assert(texts(out@) =~= paths);
        assert(listed_in_order(
            texts(out@),
            self.config.output_dir@,
            svgs_of(texts(names@)),
            keys@,
            order@,
        ));
        out
    }
}

/// Whether a binary retains the symbols that a flamegraph needs, from what the lister
/// of symbols made of it: whether it succeeded, and how many bytes it printed. Without
/// a lister it cannot be told, and is taken for granted.
#[must_use]
pub fn has_symbols(listed: Option<(bool, usize)>) -> (r: bool)
    ensures
        r == match listed {
            Some((succeeded, bytes)) => succeeded && bytes > 1024,
            None => true,
        },
{
    match listed {
        Some((succeeded, bytes)) => succeeded && bytes > 1024,
        None => true,
    }
}

/// No two flamegraphs of a run share a path.
pub proof fn lemma_flamegraph_paths_are_unique(
    dir: Seq<char>,
    a: Candidate,
    m: nat,
    b: Candidate,
    n: nat,
)
    requires
        flamegraph_path(dir, a, m) == flamegraph_path(dir, b, n),
    ensures
        a == b,
        m == n,
{
    reveal_strlit("lb-proxy-hyper");
    reveal_strlit("lb-proxy-pingora");
    reveal_strlit("lb-proxy-monoio");
    reveal_strlit("traefik-v3.7.12");
    let start = if dir.len() == 0 || dir.last() == '/' {
        dir
    } else {
        dir + "/"@
    };
    let x = a.shown() + "-c"@ + nat_text(m) + ".svg"@;
    let y = b.shown() + "-c"@ + nat_text(n) + ".svg"@;
    assert(flamegraph_path(dir, a, m) =~= start + x);
    assert(flamegraph_path(dir, b, n) =~= start + y);
    assert(x =~= (start + x).skip(start.len() as int));
    assert(y =~= (start + y).skip(start.len() as int));
    assert(x[0] == a.shown()[0] && y[0] == b.shown()[0]);
    assert(x[9] == a.shown()[9] && y[9] == b.shown()[9]);
    assert(a == b);
    let k = (a.shown() + "-c"@).len();
    let e = ".svg"@.len();
    assert(nat_text(m) =~= x.subrange(k as int, x.len() - e));
    assert(nat_text(n) =~= y.subrange(k as int, y.len() - e));
    lemma_nat_text_injective(m, n);
}

// ---------------------------------------------------------------------------
// PGO
// ---------------------------------------------------------------------------

/// PGO pipeline configuration.
#[derive(Debug)]
pub struct PgoConfig {
    /// Where `.profraw` files are written.
    pub profile_dir: String,
    /// Where the instrumented and optimised binaries are built.
    pub target_dir: String,
    /// Route config used for the profiling workload.
    pub route_config: String,
    /// How long to drive load during profile collection, in nanoseconds.
    pub collect_duration: u128,
    /// Concurrency levels used during collection.
    pub concurrencies: Vec<usize>,
    /// `target-cpu` for both passes.
    pub target_cpu: String,
}

impl Default for PgoConfig {
    fn default() -> (r: Self)
        ensures
            r.profile_dir@ == "target/pgo-profiles"@,
            r.target_dir@ == "target"@,
            r.route_config@ == "examples/pgo_routes.yaml"@,
            r.collect_duration == 10_000_000_000,
            r.concurrencies@ == seq![100usize, 500, 1_000],
            r.target_cpu@ == "native"@,
    {
        let r = Self {
            profile_dir: "target/pgo-profiles".to_owned(),
            target_dir: "target".to_owned(),
            route_config: "examples/pgo_routes.yaml".to_owned(),
            collect_duration: 10 * SECOND,
            concurrencies: vec![100, 500, 1_000],
            target_cpu: "native".to_owned(),
        };
        assert(r.concurrencies@ =~= seq![100usize, 500, 1_000]);
        r
    }
}

/// Whether a file is a raw profile, by its name: something must stand before the
/// extension.
pub open spec fn is_raw_profile(name: Seq<char>) -> bool {
    ends_with(name, ".profraw"@) && name.len() > ".profraw"@.len()
}

/// How many of a list of files are raw profiles.
pub open spec fn raw_profiles(names: Seq<Seq<char>>) -> nat
    decreases names.len(),
{
    if names.len() == 0 {
        0
    } else if is_raw_profile(names.last()) {
        raw_profiles(names.drop_last()) + 1
    } else {
        raw_profiles(names.drop_last())
    }
}

/// [`raw_profiles`], computed.
#[must_use]
pub fn count_raw_profiles(names: &Vec<String>) -> (r: usize)
    ensures
        r == raw_profiles(texts(names@)),
{
    let ghost all = texts(names@);
    let mut n: usize = 0;
    let mut i: usize = 0;
    assert(all.take(0) =~= Seq::empty());
    while i < names.len()
        invariant
            n <= i <= names@.len(),
            all == texts(names@),
            n == raw_profiles(all.take(i as int)),
        decreases names@.len() - i,
    {
        assert(all.take(i + 1).drop_last() =~= all.take(i as int));
        assert(all.take(i + 1).last() == names@[i as int]@);
        if let Some(stem) = strip_suffix(names[i].as_str(), ".profraw") {
            if stem.as_str().unicode_len() > 0 {
                n = n + 1;
            }
        }
        i = i + 1;
    }
    assert(all.take(i as int) =~= all);
    n
}

/// The load that profile collection drives at the first `n` concurrency levels: two
/// payload sizes each, so that both the small-response and the streaming paths
/// appear in the profile.
pub open spec fn collection_up_to(concurrencies: Seq<usize>, n: int) -> Seq<(usize, usize)>
    decreases n,
{
    if n <= 0 {
        Seq::empty()
    } else {
        collection_up_to(concurrencies, n - 1) + seq![
            (concurrencies[n - 1], 1024usize),
            (concurrencies[n - 1], 65_536usize),
        ]
    }
}

/// Drives the three-pass PGO build.
pub struct PgoPipeline {
    pub config: PgoConfig,
}

impl PgoPipeline {
    /// A pipeline with this configuration.
    #[must_use]
    pub fn new(config: PgoConfig) -> (r: Self)
        ensures
            r.config == config,
    {
        Self { config }
    }

    /// The binary to build; a candidate that this project does not build is refused.
    pub fn binary(candidate: Candidate) -> (r: Result<&'static str, String>)
        ensures
            r is Err <==> candidate == Candidate::Traefik,
            r matches Ok(name) ==> name@ == candidate.shown(),
            r matches Err(m) ==> m@ == candidate.shown() + " cannot be PGO built"@,
    {
        match candidate.binary_name() {
            Some(name) => Ok(name),
            None => Err(joined(candidate.display_name(), " cannot be PGO built")),
        }
    }

    /// The arguments of a build.
    #[must_use]
    pub fn build_args(binary: &str) -> (r: Vec<String>)
        ensures
            texts(r@) == seq!["build"@, "--release"@, "--bin"@, binary@],
    {
        let mut r: Vec<String> = Vec::new();
        r.push("build".to_owned());
        r.push("--release".to_owned());
        r.push("--bin".to_owned());
        r.push(binary.to_owned());
        assert(texts(r@) =~= seq!["build"@, "--release"@, "--bin"@, binary@]);
        r
    }

    /// The compiler flags of the instrumented build, with the profile directory as an
    /// absolute path.
    #[must_use]
    pub fn instrumented_flags(&self, profile_dir: &str) -> (r: String)
        ensures
            r@ == "-C target-cpu="@ + self.config.target_cpu@ + " -C profile-generate="@
                + profile_dir@,
    {
        let start = around(
            "-C target-cpu=",
            self.config.target_cpu.as_str(),
            " -C profile-generate=",
        );
        joined(start.as_str(), profile_dir)
    }

    /// The compiler flags of the optimised build, with the merged profile as an
    /// absolute path.
    #[must_use]
    pub fn optimized_flags(&self, profdata: &str) -> (r: String)
        ensures
            r@ == "-C target-cpu="@ + self.config.target_cpu@ + " -C profile-use="@ + profdata@
                + " -C llvm-args=-pgo-warn-missing-function"@,
    {
        let start = around("-C target-cpu=", self.config.target_cpu.as_str(), " -C profile-use=");
        around(start.as_str(), profdata, " -C llvm-args=-pgo-warn-missing-function")
    }

    /// Where the release build puts its binaries.
    #[must_use]
    pub fn release_dir(&self) -> (r: String)
        ensures
            r@ == path_join(self.config.target_dir@, "release"@),
    {
        join_path(self.config.target_dir.as_str(), "release")
    }

    /// Where the merged profile goes.
    #[must_use]
    pub fn merged_path(&self) -> (r: String)
        ensures
            r@ == path_join(self.config.profile_dir@, "merged.profdata"@),
    {
        join_path(self.config.profile_dir.as_str(), "merged.profdata")
    }

    /// The load that profile collection drives, in order: concurrency and body size.
    #[must_use]
    pub fn collection(&self) -> (r: Vec<(usize, usize)>)
        ensures
            r@ == collection_up_to(
                self.config.concurrencies@,
                self.config.concurrencies@.len() as int,
            ),
    {
        let mut out: Vec<(usize, usize)> = Vec::new();
        let mut i: usize = 0;
        let ghost all = self.config.concurrencies@;
        while i < self.config.concurrencies.len()
            invariant
                i <= all.len(),
                all == self.config.concurrencies@,
                out@ == collection_up_to(all, i as int),
            decreases all.len() - i,
        {
            let ghost before = out@;
            let c: usize = self.config.concurrencies[i];
            out.push((c, 1024));
            out.push((c, 65_536));
            i = i + 1;
            assert(out@ =~= before + seq![(c, 1024usize), (c, 65_536usize)]);
        }
        out
    }

    /// How profile collection drives one step of the load.
    #[must_use]
    pub fn collection_load(&self, url: &str, concurrency: usize) -> (r: LoadConfig)
        ensures
            r.target_url@ == url@,
            r.concurrency == (if concurrency == 0 {
                1
            } else {
                concurrency
            }),
            r.duration == self.config.collect_duration,
            r.target_rps is None,
            r.method@ == "GET"@,
            r.host_header@ == "localhost"@,
    {
        LoadConfig::new(url, concurrency, self.config.collect_duration)
    }

    /// Refuse to proceed on an empty profile.
    pub fn check_driven(driven: u64) -> (r: Result<u64, String>)
        ensures
            r is Err <==> driven == 0,
            r matches Ok(n) ==> n == driven,
            r matches Err(m) ==> m@
                == "profile collection drove 0 requests at the instrumented binary; the resulting PGO build would be no better than a plain release build"@,
    {
        if driven == 0 {
            Err(
                "profile collection drove 0 requests at the instrumented binary; the resulting PGO build would be no better than a plain release build".to_owned(),
            )
        } else {
            Ok(driven)
        }
    }

    /// Refuse to merge where no profile was written.
    pub fn check_profiles(&self, raw_count: usize) -> (r: Result<usize, String>)
        ensures
            r is Err <==> raw_count == 0,
            r matches Ok(n) ==> n == raw_count,
            r matches Err(m) ==> m@ == "no .profraw files in "@ + self.config.profile_dir@
                + "; pass 2 did not exercise the instrumented binary"@,
    {
        if raw_count == 0 {
            Err(
                around(
                    "no .profraw files in ",
                    self.config.profile_dir.as_str(),
                    "; pass 2 did not exercise the instrumented binary",
                ),
            )
        } else {
            Ok(raw_count)
        }
    }
}

} // verus!
