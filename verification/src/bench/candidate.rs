//! The proxies under test and how each of them is launched, as an OS process of
//! its own.

use vstd::prelude::*;
use vstd::string::*;

use crate::text::{
    around, begins_with, decimal, join_path, joined, lemma_plain_name, nat_text, path_join,
    plain_name, starts_with, texts, to_plain_name,
};

verus! {

/// How long to wait for a candidate to start accepting connections.
pub const STARTUP_TIMEOUT_MS: u64 = 30_000;

/// How long to wait for a graceful stop before killing.
pub const SHUTDOWN_GRACE_MS: u64 = 5_000;

/// How long to wait after the first failed attempt to connect.
pub const FIRST_READY_DELAY_MS: u64 = 10;

/// A proxy under test.
#[derive(Debug, Clone, Copy, PartialEq, Eq, Hash, Structural)]
pub enum Candidate {
    Hyper,
    Pingora,
    Monoio,
    /// Traefik, reachable at an address the harness does not manage.
    Traefik,
}

impl Candidate {
    /// Name used in reports.
    pub open spec fn shown(self) -> Seq<char> {
        match self {
            Candidate::Hyper => "lb-proxy-hyper"@,
            Candidate::Pingora => "lb-proxy-pingora"@,
            Candidate::Monoio => "lb-proxy-monoio"@,
            Candidate::Traefik => "traefik-v3.7.12"@,
        }
    }

    /// Default standalone listen port.
    pub open spec fn port_of(self) -> u16 {
        match self {
            Candidate::Hyper => 18080,
            Candidate::Pingora => 18081,
            Candidate::Monoio => 18082,
            Candidate::Traefik => 8000,
        }
    }

    /// The candidate that a CLI name stands for.
    pub open spec fn named(s: Seq<char>) -> Option<Self> {
        let n = plain_name(s);
        if n == "hyper"@ || n == "lb-proxy-hyper"@ {
            Some(Candidate::Hyper)
        } else if n == "pingora"@ || n == "lb-proxy-pingora"@ {
            Some(Candidate::Pingora)
        } else if n == "monoio"@ || n == "lb-proxy-monoio"@ {
            Some(Candidate::Monoio)
        } else if begins_with(n, "traefik"@) {
            Some(Candidate::Traefik)
        } else {
            None
        }
    }

    /// Cargo binary name, or `None` for externally managed candidates.
    #[must_use]
    pub fn binary_name(self) -> (r: Option<&'static str>)
        ensures
            r is None <==> self == Candidate::Traefik,
            r matches Some(name) ==> name@ == self.shown(),
    {
        match self {
            Candidate::Hyper => Some("lb-proxy-hyper"),
            Candidate::Pingora => Some("lb-proxy-pingora"),
            Candidate::Monoio => Some("lb-proxy-monoio"),
            Candidate::Traefik => None,
        }
    }

    /// Name used in reports.
    #[must_use]
    pub fn display_name(self) -> (r: &'static str)
        ensures
            r@ == self.shown(),
    {
        match self {
            Candidate::Hyper => "lb-proxy-hyper",
            Candidate::Pingora => "lb-proxy-pingora",
            Candidate::Monoio => "lb-proxy-monoio",
            Candidate::Traefik => "traefik-v3.7.12",
        }
    }

    /// Default standalone listen port, chosen so all four can run at once.
    #[must_use]
    pub fn default_port(self) -> (r: u16)
        ensures
            r == self.port_of(),
    {
        match self {
            Candidate::Hyper => 18080,
            Candidate::Pingora => 18081,
            Candidate::Monoio => 18082,
            Candidate::Traefik => 8000,
        }
    }

    /// Whether this candidate is a Go program needing the GC settle phase.
    #[must_use]
    pub fn is_go(self) -> (r: bool)
        ensures
            r == (self == Candidate::Traefik),
    {
        self == Candidate::Traefik
    }

    /// All candidates, in report order.
    #[must_use]
    pub fn all() -> (r: [Candidate; 4])
        ensures
            r@ == seq![
                Candidate::Hyper,
                Candidate::Pingora,
                Candidate::Monoio,
                Candidate::Traefik,
            ],
    {
        let r = [Candidate::Hyper, Candidate::Pingora, Candidate::Monoio, Candidate::Traefik];
        assert(r@ =~= seq![
            Candidate::Hyper,
            Candidate::Pingora,
            Candidate::Monoio,
            Candidate::Traefik,
        ]);
        r
    }

    /// The three the harness can launch locally.
    #[must_use]
    pub fn rust_candidates() -> (r: [Candidate; 3])
        ensures
            r@ == seq![Candidate::Hyper, Candidate::Pingora, Candidate::Monoio],
    {
        let r = [Candidate::Hyper, Candidate::Pingora, Candidate::Monoio];
        assert(r@ =~= seq![Candidate::Hyper, Candidate::Pingora, Candidate::Monoio]);
        r
    }

    /// Parse a CLI name. The versioned display name is accepted too, so that a
    /// candidate parsed back out of a report round-trips.
    #[must_use]
    pub fn parse(s: &str) -> (r: Option<Self>)
        ensures
            r == Self::named(s@),
    {
        let n = to_plain_name(s);
        let n = n.as_str();
        if n.eq("hyper") || n.eq("lb-proxy-hyper") {
            Some(Candidate::Hyper)
        } else if n.eq("pingora") || n.eq("lb-proxy-pingora") {
            Some(Candidate::Pingora)
        } else if n.eq("monoio") || n.eq("lb-proxy-monoio") {
            Some(Candidate::Monoio)
        } else if starts_with(n, "traefik") {
            Some(Candidate::Traefik)
        } else {
            None
        }
    }
}

/// The name that a report shows stands for its candidate.
pub proof fn lemma_candidate_names_round_trip(c: Candidate)
    ensures
        Candidate::named(c.shown()) == Some(c),
{
    reveal_strlit("hyper");
    reveal_strlit("lb-proxy-hyper");
    reveal_strlit("pingora");
    reveal_strlit("lb-proxy-pingora");
    reveal_strlit("monoio");
    reveal_strlit("lb-proxy-monoio");
    reveal_strlit("traefik-v3.7.12");
    reveal_strlit("traefik");
    lemma_plain_name(c.shown());
    assert("lb-proxy-pingora"@.len() == 16 && "lb-proxy-hyper"@.len() == 14
        && "lb-proxy-monoio"@.len() == 15 && "hyper"@.len() == 5 && "pingora"@.len() == 7
        && "monoio"@.len() == 6 && "traefik-v3.7.12"@.len() == 15);
    assert("lb-proxy-monoio"@[0] == 'l' && "traefik-v3.7.12"@[0] == 't');
    assert("traefik-v3.7.12"@.take(7) =~= "traefik"@);
}

/// No two candidates share a default port, so all of them can run at once.
pub proof fn lemma_default_ports_are_distinct(a: Candidate, b: Candidate)
    requires
        a != b,
    ensures
        a.port_of() != b.port_of(),
{
}

/// Where the build puts binaries: an override wins, then the profile's directory
/// below the target directory.
pub open spec fn binary_dir_of(
    override_dir: Option<Seq<char>>,
    target_dir: Option<Seq<char>>,
    debug: bool,
) -> Seq<char> {
    match override_dir {
        Some(dir) => dir,
        None => path_join(
            match target_dir {
                Some(dir) => dir,
                None => "target"@,
            },
            if debug {
                "debug"@
            } else {
                "release"@
            },
        ),
    }
}

/// The text of an optional string.
pub open spec fn given(s: Option<&str>) -> Option<Seq<char>> {
    match s {
        Some(t) => Some(t@),
        None => None,
    }
}

/// Where the build puts binaries, given what the environment overrides.
#[must_use]
pub fn default_binary_dir(
    override_dir: Option<&str>,
    target_dir: Option<&str>,
    debug: bool,
) -> (r: String)
    ensures
        r@ == binary_dir_of(given(override_dir), given(target_dir), debug),
{
    if let Some(dir) = override_dir {
        return dir.to_owned();
    }
    let target = match target_dir {
        Some(dir) => dir,
        None => "target",
    };
    let profile = if debug {
        "debug"
    } else {
        "release"
    };
    join_path(target, profile)
}

/// How to launch a candidate.
pub struct LaunchSpec {
    pub candidate: Candidate,
    pub listen_addr: String,
    pub listen_port: u16,
    pub upstream_addr: String,
    /// Worker threads. `None` lets the binary default to the CPU count.
    pub workers: Option<u64>,
    /// Directory holding the built binaries.
    pub binary_dir: String,
    /// Optional YAML route config.
    pub config_path: Option<String>,
    /// Extra environment, e.g. `RUST_LOG`.
    pub env: Vec<(String, String)>,
}

/// A process to start.
pub struct LaunchCommand {
    pub program: String,
    pub args: Vec<String>,
    pub env: Vec<(String, String)>,
    /// A file to write first: its path and what it holds.
    pub file: Option<(String, String)>,
}

/// A process to start, as texts.
pub ghost struct CommandText {
    pub program: Seq<char>,
    pub args: Seq<Seq<char>>,
    pub env: Seq<(Seq<char>, Seq<char>)>,
    pub file: Option<(Seq<char>, Seq<char>)>,
}

/// What pairs of strings hold.
pub open spec fn pair_texts(list: Seq<(String, String)>) -> Seq<(Seq<char>, Seq<char>)> {
    Seq::new(list.len(), |i: int| (list[i].0@, list[i].1@))
}

impl View for LaunchCommand {
    type V = CommandText;

    open spec fn view(&self) -> CommandText {
        CommandText {
            program: self.program@,
            args: texts(self.args@),
            env: pair_texts(self.env@),
            file: match self.file {
                Some(f) => Some((f.0@, f.1@)),
                None => None,
            },
        }
    }
}

/// The route file that sends everything Traefik is asked to `upstream`.
pub open spec fn traefik_routes(upstream: Seq<char>) -> Seq<char> {
    "http:\n  routers:\n    router:\n      rule: 'PathPrefix(`/`)'\n      service: 'upstream-svc'\n      entryPoints:\n        - 'web'\n  services:\n    upstream-svc:\n      loadBalancer:\n        servers:\n          - url: 'http://"@
        + upstream + "'\n"@
}

/// Where the route file of a Traefik that listens on `port` is put.
pub open spec fn traefik_file(temp_dir: Seq<char>, port: u16) -> Seq<char> {
    path_join(temp_dir, "traefik_"@ + nat_text(port as nat) + ".yaml"@)
}

/// The arguments that every proxy of this project takes.
pub open spec fn common_args(spec: LaunchSpec) -> Seq<Seq<char>> {
    seq![
        "--listen"@,
        spec.listen_addr@,
        "--default-upstream"@,
        spec.upstream_addr@,
        "--mode"@,
        "standalone"@,
    ]
}

/// The arguments that set the number of workers: each binary names the flag after
/// its own concurrency model.
pub open spec fn worker_args(candidate: Candidate, workers: Option<u64>) -> Seq<Seq<char>> {
    match workers {
        Some(n) => if candidate == Candidate::Hyper {
            seq!["--workers"@, nat_text(n as nat)]
        } else {
            seq!["--threads"@, nat_text(n as nat)]
        },
        None => Seq::empty(),
    }
}

/// The arguments that name a route config.
pub open spec fn config_args(config: Option<String>) -> Seq<Seq<char>> {
    match config {
        Some(path) => seq!["--config"@, path@],
        None => Seq::empty(),
    }
}

/// The environment of a candidate. It is quiet unless it was told otherwise: a
/// candidate that logs every request would itself be a measurable cost.
pub open spec fn launch_env(
    env: Seq<(Seq<char>, Seq<char>)>,
) -> Seq<(Seq<char>, Seq<char>)> {
    if exists|i: int| 0 <= i < env.len() && (#[trigger] env[i]).0 == "RUST_LOG"@ {
        env
    } else {
        env.push(("RUST_LOG"@, "warn"@))
    }
}

/// The process that a specification asks for.
pub open spec fn command_of(spec: LaunchSpec, temp_dir: Seq<char>) -> CommandText {
    if spec.candidate == Candidate::Traefik {
        CommandText {
            program: "traefik"@,
            args: seq![
                "--entrypoints.web.address=:"@ + nat_text(spec.listen_port as nat),
                "--providers.file.filename="@ + traefik_file(temp_dir, spec.listen_port),
                "--log.level=WARN"@,
                "--ping=false"@,
                "--accesslog=false"@,
            ],
            env: launch_env(pair_texts(spec.env@)),
            file: Some(
                (traefik_file(temp_dir, spec.listen_port), traefik_routes(spec.upstream_addr@)),
            ),
        }
    } else {
        CommandText {
            program: path_join(spec.binary_dir@, spec.candidate.shown()),
            args: common_args(spec) + worker_args(spec.candidate, spec.workers) + config_args(
                spec.config_path,
            ),
            env: launch_env(pair_texts(spec.env@)),
            file: None,
        }
    }
}

/// What is said of a binary that was not built.
pub open spec fn not_built(spec: LaunchSpec) -> Seq<char> {
    path_join(spec.binary_dir@, spec.candidate.shown())
        + " not found. Build it first: cargo build --release --bin "@ + spec.candidate.shown()
}

impl LaunchSpec {
    /// A candidate with default settings.
    #[must_use]
    pub fn new(
        candidate: Candidate,
        listen_addr: &str,
        listen_port: u16,
        upstream_addr: &str,
        binary_dir: &str,
    ) -> (r: Self)
        ensures
            r.candidate == candidate,
            r.listen_addr@ == listen_addr@,
            r.listen_port == listen_port,
            r.upstream_addr@ == upstream_addr@,
            r.workers is None,
            r.binary_dir@ == binary_dir@,
            r.config_path is None,
            r.env@.len() == 0,
    {
        Self {
            candidate,
            listen_addr: listen_addr.to_owned(),
            listen_port,
            upstream_addr: upstream_addr.to_owned(),
            workers: None,
            binary_dir: binary_dir.to_owned(),
            config_path: None,
            env: Vec::new(),
        }
    }

    /// The binary to launch; `None` where nothing has to be built for it.
    #[must_use]
    pub fn binary_path(&self) -> (r: Option<String>)
        ensures
            r is None <==> self.candidate == Candidate::Traefik,
            r matches Some(path) ==> path@ == path_join(self.binary_dir@, self.candidate.shown()),
    {
        match self.candidate.binary_name() {
            Some(name) => Some(join_path(self.binary_dir.as_str(), name)),
            None => None,
        }
    }

    fn environment(&self) -> (r: Vec<(String, String)>)
        ensures
            pair_texts(r@) == launch_env(pair_texts(self.env@)),
    {
        let mut env: Vec<(String, String)> = Vec::new();
        let mut told = false;
        let mut i: usize = 0;
        let ghost all = pair_texts(self.env@);
        assert(pair_texts(env@) =~= all.take(0));
        while i < self.env.len()
            invariant
                i <= self.env@.len(),
                all == pair_texts(self.env@),
                pair_texts(env@) == all.take(i as int),
                told <==> exists|k: int| 0 <= k < i && (#[trigger] all[k]).0 == "RUST_LOG"@,
            decreases self.env@.len() - i,
        {
            let name = &self.env[i].0;
            if name.as_str().eq("RUST_LOG") {
                told = true;
                assert(all[i as int].0 == "RUST_LOG"@);
            }
            let ghost before = env@;
            env.push((name.as_str().to_owned(), self.env[i].1.as_str().to_owned()));
            assert(pair_texts(env@) =~= pair_texts(before).push(all[i as int]));
            i = i + 1;
            assert(pair_texts(env@) =~= all.take(i as int));
        }
        assert(all.take(i as int) =~= all);
        if !told {
            env.push(("RUST_LOG".to_owned(), "warn".to_owned()));
            assert(pair_texts(env@) =~= all.push(("RUST_LOG"@, "warn"@)));
        }
        env
    }

    /// The process to start. `present` says whether the binary is there; Traefik is
    /// found by its name.
    pub fn command(&self, temp_dir: &str, present: bool) -> (r: Result<LaunchCommand, String>)
        ensures
            r is Err <==> self.candidate != Candidate::Traefik && !present,
            r matches Ok(c) ==> c@ == command_of(*self, temp_dir@),
            r matches Err(message) ==> message@ == not_built(*self),
    {
        let env = self.environment();
        let mut args: Vec<String> = Vec::new();
        let name = match self.candidate.binary_name() {
            Some(name) => name,
            None => {
                let port = decimal(self.listen_port as u64);
                let file_name = around("traefik_", port.as_str(), ".yaml");
                let path = join_path(temp_dir, file_name.as_str());
                let routes = around(
                    "http:\n  routers:\n    router:\n      rule: 'PathPrefix(`/`)'\n      service: 'upstream-svc'\n      entryPoints:\n        - 'web'\n  services:\n    upstream-svc:\n      loadBalancer:\n        servers:\n          - url: 'http://",
                    self.upstream_addr.as_str(),
                    "'\n",
                );
                args.push(joined("--entrypoints.web.address=:", port.as_str()));
                args.push(joined("--providers.file.filename=", path.as_str()));
                args.push("--log.level=WARN".to_owned());
                args.push("--ping=false".to_owned());
                args.push("--accesslog=false".to_owned());
                let r = LaunchCommand {
                    program: "traefik".to_owned(),
                    args,
                    env,
                    file: Some((path, routes)),
                };
                assert(r@.args =~= command_of(*self, temp_dir@).args);
                return Ok(r);
            },
        };
        let program = join_path(self.binary_dir.as_str(), name);
        if !present {
            return Err(
                joined(
                    joined(
                        program.as_str(),
                        " not found. Build it first: cargo build --release --bin ",
                    ).as_str(),
                    name,
                ),
            );
        }
        args.push("--listen".to_owned());
        args.push(self.listen_addr.as_str().to_owned());
        args.push("--default-upstream".to_owned());
        args.push(self.upstream_addr.as_str().to_owned());
        args.push("--mode".to_owned());
        args.push("standalone".to_owned());
        assert(texts(args@) =~= common_args(*self));
        if let Some(n) = self.workers {
            if self.candidate == Candidate::Hyper {
                args.push("--workers".to_owned());
            } else {
                args.push("--threads".to_owned());
            }
            args.push(decimal(n));
        }
        assert(texts(args@) =~= common_args(*self) + worker_args(self.candidate, self.workers));
        if let Some(path) = &self.config_path {
            args.push("--config".to_owned());
            args.push(path.as_str().to_owned());
        }
        assert(texts(args@) =~= common_args(*self) + worker_args(self.candidate, self.workers)
            + config_args(self.config_path));
        Ok(LaunchCommand { program, args, env, file: None })
    }
}

/// How long to wait before the next attempt to connect: twice as long, up to a
/// quarter of a second.
#[must_use]
pub fn next_ready_delay_ms(delay: u64) -> (r: u64)
    ensures
        r == (if 2 * delay < 250 {
            2 * delay
        } else {
            250
        }),
{
    if delay < 125 {
        2 * delay
    } else {
        250
    }
}

/// What is said of a candidate that never accepted a connection.
#[must_use]
pub fn not_ready_message(candidate: Candidate, listen_addr: &str) -> (r: String)
    ensures
        r@ == candidate.shown() + " did not accept connections on "@ + listen_addr@
            + " within 30s"@,
{
    let start = around(candidate.display_name(), " did not accept connections on ", listen_addr);
    joined(start.as_str(), " within 30s")
}

/// Base URL for the load generator.
#[must_use]
pub fn base_url(listen_addr: &str) -> (r: String)
    ensures
        r@ == "http://"@ + listen_addr@,
{
    joined("http://", listen_addr)
}

/// True when every Rust candidate binary is present among the files of a directory,
/// given by their names.
#[must_use]
pub fn binaries_present(files: &Vec<String>) -> (r: bool)
    ensures
        r == forall|c: Candidate|
            c != Candidate::Traefik ==> texts(files@).contains(#[trigger] c.shown()),
{
    let candidates = Candidate::rust_candidates();
    let mut i: usize = 0;
    while i < 3
        invariant
            i <= 3,
            candidates@ == seq![Candidate::Hyper, Candidate::Pingora, Candidate::Monoio],
            forall|k: int| 0 <= k < i ==> texts(files@).contains(#[trigger] candidates@[k].shown()),
        decreases 3 - i,
    {
        assert(candidates@[i as int] != Candidate::Traefik);
        if !listed(files, candidates[i].display_name()) {
            return false;
        }
        i = i + 1;
    }
    assert forall|c: Candidate| c != Candidate::Traefik implies texts(files@).contains(
        #[trigger] c.shown(),
    ) by {
        match c {
            Candidate::Hyper => assert(candidates@[0] == c),
            Candidate::Pingora => assert(candidates@[1] == c),
            Candidate::Monoio => assert(candidates@[2] == c),
            Candidate::Traefik => {},
        }
    }
    true
}

fn listed(files: &Vec<String>, name: &str) -> (r: bool)
    ensures
        r == texts(files@).contains(name@),
{
    let mut i: usize = 0;
    while i < files.len()
        invariant
            i <= files@.len(),
            forall|k: int| 0 <= k < i ==> (#[trigger] files@[k])@ != name@,
        decreases files@.len() - i,
    {
        if files[i].as_str().eq(name) {
            assert(texts(files@)[i as int] == name@);
            return true;
        }
        i = i + 1;
    }
    assert forall|k: int| 0 <= k < texts(files@).len() implies texts(files@)[k] != name@ by {
        assert(texts(files@)[k] == files@[k]@);
    }
    false
}

} // verus!
