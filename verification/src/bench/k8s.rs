//! The `kind` cluster, what is deployed to it, and the churn of its routes.

use vstd::prelude::*;
use vstd::string::*;

use crate::bench::candidate::Candidate;
use crate::lb_core::binary64::{lemma_ratio_bounds, ratio_in, ratio_parts};
use crate::text::{around, decimal, joined, lines, lines_of, nat_text, texts, trim, trimmed};

verus! {

/// The node image of the cluster.
pub const KIND_NODE_IMAGE: &'static str = "kindest/node:v1.31.6";

/// The version of the Gateway API that is installed.
pub const GATEWAY_API_VERSION: &'static str = "v1.2.1";

/// Where its resource definitions come from.
pub const GATEWAY_API_CRD_URL: &'static str =
    "https://github.com/kubernetes-sigs/gateway-api/releases/download/v1.2.1/standard-install.yaml";

/// Where its resource definitions are kept for offline runs.
pub const GATEWAY_API_CRD_FILE: &'static str = "k8s/gateway-api-crds.yaml";

/// The image of the baseline proxy.
pub const TRAEFIK_IMAGE: &'static str = "traefik:v3.7.12";

/// How long a rollout is waited for, in seconds.
pub const ROLLOUT_SECS: u64 = 180;

/// Manifest paths, relative to the repository root.
pub struct Manifests;

impl Manifests {
    pub const MOCK_BACKEND: &'static str = "k8s/mock-backend/mock-upstream-deployment.yaml";

    pub const TRAEFIK: &'static str = "k8s/traefik/deployment.yaml";

    pub const TRAEFIK_GATEWAY: &'static str = "k8s/traefik/gateway.yaml";

    pub const BENCHMARK_ROUTE: &'static str = "k8s/routes/benchmark-httproute.yaml";

    pub const CHURN_ROUTES: &'static str = "k8s/routes/churn-test-routes.yaml";

    /// Manifest for a candidate's Deployment, Service and Gateway.
    pub open spec fn manifest_of(candidate: Candidate) -> Seq<char> {
        match candidate {
            Candidate::Hyper => "k8s/rust-proxies/hyper-deployment.yaml"@,
            Candidate::Pingora => "k8s/rust-proxies/pingora-deployment.yaml"@,
            Candidate::Monoio => "k8s/rust-proxies/monoio-deployment.yaml"@,
            Candidate::Traefik => "k8s/traefik/deployment.yaml"@,
        }
    }

    /// Manifest for a candidate's Deployment, Service and Gateway. Every candidate
    /// has one.
    #[must_use]
    pub fn for_candidate(candidate: Candidate) -> (r: Option<&'static str>)
        ensures
            r matches Some(path) && path@ == Self::manifest_of(candidate),
    {
        match candidate {
            Candidate::Hyper => Some("k8s/rust-proxies/hyper-deployment.yaml"),
            Candidate::Pingora => Some("k8s/rust-proxies/pingora-deployment.yaml"),
            Candidate::Monoio => Some("k8s/rust-proxies/monoio-deployment.yaml"),
            Candidate::Traefik => Some("k8s/traefik/deployment.yaml"),
        }
    }
}

/// The node port a candidate is reachable on from the host.
pub open spec fn host_port_of(candidate: Candidate) -> u16 {
    match candidate {
        Candidate::Traefik => 8000,
        Candidate::Hyper => 8001,
        Candidate::Pingora => 8002,
        Candidate::Monoio => 8003,
    }
}

/// The Gateway object a candidate attaches to.
pub open spec fn gateway_of(candidate: Candidate) -> Seq<char> {
    match candidate {
        Candidate::Hyper => "lb-gateway-hyper"@,
        Candidate::Pingora => "lb-gateway-pingora"@,
        Candidate::Monoio => "lb-gateway-monoio"@,
        Candidate::Traefik => "traefik-gateway"@,
    }
}

/// The Gateway object a candidate attaches to. Each candidate owns a distinct one so
/// that all of them can be deployed at once.
#[must_use]
pub fn gateway_name(candidate: Candidate) -> (r: &'static str)
    ensures
        r@ == gateway_of(candidate),
{
    match candidate {
        Candidate::Hyper => "lb-gateway-hyper",
        Candidate::Pingora => "lb-gateway-pingora",
        Candidate::Monoio => "lb-gateway-monoio",
        Candidate::Traefik => "traefik-gateway",
    }
}

/// `(namespace, deployment-name)` for a candidate.
#[must_use]
pub fn deployment_ref(candidate: Candidate) -> (r: (&'static str, &'static str))
    ensures
        r.0@ == (if candidate == Candidate::Traefik {
            "traefik"@
        } else {
            "default"@
        }),
        r.1@ == (if candidate == Candidate::Traefik {
            "traefik"@
        } else {
            candidate.shown()
        }),
{
    match candidate {
        Candidate::Hyper => ("default", "lb-proxy-hyper"),
        Candidate::Pingora => ("default", "lb-proxy-pingora"),
        Candidate::Monoio => ("default", "lb-proxy-monoio"),
        Candidate::Traefik => ("traefik", "traefik"),
    }
}

/// No two candidates share a host port.
pub proof fn lemma_host_ports_are_distinct(a: Candidate, b: Candidate)
    requires
        a != b,
    ensures
        host_port_of(a) != host_port_of(b),
{
}

/// No two candidates share a Gateway: applying the manifests of all of them leaves
/// none detached.
pub proof fn lemma_gateways_are_distinct(a: Candidate, b: Candidate)
    requires
        a != b,
    ensures
        gateway_of(a) != gateway_of(b),
{
    reveal_strlit("lb-gateway-hyper");
    reveal_strlit("lb-gateway-pingora");
    reveal_strlit("lb-gateway-monoio");
    reveal_strlit("traefik-gateway");
    assert("lb-gateway-hyper"@.len() == 16 && "lb-gateway-pingora"@.len() == 18
        && "lb-gateway-monoio"@.len() == 17 && "traefik-gateway"@.len() == 15);
}

/// Cluster configuration.
#[derive(Debug)]
pub struct KindConfig {
    pub cluster_name: String,
    pub config_path: String,
}

impl Default for KindConfig {
    fn default() -> (r: Self)
        ensures
            r.cluster_name@ == "lb-bench"@,
            r.config_path@ == "k8s/kind-cluster-config.yaml"@,
    {
        Self {
            cluster_name: "lb-bench".to_owned(),
            config_path: "k8s/kind-cluster-config.yaml".to_owned(),
        }
    }
}

/// A `kind` cluster.
pub struct KindCluster {
    pub config: KindConfig,
}

/// Whether a listing of clusters names one.
pub open spec fn listed(listing: Seq<char>, name: Seq<char>) -> bool {
    exists|i: int|
        0 <= i < lines_of(listing).len() && trimmed(#[trigger] lines_of(listing)[i]) == name
}

impl KindCluster {
    /// A cluster with this configuration.
    #[must_use]
    pub fn new(config: KindConfig) -> (r: Self)
        ensures
            r.config == config,
    {
        Self { config }
    }

    /// Whether the listing of all clusters names this one.
    #[must_use]
    pub fn exists_in(&self, listing: &str) -> (r: bool)
        ensures
            r == listed(listing@, self.config.cluster_name@),
    {
        let all = lines(listing);
        let ghost list = lines_of(listing@);
        let mut i: usize = 0;
        while i < all.len()
            invariant
                i <= all@.len(),
                texts(all@) == list,
                list == lines_of(listing@),
                forall|k: int|
                    0 <= k < i ==> trimmed(#[trigger] list[k]) != self.config.cluster_name@,
            decreases all@.len() - i,
        {
            let line = trim(all[i].as_str());
            assert(list[i as int] == all@[i as int]@);
            if line.as_str().eq(self.config.cluster_name.as_str()) {
                return true;
            }
            i = i + 1;
        }
        false
    }

    /// The arguments that create the cluster.
    pub open spec fn creation_args(self) -> Seq<Seq<char>> {
        seq![
            "create"@,
            "cluster"@,
            "--name"@,
            self.config.cluster_name@,
            "--config"@,
            self.config.config_path@,
            "--wait"@,
            "120s"@,
        ]
    }

    /// The arguments that create the cluster.
    #[must_use]
    pub fn create_args(&self) -> (r: Vec<String>)
        ensures
            texts(r@) == self.creation_args(),
    {
        let mut r: Vec<String> = Vec::new();
        r.push("create".to_owned());
        r.push("cluster".to_owned());
        r.push("--name".to_owned());
        r.push(self.config.cluster_name.as_str().to_owned());
        r.push("--config".to_owned());
        r.push(self.config.config_path.as_str().to_owned());
        r.push("--wait".to_owned());
        r.push("120s".to_owned());
        assert(texts(r@) =~= self.creation_args());
        r
    }

    /// What to do to have the cluster, given the listing of all clusters and whether
    /// its configuration file is there: nothing, if it exists already, or run `kind`
    /// with these arguments.
    pub fn creation(&self, listing: &str, config_present: bool) -> (r: Result<
        Option<Vec<String>>,
        String,
    >)
        ensures
            listed(listing@, self.config.cluster_name@) ==> r matches Ok(None),
            !listed(listing@, self.config.cluster_name@) && config_present ==> (r matches Ok(
                Some(args),
            ) && texts(args@) == self.creation_args()),
            !listed(listing@, self.config.cluster_name@) && !config_present ==> (r matches Err(
                m,
            ) && m@ == "kind config not found at "@ + self.config.config_path@),
    {
        if self.exists_in(listing) {
            return Ok(None);
        }
        if !config_present {
            return Err(joined("kind config not found at ", self.config.config_path.as_str()));
        }
        Ok(Some(self.create_args()))
    }

    /// The arguments that load a locally built image into the cluster's nodes.
    #[must_use]
    pub fn load_image_args(&self, image: &str) -> (r: Vec<String>)
        ensures
            texts(r@) == seq![
                "load"@,
                "docker-image"@,
                image@,
                "--name"@,
                self.config.cluster_name@,
            ],
    {
        let mut r: Vec<String> = Vec::new();
        r.push("load".to_owned());
        r.push("docker-image".to_owned());
        r.push(image.to_owned());
        r.push("--name".to_owned());
        r.push(self.config.cluster_name.as_str().to_owned());
        assert(texts(r@) =~= seq![
            "load"@,
            "docker-image"@,
            image@,
            "--name"@,
            self.config.cluster_name@,
        ]);
        r
    }

    /// The arguments that delete the cluster.
    #[must_use]
    pub fn destroy_args(&self) -> (r: Vec<String>)
        ensures
            texts(r@) == seq!["delete"@, "cluster"@, "--name"@, self.config.cluster_name@],
    {
        let mut r: Vec<String> = Vec::new();
        r.push("delete".to_owned());
        r.push("cluster".to_owned());
        r.push("--name".to_owned());
        r.push(self.config.cluster_name.as_str().to_owned());
        assert(texts(r@) =~= seq!["delete"@, "cluster"@, "--name"@, self.config.cluster_name@]);
        r
    }

    /// The kubeconfig context name for this cluster.
    #[must_use]
    pub fn context(&self) -> (r: String)
        ensures
            r@ == "kind-"@ + self.config.cluster_name@,
    {
        joined("kind-", self.config.cluster_name.as_str())
    }
}

/// Where the resource definitions are taken from: the kept copy is preferred, so that
/// a run is reproducible offline.
#[must_use]
pub fn crd_source(kept: bool) -> (r: &'static str)
    ensures
        r@ == (if kept {
            GATEWAY_API_CRD_FILE@
        } else {
            GATEWAY_API_CRD_URL@
        }),
{
    if kept {
        GATEWAY_API_CRD_FILE
    } else {
        GATEWAY_API_CRD_URL
    }
}

/// What is said of a command that failed: what it was for, how it ended and what it
/// complained of.
#[must_use]
pub fn failure_message(what: &str, status: &str, complaint: &str) -> (r: String)
    ensures
        r@ == what@ + " failed ("@ + status@ + "): "@ + trimmed(complaint@),
{
    let start = around(what, " failed (", status);
    around(start.as_str(), "): ", trim(complaint).as_str())
}

/// Applies manifests and waits for rollouts.
pub struct Deployer<'a> {
    pub cluster: &'a KindCluster,
}

/// The arguments with which `kubectl` waits for a rollout.
pub open spec fn rollout_of(namespace: Seq<char>, deployment: Seq<char>, secs: nat) -> Seq<
    Seq<char>,
> {
    seq![
        "-n"@,
        namespace,
        "rollout"@,
        "status"@,
        "deployment/"@ + deployment,
        "--timeout="@ + nat_text(secs) + "s"@,
    ]
}

impl<'a> Deployer<'a> {
    /// A deployer to a cluster.
    #[must_use]
    pub fn new(cluster: &'a KindCluster) -> (r: Self)
        ensures
            *r.cluster == *cluster,
    {
        Self { cluster }
    }

    /// The manifests that deploy a candidate, in order, before and after its rollout.
    #[must_use]
    pub fn manifests(candidate: Candidate) -> (r: (Vec<&'static str>, Vec<&'static str>))
        ensures
            r.0@.len() == 1,
            r.0@[0]@ == Manifests::manifest_of(candidate),
            candidate == Candidate::Traefik ==> r.1@.len() == 2 && r.1@[0]@
                == "k8s/traefik/gateway.yaml"@ && r.1@[1]@
                == "k8s/routes/benchmark-httproute.yaml"@,
            candidate != Candidate::Traefik ==> r.1@.len() == 1 && r.1@[0]@
                == "k8s/routes/benchmark-httproute.yaml"@,
    {
        let mut first: Vec<&'static str> = Vec::new();
        if let Some(path) = Manifests::for_candidate(candidate) {
            first.push(path);
        }
        let mut then: Vec<&'static str> = Vec::new();
        if candidate == Candidate::Traefik {
            then.push("k8s/traefik/gateway.yaml");
        }
        then.push("k8s/routes/benchmark-httproute.yaml");
        (first, then)
    }

    /// The arguments with which `kubectl` waits for a Deployment to become available.
    #[must_use]
    pub fn rollout_args(namespace: &str, deployment: &str, secs: u64) -> (r: Vec<String>)
        ensures
            texts(r@) == rollout_of(namespace@, deployment@, secs as nat),
    {
        let mut r: Vec<String> = Vec::new();
        let time = joined("--timeout=", decimal(secs).as_str());
        r.push("-n".to_owned());
        r.push(namespace.to_owned());
        r.push("rollout".to_owned());
        r.push("status".to_owned());
        r.push(joined("deployment/", deployment));
        r.push(joined(time.as_str(), "s"));
        assert(texts(r@) =~= rollout_of(namespace@, deployment@, secs as nat));
        r
    }

    /// The node port a candidate is reachable on from the host.
    #[must_use]
    pub fn host_port(candidate: Candidate) -> (r: u16)
        ensures
            r == host_port_of(candidate),
    {
        match candidate {
            Candidate::Traefik => 8000,
            Candidate::Hyper => 8001,
            Candidate::Pingora => 8002,
            Candidate::Monoio => 8003,
        }
    }
}

// ---------------------------------------------------------------------------
// Churn
// ---------------------------------------------------------------------------

/// Churn configuration.
#[derive(Debug)]
pub struct ChurnConfig {
    pub namespace: String,
    pub route_name: String,
    /// Mutations per second.
    pub rate_hz: u32,
    /// Backend service names cycled through on each mutation.
    pub backends: Vec<String>,
    pub backend_port: i32,
}

impl Default for ChurnConfig {
    fn default() -> (r: Self)
        ensures
            r.namespace@ == "default"@,
            r.route_name@ == "benchmark-route"@,
            r.rate_hz == 50,
            texts(r.backends@) == seq!["mock-upstream"@, "mock-upstream-b"@],
            r.backend_port == 80,
    {
        let mut backends: Vec<String> = Vec::new();
        backends.push("mock-upstream".to_owned());
        backends.push("mock-upstream-b".to_owned());
        assert(texts(backends@) =~= seq!["mock-upstream"@, "mock-upstream-b"@]);
        Self {
            namespace: "default".to_owned(),
            route_name: "benchmark-route".to_owned(),
            rate_hz: 50,
            backends,
            backend_port: 80,
        }
    }
}

/// Counters describing what the injector actually did.
#[derive(Debug, Clone, Copy, PartialEq, Eq, Structural)]
pub struct ChurnStats {
    pub mutations_attempted: u64,
    pub mutations_succeeded: u64,
    pub mutations_failed: u64,
}

impl ChurnStats {
    /// A plain snapshot for reporting.
    #[must_use]
    pub fn snapshot(&self) -> (r: (u64, u64, u64))
        ensures
            r == (self.mutations_attempted, self.mutations_succeeded, self.mutations_failed),
    {
        (self.mutations_attempted, self.mutations_succeeded, self.mutations_failed)
    }
}

/// One mutation of the route: its number and the backend that it switches to.
#[derive(Debug)]
pub struct Mutation {
    pub generation: u64,
    pub backend: String,
}

/// Mutates an HTTPRoute at a fixed rate until stopped.
pub struct ChurnInjector {
    config: ChurnConfig,
    running: bool,
    waiting: bool,
    stats: ChurnStats,
}

impl ChurnInjector {
    /// Every mutation attempted has succeeded, failed or is under way.
    pub closed spec fn wf(self) -> bool {
        self.stats.mutations_attempted == self.stats.mutations_succeeded
            + self.stats.mutations_failed + (if self.waiting {
            1int
        } else {
            0
        })
    }

    /// What the injector was told.
    pub closed spec fn settings(self) -> ChurnConfig {
        self.config
    }

    /// Whether the injector was not stopped.
    pub closed spec fn going(self) -> bool {
        self.running
    }

    /// Whether a mutation is under way.
    pub closed spec fn pending(self) -> bool {
        self.waiting
    }

    /// What the injector did.
    pub closed spec fn counts(self) -> ChurnStats {
        self.stats
    }

    /// An injector that has done nothing yet.
    #[must_use]
    pub fn new(config: ChurnConfig) -> (r: Self)
        ensures
            r.wf(),
            r.settings() == config,
            r.going(),
            !r.pending(),
            r.counts() == (ChurnStats {
                mutations_attempted: 0,
                mutations_succeeded: 0,
                mutations_failed: 0,
            }),
    {
        Self {
            config,
            running: true,
            waiting: false,
            stats: ChurnStats {
                mutations_attempted: 0,
                mutations_succeeded: 0,
                mutations_failed: 0,
            },
        }
    }

    /// What the injector did so far.
    #[must_use]
    pub fn stats(&self) -> (r: ChurnStats)
        ensures
            r == self.counts(),
    {
        self.stats
    }

    /// What the injector was told.
    #[must_use]
    pub fn config(&self) -> (r: &ChurnConfig)
        ensures
            *r == self.settings(),
    {
        &self.config
    }

    /// Whether there is something to do: a rate of nought leaves the injector idle.
    #[must_use]
    pub fn is_running(&self) -> (r: bool)
        ensures
            r == (self.going() && self.settings().rate_hz > 0),
    {
        self.running && self.config.rate_hz > 0
    }

    /// Stop: no mutation begins any more.
    pub fn stop(&mut self)
        ensures
            old(self).wf() ==> final(self).wf(),
            !final(self).going(),
            final(self).pending() == old(self).pending(),
            final(self).counts() == old(self).counts(),
            final(self).settings() == old(self).settings(),
    {
        self.running = false;
    }

    /// The next mutation, if the injector is running: backends take turns.
    pub fn next_mutation(&mut self) -> (r: Option<Mutation>)
        requires
            old(self).wf(),
            !old(self).pending(),
            old(self).settings().backends@.len() > 0,
            old(self).counts().mutations_attempted < u64::MAX,
        ensures
            final(self).wf(),
            final(self).settings() == old(self).settings(),
            final(self).going() == old(self).going(),
            r is Some <==> old(self).going() && old(self).settings().rate_hz > 0,
            r is None ==> *final(self) == *old(self),
            r matches Some(m) ==> {
                &&& final(self).pending()
                &&& m.generation == old(self).counts().mutations_attempted + 1
                &&& m.backend@ == old(self).settings().backends@[m.generation as int % (old(
                    self,
                ).settings().backends@.len() as int)]@
                &&& final(self).counts() == (ChurnStats {
                    mutations_attempted: m.generation,
                    ..old(self).counts()
                })
            },
    {
        if !self.is_running() {
            return None;
        }
        let generation: u64 = self.stats.mutations_attempted + 1;
        let count: u64 = self.config.backends.len() as u64;
        let turn: usize = (generation % count) as usize;
        let backend = self.config.backends[turn].as_str().to_owned();
        self.stats.mutations_attempted = generation;
        self.waiting = true;
        Some(Mutation { generation, backend })
    }

    /// Take in how the mutation under way ended.
    pub fn on_outcome(&mut self, succeeded: bool)
        requires
            old(self).wf(),
            old(self).pending(),
        ensures
            final(self).wf(),
            !final(self).pending(),
            final(self).settings() == old(self).settings(),
            final(self).going() == old(self).going(),
            final(self).counts() == (if succeeded {
                (ChurnStats {
                    mutations_succeeded: (old(self).counts().mutations_succeeded + 1) as u64,
                    ..old(self).counts()
                })
            } else {
                (ChurnStats {
                    mutations_failed: (old(self).counts().mutations_failed + 1) as u64,
                    ..old(self).counts()
                })
            }),
    {
        self.waiting = false;
        if succeeded {
            self.stats.mutations_succeeded = self.stats.mutations_succeeded + 1;
        } else {
            self.stats.mutations_failed = self.stats.mutations_failed + 1;
        }
    }

    /// The time between two mutations in nanoseconds: the reciprocal of the rate as a
    /// double, to the nearest nanosecond.
    #[must_use]
    pub fn interval_nanos(&self) -> (r: u64)
        requires
            self.settings().rate_hz > 0,
        ensures
            r == ratio_in(1, self.settings().rate_hz as int, 1_000_000_000),
    {
        proof {
            lemma_interval_fits(self.config.rate_hz as int);
        }
        ratio_parts(1, self.config.rate_hz as u64, 1_000_000_000) as u64
    }
}

proof fn lemma_interval_fits(hz: int)
    requires
        0 < hz <= u32::MAX,
    ensures
        0 <= ratio_in(1, hz, 1_000_000_000) <= u64::MAX,
{
    lemma_ratio_bounds(1, hz, 1_000_000_000);
    let r = ratio_in(1, hz, 1_000_000_000);
    assert(r <= r * hz) by (nonlinear_arith)
        requires
            0 <= r,
            0 < hz,
    ;
}

/// The injector's books always balance: what it attempted has succeeded, failed or
/// is under way.
pub proof fn lemma_churn_is_accounted_for(injector: ChurnInjector)
    requires
        injector.wf(),
    ensures
        injector.counts().mutations_succeeded + injector.counts().mutations_failed + (
        if injector.pending() {
            1int
        } else {
            0
        }) == injector.counts().mutations_attempted,
{
}

/// Backends take turns: with two or more of them, two mutations in a row go to
/// different places in the list.
pub proof fn lemma_backends_take_turns(generation: int, backends: int)
    requires
        0 <= generation,
        2 <= backends,
    ensures
        generation % backends != (generation + 1) % backends,
{
    if generation % backends == (generation + 1) % backends {
        let r = generation % backends;
        let q1 = generation / backends;
        let q2 = (generation + 1) / backends;
        assert(generation == backends * q1 + r) by (nonlinear_arith)
            requires
                r == generation % backends,
                q1 == generation / backends,
                backends > 0,
        ;
        assert(generation + 1 == backends * q2 + r) by (nonlinear_arith)
            requires
                r == (generation + 1) % backends,
                q2 == (generation + 1) / backends,
                backends > 0,
        ;
        assert(false) by (nonlinear_arith)
            requires
                backends * q2 - backends * q1 == 1,
                backends >= 2,
        ;
    }
}

} // verus!
