//! Declarative route configuration for standalone mode.

use vstd::prelude::*;

use crate::lb_core::filter::{
    rewrite_of, rules_of, Filters, HeaderModifier, RouteFilters, UrlRewrite,
};
use crate::lb_core::route_table::{
    all_entries, capped, optional_text, table_for, PathMatch, RouteDef, RouteSpec, RouteTable,
    RouteTableBuilder,
};
use crate::lb_core::target::{endpoints_of, BackendEndpoint, Endpoint};

verus! {

/// Top-level route config file.
#[derive(Debug)]
pub struct RouteConfig {
    pub routes: Vec<RouteEntry>,
}

/// One route of the file.
#[derive(Debug)]
pub struct RouteEntry {
    pub name: String,
    pub hostname: Option<String>,
    pub path: String,
    pub path_type: PathType,
    pub backends: Vec<BackendEntry>,
    pub request_headers: Vec<HeaderModifier>,
    pub response_headers: Vec<HeaderModifier>,
    pub rewrite: Option<UrlRewrite>,
}

/// How the path of a route is matched.
#[derive(Debug, Clone, Copy, PartialEq, Eq, Structural)]
pub enum PathType {
    PathPrefix,
    Exact,
}

impl Default for PathType {
    fn default() -> (r: Self)
        ensures
            r == PathType::PathPrefix,
    {
        PathType::PathPrefix
    }
}

/// What a path type stands for.
pub open spec fn path_match_of(t: PathType) -> PathMatch {
    match t {
        PathType::PathPrefix => PathMatch::Prefix,
        PathType::Exact => PathMatch::Exact,
    }
}

impl From<PathType> for PathMatch {
    fn from(t: PathType) -> (r: Self) {
        match t {
            PathType::PathPrefix => PathMatch::Prefix,
            PathType::Exact => PathMatch::Exact,
        }
    }
}

impl vstd::std_specs::convert::FromSpecImpl<PathType> for PathMatch {
    open spec fn obeys_from_spec() -> bool {
        true
    }

    open spec fn from_spec(t: PathType) -> Self {
        path_match_of(t)
    }
}

/// One backend of a route.
#[derive(Debug)]
pub struct BackendEntry {
    pub address: String,
    pub weight: u32,
}

/// The path of a route that names none.
#[must_use]
pub fn default_path() -> (r: String)
    ensures
        r@ == "/"@,
{
    "/".to_owned()
}

/// The weight of a backend that names none.
#[must_use]
pub fn default_weight() -> (r: u32)
    ensures
        r == 1,
{
    1
}

/// The endpoints that backends stand for.
pub open spec fn backend_endpoints(backends: Seq<BackendEntry>) -> Seq<Endpoint> {
    Seq::new(
        backends.len(),
        |i: int| Endpoint { address: backends[i].address@, weight: backends[i].weight },
    )
}

/// The route that an entry of the file defines.
pub open spec fn entry_def(entry: RouteEntry) -> RouteDef {
    RouteDef {
        hostname: optional_text(entry.hostname),
        path: entry.path@,
        kind: path_match_of(entry.path_type),
        endpoints: backend_endpoints(entry.backends@),
        filters: Filters {
            request: rules_of(entry.request_headers@),
            response: rules_of(entry.response_headers@),
            rewrite: rewrite_of(entry.rewrite),
        },
        name: entry.name@,
    }
}

/// The routes that the file defines.
pub open spec fn config_defs(config: RouteConfig) -> Seq<RouteDef> {
    Seq::new(config.routes@.len(), |i: int| entry_def(config.routes@[i]))
}

impl Default for RouteConfig {
    fn default() -> (r: Self)
        ensures
            config_defs(r) == Seq::<RouteDef>::empty(),
    {
        let r = Self { routes: Vec::new() };
        assert(config_defs(r) =~= Seq::<RouteDef>::empty());
        r
    }
}

impl RouteConfig {
    /// Compile into a [`RouteTable`].
    #[must_use]
    pub fn compile(&self) -> (r: RouteTable)
        ensures
            r@ == table_for(config_defs(*self)),
    {
        let mut builder = RouteTableBuilder::new();
        let ghost defs = config_defs(*self);
        let mut i: usize = 0;
        while i < self.routes.len()
            invariant
                i <= self.routes@.len(),
                defs == config_defs(*self),
                builder.entries() == all_entries(defs.take(i as int)),
                builder.count() == capped(i as nat),
            decreases self.routes@.len() - i,
        {
            let entry = &self.routes[i];
            let mut endpoints: Vec<BackendEndpoint> = Vec::new();
            let mut k: usize = 0;
            while k < entry.backends.len()
                invariant
                    k <= entry.backends@.len(),
                    endpoints@.len() == k,
                    forall|j: int|
                        0 <= j < k ==> (#[trigger] endpoints@[j])@ == backend_endpoints(
                            entry.backends@,
                        )[j],
                decreases entry.backends@.len() - k,
            {
                let backend = &entry.backends[k];
                endpoints.push(BackendEndpoint::new(backend.address.clone(), backend.weight));
                k = k + 1;
            }
            assert(endpoints_of(endpoints@) =~= backend_endpoints(entry.backends@));
            let filters = RouteFilters::new(
                entry.request_headers.as_slice(),
                entry.response_headers.as_slice(),
                entry.rewrite.clone(),
            );
            assert(defs.take(i + 1).drop_last() =~= defs.take(i as int));
            builder.add(
                RouteSpec {
                    hostname: entry.hostname.clone(),
                    path: entry.path.clone(),
                    path_match: PathMatch::from(entry.path_type),
                    endpoints,
                    filters,
                    route_name: entry.name.clone(),
                },
            );
            i = i + 1;
        }
        assert(defs.take(i as int) =~= defs);
        match builder.build() {
            Ok(table) => table,
            Err(_) => RouteTable::empty(),
        }
    }

    /// A single catch-all route to `upstream`, used when no config is supplied.
    #[must_use]
    pub fn single_upstream(upstream: &str) -> (r: Self)
        ensures
            config_defs(r) == seq![
                RouteDef {
                    hostname: None,
                    path: "/"@,
                    kind: PathMatch::Prefix,
                    endpoints: seq![Endpoint { address: upstream@, weight: 1 }],
                    filters: Filters {
                        request: Seq::empty(),
                        response: Seq::empty(),
                        rewrite: None,
                    },
                    name: "default-catchall"@,
                },
            ],
    {
        let mut backends: Vec<BackendEntry> = Vec::new();
        backends.push(BackendEntry { address: upstream.to_owned(), weight: 1 });
        assert(backend_endpoints(backends@) =~= seq![Endpoint { address: upstream@, weight: 1 }]);
        let entry = RouteEntry {
            name: "default-catchall".to_owned(),
            hostname: None,
            path: default_path(),
            path_type: PathType::PathPrefix,
            backends,
            request_headers: Vec::new(),
            response_headers: Vec::new(),
            rewrite: None,
        };
        let mut routes: Vec<RouteEntry> = Vec::new();
        routes.push(entry);
        let r = Self { routes };
        assert(config_defs(r) =~= seq![entry_def(entry)]);
        r
    }
}

} // verus!
