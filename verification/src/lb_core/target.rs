//! Upstream endpoints and load-balancing policy.
//!
//! A [`TargetGroup`] is `Arc`-backed so that the several patterns one logical
//! route expands into all share a single round-robin cursor, and so that cloning
//! a group into a new route table is a refcount bump rather than a
//! re-allocation.

use std::sync::atomic::{AtomicUsize, Ordering};
use std::sync::Arc;

use crossbeam_utils::CachePadded;
use vstd::prelude::*;

use crate::shared::share;
use crate::lb_core::rotation::{
    all_positive, lay_out, lemma_cycle_honours_shares, lemma_shares_positive, lemma_turn_in_range,
    shares, sum, table_entry, turn, turns_taken, weight_table, MAX_WEIGHT_TABLE,
};

verus! {

/// Whether a text is a URI authority, as `http::uri::Authority` decides it.
pub uninterp spec fn authority_is_valid(text: Seq<char>) -> bool;

/// `Authority::try_from(&str)` parses a text as a URI authority. It succeeds on
/// the texts that [`authority_is_valid`] names, and what it accepts it keeps as
/// it stands.
#[verifier::external_body]
fn parses_as_authority(text: &str) -> (r: bool)
    ensures
        r == authority_is_valid(text@),
{
    http::uri::Authority::try_from(text).is_ok()
}

/// `crossbeam_utils::CachePadded`, taken as it is.
#[verifier::external_type_specification]
#[verifier::external_body]
#[verifier::reject_recursive_types(T)]
pub struct ExCachePadded<T>(CachePadded<T>);

/// `CachePadded::new` around `AtomicUsize::new(0)`: a cursor on a cache line of
/// its own. What a cursor holds changes under every other thread that draws
/// from it, so nothing is said of it.
#[verifier::external_body]
fn new_cursor() -> (r: CachePadded<AtomicUsize>) {
    CachePadded::new(AtomicUsize::new(0))
}

/// Whether a ticket was drawn from a cursor, at some moment of its life.
pub uninterp spec fn was_drawn(cursor: CachePadded<AtomicUsize>, ticket: usize) -> bool;

/// `AtomicUsize::fetch_add` of one on the cursor: the ticket is what the cursor stood
/// at, and the cursor moves on. Which ticket that is depends on what other threads
/// have drawn. Relaxed ordering is right because the cursor carries no happens-before
/// relationship: only fairness of distribution matters.
#[verifier::external_body]
fn draw_ticket(cursor: &CachePadded<AtomicUsize>) -> (ticket: usize)
    ensures
        was_drawn(*cursor, ticket),
{
    cursor.fetch_add(1, Ordering::Relaxed)
}

/// `std::slice::from_ref` views one value as a slice of length one.
pub assume_specification<T>[ core::slice::from_ref ](one: &T) -> (r: &[T])
    ensures
        r@ == seq![*one],
;

/// What an endpoint is: its address and its weight.
pub struct Endpoint {
    pub address: Seq<char>,
    pub weight: u32,
}

/// A single upstream destination backend.
///
/// Remembers whether the address is a valid authority, so that building an
/// upstream URI per request does not parse it again.
#[derive(Debug, Hash)]
pub struct BackendEndpoint {
    /// `host:port` of the target.
    address: String,
    /// Weight for weighted round-robin (Gateway API `backendRefs[].weight`).
    weight: u32,
    /// Whether `address` parses as an authority.
    parses: bool,
}

impl View for BackendEndpoint {
    type V = Endpoint;

    closed spec fn view(&self) -> Endpoint {
        Endpoint { address: self.address@, weight: self.weight }
    }
}

impl BackendEndpoint {
    #[verifier::type_invariant]
    spec fn well_formed(&self) -> bool {
        self.parses == authority_is_valid(self.address@)
    }

    /// An endpoint at `address` with the given weight.
    #[must_use]
    pub fn new(address: String, weight: u32) -> (r: Self)
        ensures
            r@ == (Endpoint { address: address@, weight }),
    {
        let parses = parses_as_authority(address.as_str());
        Self { address, weight, parses }
    }

    /// `host:port` of the target.
    #[must_use]
    pub fn address(&self) -> (r: &str)
        ensures
            r@ == self@.address,
    {
        self.address.as_str()
    }

    /// Weight for weighted round-robin.
    #[must_use]
    pub fn weight(&self) -> (r: u32)
        ensures
            r == self@.weight,
    {
        self.weight
    }

    /// The address as a URI authority, or `None` if it is not a valid one.
    ///
    /// Parsed once per endpoint, then shared by every request routed to it.
    #[must_use]
    pub fn authority(&self) -> (r: Option<&str>)
        ensures
            r is Some <==> authority_is_valid(self@.address),
            r matches Some(text) ==> text@ == self@.address,
    {
        proof {
            use_type_invariant(self);
        }
        if self.parses {
            Some(self.address.as_str())
        } else {
            None
        }
    }
}

impl Clone for BackendEndpoint {
    fn clone(&self) -> (r: Self)
        ensures
            r@ == self@,
    {
        proof {
            use_type_invariant(self);
        }
        Self { address: self.address.clone(), weight: self.weight, parses: self.parses }
    }
}

// Whether the address parses follows from it, so identity is `address` and
// `weight` only.
impl PartialEq for BackendEndpoint {
    fn eq(&self, other: &Self) -> (r: bool) {
        self.address == other.address && self.weight == other.weight
    }
}

impl vstd::std_specs::cmp::PartialEqSpecImpl for BackendEndpoint {
    open spec fn obeys_eq_spec() -> bool {
        true
    }

    open spec fn eq_spec(&self, other: &Self) -> bool {
        self@.address == other@.address && self@.weight == other@.weight
    }
}

impl Eq for BackendEndpoint {

}

/// What the endpoints of a list are.
pub open spec fn endpoints_of(list: Seq<BackendEndpoint>) -> Seq<Endpoint> {
    Seq::new(list.len(), |i: int| list[i]@)
}

/// The endpoints that may receive traffic. Gateway API: weight 0 means none.
pub open spec fn live(eps: Seq<Endpoint>) -> Seq<Endpoint>
    decreases eps.len(),
{
    if eps.len() == 0 {
        Seq::empty()
    } else if eps.last().weight > 0 {
        live(eps.drop_last()).push(eps.last())
    } else {
        live(eps.drop_last())
    }
}

/// Where a group without any live endpoint points.
pub open spec fn placeholder() -> Endpoint {
    Endpoint { address: "127.0.0.1:80"@, weight: 1 }
}

/// The members of the group made from `eps`.
pub open spec fn members_of(eps: Seq<Endpoint>) -> Seq<Endpoint> {
    if live(eps).len() == 0 {
        seq![placeholder()]
    } else {
        live(eps)
    }
}

/// The weights of a list of endpoints.
pub open spec fn weights_of(eps: Seq<Endpoint>) -> Seq<int> {
    Seq::new(eps.len(), |i: int| eps[i].weight as int)
}

/// Whether all weights are the same.
pub open spec fn uniform(ws: Seq<int>) -> bool {
    forall|i: int, j: int| 0 <= i < ws.len() && 0 <= j < ws.len() ==> ws[i] == ws[j]
}

/// The cycle in which members of the given weights take their turns, by
/// position: in order when the weights are equal, and otherwise by smooth
/// weighted round robin.
pub open spec fn cycle_of(ws: Seq<int>) -> Seq<int> {
    if uniform(ws) {
        Seq::new(ws.len(), |i: int| i)
    } else {
        Seq::new(weight_table(ws).len(), |t: int| weight_table(ws)[t] as int)
    }
}

#[derive(Debug)]
enum Policy {
    /// Single destination: no atomics, no indexing.
    Single(BackendEndpoint),
    /// Equal-weight round robin over a cache-padded cursor.
    RoundRobin { endpoints: Vec<BackendEndpoint>, cursor: CachePadded<AtomicUsize> },
    /// Weighted round robin served from a pre-expanded index table.
    Weighted {
        endpoints: Vec<BackendEndpoint>,
        /// `table[i]` is an index into `endpoints`, repeated by weight.
        table: Vec<u16>,
        cursor: CachePadded<AtomicUsize>,
    },
}

/// Load-balancing policy over a group of upstream endpoints.
#[derive(Debug)]
pub struct TargetGroup {
    inner: Arc<Policy>,
}

impl Clone for TargetGroup {
    /// Another handle to the same group; the handles share one cursor.
    fn clone(&self) -> (r: Self)
        ensures
            r == *self,
    {
        proof {
            use_type_invariant(self);
        }
        Self { inner: share(&self.inner) }
    }
}

impl TargetGroup {
    /// The endpoints of the group, in configuration order.
    pub closed spec fn members(&self) -> Seq<Endpoint> {
        match *self.inner {
            Policy::Single(ep) => seq![ep@],
            Policy::RoundRobin { endpoints, .. } => endpoints_of(endpoints@),
            Policy::Weighted { endpoints, .. } => endpoints_of(endpoints@),
        }
    }

    /// The order in which the members take their turns, over and over.
    pub closed spec fn cycle(&self) -> Seq<int> {
        match *self.inner {
            Policy::Single(_) => seq![0int],
            Policy::RoundRobin { endpoints, .. } => Seq::new(endpoints@.len(), |i: int| i),
            Policy::Weighted { table, .. } => Seq::new(table@.len(), |t: int| table@[t] as int),
        }
    }

    /// The member whose turn the ticket is.
    pub open spec fn turn_of(&self, ticket: int) -> Endpoint {
        self.members()[self.cycle()[ticket % (self.cycle().len() as int)]]
    }

    /// Whether a ticket was drawn from the group's cursor. A group of one has none: any
    /// ticket does.
    pub closed spec fn drew(&self, ticket: usize) -> bool {
        match *self.inner {
            Policy::Single(_) => true,
            Policy::RoundRobin { cursor, .. } => was_drawn(cursor, ticket),
            Policy::Weighted { cursor, .. } => was_drawn(cursor, ticket),
        }
    }

    #[verifier::type_invariant]
    spec fn well_formed(&self) -> bool {
        &&& self.cycle().len() > 0
        &&& forall|t: int|
            0 <= t < self.cycle().len() ==> 0 <= #[trigger] self.cycle()[t] < self.members().len()
    }

    /// Build a group, choosing the cheapest policy the endpoints allow.
    ///
    /// Endpoints of weight zero are dropped; a group of none points to a
    /// placeholder.
    #[must_use]
    pub fn from_endpoints(endpoints: Vec<BackendEndpoint>) -> (r: Self)
        ensures
            r.members() == members_of(endpoints_of(endpoints@)),
            r.cycle() == cycle_of(weights_of(members_of(endpoints_of(endpoints@)))),
    {
        let ghost given = endpoints_of(endpoints@);
        let mut kept: Vec<BackendEndpoint> = Vec::new();
        let mut weights: Vec<u32> = Vec::new();
        let mut i: usize = 0;
        assert(given.take(0) =~= Seq::empty());
        assert(endpoints_of(kept@) =~= Seq::empty());
        while i < endpoints.len()
            invariant
                i <= endpoints@.len(),
                given == endpoints_of(endpoints@),
                endpoints_of(kept@) == live(given.take(i as int)),
                weights@.len() == kept@.len(),
                forall|k: int| 0 <= k < kept@.len() ==> #[trigger] kept@[k]@.weight >= 1,
                forall|k: int|
                    0 <= k < kept@.len() ==> #[trigger] weights@[k] == kept@[k]@.weight,
            decreases endpoints@.len() - i,
        {
            assert(given.take(i + 1).drop_last() =~= given.take(i as int));
            if endpoints[i].weight() > 0 {
                let ghost before = kept@;
                weights.push(endpoints[i].weight());
                kept.push(endpoints[i].clone());
                assert(endpoints_of(kept@) =~= endpoints_of(before).push(given[i as int]));
            }
            i = i + 1;
        }
        assert(given.take(i as int) =~= given);
        let ghost ms = members_of(given);
        let ghost ws = weights_of(ms);

        let n: usize = kept.len();
        if n == 0 {
            let single = BackendEndpoint::new("127.0.0.1:80".to_owned(), 1);
            assert(cycle_of(ws) =~= seq![0int]);
            assert(ms =~= seq![single@]);
            return Self { inner: Arc::new(Policy::Single(single)) };
        }
        assert(ms == endpoints_of(kept@));
        assert(ws =~= Seq::new(weights@.len(), |k: int| weights@[k] as int));
        if n == 1 {
            assert(ms =~= seq![kept@[0]@]);
            assert(cycle_of(ws) =~= seq![0int]);
            let single = kept[0].clone();
            assert(ms =~= seq![single@]);
            return Self { inner: Arc::new(Policy::Single(single)) };
        }
        let mut same = true;
        let mut k: usize = 1;
        while k < n
            invariant
                1 <= k <= n,
                n == weights@.len(),
                same <==> forall|j: int| 0 <= j < k ==> #[trigger] weights@[j] == weights@[0],
            decreases n - k,
        {
            if weights[k] != weights[k - 1] {
                same = false;
            }
            k = k + 1;
        }
        assert(same <==> uniform(ws)) by {
            if uniform(ws) {
                assert forall|j: int| 0 <= j < n implies #[trigger] weights@[j] == weights@[0] by {
                    assert(ws[j] == ws[0]);
                }
            }
            if same {
                assert forall|a: int, b: int| 0 <= a < ws.len() && 0 <= b < ws.len() implies ws[a]
                    == ws[b] by {
                    assert(weights@[a] == weights@[0]);
                    assert(weights@[b] == weights@[0]);
                }
            }
        }
        if same {
            assert(cycle_of(ws) =~= Seq::new(kept@.len(), |i: int| i));
            Self { inner: Arc::new(Policy::RoundRobin { endpoints: kept, cursor: new_cursor() }) }
        } else {
            assert forall|k: int| 0 <= k < weights@.len() implies #[trigger] weights@[k] >= 1 by {
                assert(kept@[k]@.weight >= 1);
            }
            let table = lay_out(&weights);
            assert(cycle_of(ws) =~= Seq::new(table@.len(), |t: int| table@[t] as int));
            Self {
                inner: Arc::new(
                    Policy::Weighted { endpoints: kept, table, cursor: new_cursor() },
                ),
            }
        }
    }

    /// The endpoint whose turn the given ticket is.
    #[must_use]
    pub fn select_at(&self, ticket: usize) -> (r: &BackendEndpoint)
        ensures
            r@ == self.turn_of(ticket as int),
    {
        proof {
            use_type_invariant(self);
        }
        let ghost at = ticket as int % (self.cycle().len() as int);
        assert(0 <= self.cycle()[at] < self.members().len());
        match &*self.inner {
            Policy::Single(ep) => ep,
            Policy::RoundRobin { endpoints, .. } => &endpoints[ticket % endpoints.len()],
            Policy::Weighted { endpoints, table, .. } => {
                let slot: usize = table[ticket % table.len()] as usize;
                &endpoints[slot]
            },
        }
    }

    /// Select the next upstream endpoint.
    ///
    /// Wait-free: one relaxed `fetch_add` on a cache-padded counter, then an
    /// index. Which ticket is drawn depends on the other threads.
    #[must_use]
    pub fn select(&self) -> (r: &BackendEndpoint)
        ensures
            exists|ticket: usize|
                self.drew(ticket) && r@ == #[trigger] self.turn_of(ticket as int),
    {
        let ticket: usize = match &*self.inner {
            Policy::Single(_) => 0,
            Policy::RoundRobin { cursor, .. } => draw_ticket(cursor),
            Policy::Weighted { cursor, .. } => draw_ticket(cursor),
        };
        self.select_at(ticket)
    }

    /// All endpoints in the group, in configuration order.
    #[must_use]
    pub fn endpoints(&self) -> (r: &[BackendEndpoint])
        ensures
            endpoints_of(r@) == self.members(),
    {
        match &*self.inner {
            Policy::Single(ep) => {
                let one: &[BackendEndpoint] = core::slice::from_ref(ep);
                assert(endpoints_of(one@) =~= self.members());
                one
            },
            Policy::RoundRobin { endpoints, .. } => endpoints.as_slice(),
            Policy::Weighted { endpoints, .. } => endpoints.as_slice(),
        }
    }

    /// Number of endpoints.
    #[must_use]
    pub fn len(&self) -> (r: usize)
        ensures
            r == self.members().len(),
    {
        self.endpoints().len()
    }

    /// A group is never empty.
    #[must_use]
    pub fn is_empty(&self) -> (r: bool)
        ensures
            !r,
            self.members().len() > 0,
    {
        proof {
            use_type_invariant(self);
            assert(0 <= self.cycle()[0] < self.members().len());
        }
        false
    }
}

/// Whether a ticket was drawn from the cursor of a group, where there is a group.
pub open spec fn drawn_from(group: Option<TargetGroup>, ticket: usize) -> bool {
    group matches Some(group) ==> group.drew(ticket)
}

/// How many of the `n` tickets from `from` on go to position `i`, when turns are
/// taken in the given cycle over and over.
pub open spec fn served(cycle: Seq<int>, i: int, from: int, n: nat) -> int
    decreases n,
{
    if n == 0 {
        0
    } else {
        served(cycle, i, from, (n - 1) as nat) + (if cycle[(from + n - 1) % (cycle.len() as int)]
            == i {
            1int
        } else {
            0int
        })
    }
}

/// Every member may receive traffic: an endpoint of weight zero is none.
pub proof fn lemma_members_are_live(eps: Seq<Endpoint>, i: int)
    requires
        0 <= i < members_of(eps).len(),
    ensures
        members_of(eps)[i].weight > 0,
        live(eps).len() > 0 ==> eps.contains(members_of(eps)[i]),
{
    lemma_live_members(eps);
    if live(eps).len() > 0 {
        assert(live(eps)[i].weight > 0 && eps.contains(live(eps)[i]));
    }
}

proof fn lemma_live_members(eps: Seq<Endpoint>)
    ensures
        forall|i: int|
            0 <= i < live(eps).len() ==> (#[trigger] live(eps)[i]).weight > 0 && eps.contains(
                live(eps)[i],
            ),
    decreases eps.len(),
{
    if eps.len() > 0 {
        let init = eps.drop_last();
        lemma_live_members(init);
        assert forall|i: int| 0 <= i < live(eps).len() implies (#[trigger] live(eps)[i]).weight > 0
            && eps.contains(live(eps)[i]) by {
            if i < live(init).len() {
                assert(live(init)[i].weight > 0 && init.contains(live(init)[i]));
                let k = choose|k: int| 0 <= k < init.len() && init[k] == live(init)[i];
                assert(eps[k] == live(init)[i]);
            } else {
                assert(eps[eps.len() - 1] == eps.last());
            }
        }
    }
}

proof fn lemma_weights_positive(eps: Seq<Endpoint>)
    ensures
        forall|i: int|
            0 <= i < members_of(eps).len() ==> 1 <= #[trigger] weights_of(members_of(eps))[i]
                <= u32::MAX,
        members_of(eps).len() > 0,
{
    assert forall|i: int| 0 <= i < members_of(eps).len() implies 1 <= #[trigger] weights_of(
        members_of(eps),
    )[i] <= u32::MAX by {
        lemma_members_are_live(eps, i);
    }
}

/// Serving goes round: a whole cycle serves a position equally often wherever
/// it begins.
proof fn lemma_served_anywhere(cycle: Seq<int>, i: int, from: nat)
    requires
        cycle.len() > 0,
    ensures
        served(cycle, i, from as int, cycle.len()) == served(cycle, i, 0, cycle.len()),
    decreases from,
{
    if from > 0 {
        let n = cycle.len();
        let prev = (from - 1) as nat;
        lemma_served_anywhere(cycle, i, prev);
        lemma_served_first(cycle, i, prev as int, n);
        assert((prev as int + n as int) % (n as int) == prev as int % (n as int)) by (nonlinear_arith)
            requires
                n > 0,
        ;
        assert(from + (n - 1) == prev + n);
        assert(served(cycle, i, from as int, n) == served(cycle, i, from as int, (n - 1) as nat)
            + (if cycle[(from + n - 1) % (n as int)] == i {
            1int
        } else {
            0int
        }));
    }
}

proof fn lemma_served_first(cycle: Seq<int>, i: int, from: int, n: nat)
    requires
        n > 0,
    ensures
        served(cycle, i, from, n) == served(cycle, i, from + 1, (n - 1) as nat) + (if cycle[from
            % (cycle.len() as int)] == i {
            1int
        } else {
            0int
        }),
    decreases n,
{
    if n == 1 {
        assert(served(cycle, i, from, 0) == 0);
        assert(served(cycle, i, from + 1, 0) == 0);
    } else {
        lemma_served_first(cycle, i, from, (n - 1) as nat);
        assert(from + 1 + (n - 1) - 1 == from + n - 1);
    }
}

proof fn lemma_in_order(i: int, n: nat, k: nat)
    requires
        0 <= i < n,
        k <= n,
    ensures
        served(Seq::new(n, |j: int| j), i, 0, k) == (if i < k {
            1int
        } else {
            0int
        }),
    decreases k,
{
    if k > 0 {
        lemma_in_order(i, n, (k - 1) as nat);
        assert((k - 1) % (n as int) == k - 1) by (nonlinear_arith)
            requires
                0 < k <= n,
        ;
    }
}

proof fn lemma_by_weight(ws: Seq<int>, i: int, t: nat)
    requires
        0 <= i < ws.len() <= 0x10000,
        shares(ws).len() == ws.len(),
        t <= sum(shares(ws)),
    ensures
        served(
            Seq::new(weight_table(ws).len(), |t: int| weight_table(ws)[t] as int),
            i,
            0,
            t,
        ) == turns_taken(shares(ws), i, t),
    decreases t,
{
    if t > 0 {
        lemma_by_weight(ws, i, (t - 1) as nat);
        let n = sum(shares(ws));
        assert((t - 1) % n == t - 1) by (nonlinear_arith)
            requires
                0 < t <= n,
        ;
        lemma_turn_in_range(shares(ws), (t - 1) as nat);
        assert(weight_table(ws)[t - 1] == table_entry(turn(shares(ws), (t - 1) as nat)));
    }
}

/// Any run of consecutive tickets as long as the cycle serves every member
/// exactly its share: one turn each when the weights are equal, and otherwise as
/// many turns as [`shares`] gives it, which is its weight while the weights add
/// up to at most 4096, and never less than one.
pub proof fn lemma_each_member_gets_its_share(eps: Seq<Endpoint>, i: int, from: nat)
    requires
        members_of(eps).len() <= 0x10000,
        0 <= i < members_of(eps).len(),
    ensures
        ({
            let ws = weights_of(members_of(eps));
            let cycle = cycle_of(ws);
            let turns = served(cycle, i, from as int, cycle.len());
            &&& turns >= 1
            &&& uniform(ws) ==> turns == 1
            &&& !uniform(ws) ==> turns == shares(ws)[i]
            &&& !uniform(ws) && sum(ws) <= 4096 ==> turns == members_of(eps)[i].weight
        }),
{
    let ws = weights_of(members_of(eps));
    let cycle = cycle_of(ws);
    lemma_weights_positive(eps);
    lemma_shares_positive(ws);
    lemma_served_anywhere(cycle, i, from);
    if uniform(ws) {
        lemma_in_order(i, ws.len(), ws.len());
    } else {
        lemma_by_weight(ws, i, sum(shares(ws)) as nat);
        lemma_cycle_honours_shares(shares(ws), i);
        assert(all_positive(shares(ws)));
        assert(shares(ws)[i] >= 1);
    }
}

/// A run of tickets is served as its two parts are.
proof fn lemma_served_in_parts(cycle: Seq<int>, i: int, from: int, a: nat, b: nat)
    ensures
        served(cycle, i, from, a + b) == served(cycle, i, from, a) + served(
            cycle,
            i,
            from + a,
            b,
        ),
    decreases b,
{
    if b > 0 {
        lemma_served_in_parts(cycle, i, from, a, (b - 1) as nat);
        assert((a + b) as nat - 1 == a + (b - 1) as nat);
        assert(from + a + b - 1 == (from + a) + b - 1);
    }
}

/// Several whole cycles serve a position as often as that many times one cycle.
proof fn lemma_served_over_cycles(cycle: Seq<int>, i: int, from: nat, times: nat)
    requires
        cycle.len() > 0,
    ensures
        served(cycle, i, from as int, times * cycle.len()) == times * served(
            cycle,
            i,
            0,
            cycle.len(),
        ),
    decreases times,
{
    let n = cycle.len();
    let once = served(cycle, i, 0, n);
    if times == 0 {
        assert(times * n == 0) by (nonlinear_arith)
            requires
                times == 0,
        ;
        assert(times * once == 0) by (nonlinear_arith)
            requires
                times == 0,
        ;
    } else {
        let before = (times - 1) as nat;
        lemma_served_over_cycles(cycle, i, from, before);
        lemma_served_in_parts(cycle, i, from as int, before * n, n);
        lemma_served_anywhere(cycle, i, (from + before * n) as nat);
        assert(before * n + n == times * n) by (nonlinear_arith)
            requires
                times == before + 1,
        ;
        assert(before * once + once == times * once) by (nonlinear_arith)
            requires
                times == before + 1,
        ;
    }
}

proof fn lemma_sum_of_equals(ws: Seq<int>, w: int)
    requires
        forall|i: int| 0 <= i < ws.len() ==> #[trigger] ws[i] == w,
    ensures
        sum(ws) == ws.len() * w,
    decreases ws.len(),
{
    if ws.len() > 0 {
        let init = ws.drop_last();
        assert forall|i: int| 0 <= i < init.len() implies #[trigger] init[i] == w by {
            assert(init[i] == ws[i]);
        }
        lemma_sum_of_equals(init, w);
        assert(ws.len() * w == init.len() * w + w) by (nonlinear_arith)
            requires
                ws.len() == init.len() + 1,
        ;
    } else {
        assert(ws.len() * w == 0) by (nonlinear_arith)
            requires
                ws.len() == 0,
        ;
    }
}

/// As many consecutive tickets as the weights add up to, wherever they begin, serve
/// every member exactly as often as its weight says.
pub proof fn lemma_consecutive_tickets_honour_weights(eps: Seq<Endpoint>, i: int, from: nat)
    requires
        sum(weights_of(members_of(eps))) <= 4096,
        0 <= i < members_of(eps).len(),
    ensures
        served(
            cycle_of(weights_of(members_of(eps))),
            i,
            from as int,
            sum(weights_of(members_of(eps))) as nat,
        ) == members_of(eps)[i].weight,
{
    let ws = weights_of(members_of(eps));
    let cycle = cycle_of(ws);
    lemma_weights_positive(eps);
    lemma_shares_positive(ws);
    if uniform(ws) {
        let w = ws[i];
        assert forall|j: int| 0 <= j < ws.len() implies #[trigger] ws[j] == w by {
            assert(ws[j] == ws[i]);
        }
        lemma_sum_of_equals(ws, w);
        assert(ws.len() * w == w * cycle.len()) by (nonlinear_arith)
            requires
                ws.len() == cycle.len(),
        ;
        lemma_served_over_cycles(cycle, i, from, w as nat);
        lemma_in_order(i, ws.len(), ws.len());
        assert(w * 1 == w);
    } else {
        assert(shares(ws) == ws);
        lemma_each_member_gets_its_share(eps, i, from);
        assert(cycle.len() == sum(ws));
    }
}

/// Members of equal weight take their turns in configuration order, over and over.
pub proof fn lemma_equal_weights_go_in_order(eps: Seq<Endpoint>, ticket: nat)
    requires
        uniform(weights_of(members_of(eps))),
    ensures
        ({
            let ms = members_of(eps);
            let cycle = cycle_of(weights_of(ms));
            ms[cycle[ticket as int % (cycle.len() as int)]] == ms[ticket as int % (
            ms.len() as int)]
        }),
{
    lemma_weights_positive(eps);
    let n = members_of(eps).len() as int;
    assert(0 <= ticket as int % n < n) by (nonlinear_arith)
        requires
            n > 0,
    ;
}

/// The cycle of a group stays within the cap, as long as there are no more members
/// than that.
pub proof fn lemma_cycle_stays_within_the_cap(eps: Seq<Endpoint>)
    requires
        members_of(eps).len() <= MAX_WEIGHT_TABLE,
    ensures
        cycle_of(weights_of(members_of(eps))).len() <= MAX_WEIGHT_TABLE,
{
    lemma_weights_positive(eps);
    lemma_shares_positive(weights_of(members_of(eps)));
}

} // verus!
