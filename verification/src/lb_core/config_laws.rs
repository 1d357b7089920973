//! What the routes of a file, and definitions of routes at large, come to.

use vstd::prelude::*;
use vstd::string::*;
use vstd::utf8::encode_utf8;

use crate::lb_core::config::{config_defs, RouteConfig, RouteEntry};
use crate::lb_core::filter::{rule_of, rules_of, HeaderModifier, HeaderRule, Rewrite, UrlRewrite};
use crate::lb_core::headers::{canonical_name, is_header_name, is_header_value};
use crate::lb_core::rotation::sum;
use crate::lb_core::route_table::{
    all_entries, def_entries, expanded, installed, prefix_patterns, routes_for, table_of, Entry,
    Host, PathMatch, RouteDef,
};
use crate::lb_core::target::{
    cycle_of, lemma_consecutive_tickets_honour_weights, live, members_of, served, weights_of,
    Endpoint,
};
use crate::text::{begins_with, ends_with, lower_text};

verus! {

/// The weights that a route of the file gives its backends.
pub open spec fn file_weights(entry: RouteEntry) -> Seq<int> {
    Seq::new(entry.backends@.len(), |i: int| entry.backends@[i].weight as int)
}

/// Every route of the file becomes a definition of its own, in order, with the host, the
/// path, the name and the backends that the file gives it: the i-th endpoint has the address
/// and the weight of the i-th backend.
pub proof fn lemma_file_routes_become_definitions(cfg: RouteConfig, r: int)
    requires
        0 <= r < cfg.routes@.len(),
    ensures
        config_defs(cfg).len() == cfg.routes@.len(),
        ({
            let def = config_defs(cfg)[r];
            let entry = cfg.routes@[r];
            &&& def.hostname is Some <==> entry.hostname is Some
            &&& entry.hostname matches Some(h) ==> def.hostname == Some(h@)
            &&& def.path == entry.path@
            &&& def.kind is Exact <==> entry.path_type is Exact
            &&& def.name == entry.name@
            &&& def.endpoints.len() == entry.backends@.len()
            &&& forall|i: int|
                0 <= i < entry.backends@.len() ==> (#[trigger] def.endpoints[i]).address
                    == entry.backends@[i].address@ && def.endpoints[i].weight
                    == entry.backends@[i].weight
            &&& def.filters.request == rules_of(entry.request_headers@)
            &&& def.filters.response == rules_of(entry.response_headers@)
            &&& match entry.rewrite {
                None => def.filters.rewrite is None,
                Some(UrlRewrite::Exact(p)) => def.filters.rewrite == Some(Rewrite::Exact(p@)),
                Some(UrlRewrite::Prefix { prefix, replacement }) => def.filters.rewrite == Some(
                    Rewrite::Prefix(prefix@, replacement@),
                ),
            }
        }),
{
}

proof fn lemma_all_live(eps: Seq<Endpoint>)
    requires
        forall|i: int| 0 <= i < eps.len() ==> (#[trigger] eps[i]).weight > 0,
    ensures
        live(eps) == eps,
    decreases eps.len(),
{
    if eps.len() > 0 {
        let init = eps.drop_last();
        assert forall|i: int| 0 <= i < init.len() implies (#[trigger] init[i]).weight > 0 by {
            assert(init[i] == eps[i]);
        }
        lemma_all_live(init);
        assert(eps[eps.len() - 1].weight > 0);
        assert(init.push(eps.last()) =~= eps);
    } else {
        assert(live(eps) =~= eps);
    }
}

/// The backends of a route of the file take turns as its weights say: of as many requests
/// in a row as the weights add up to, each gets as many as its weight; so over any such run
/// the turns of two backends stand in the ratio of their weights. A backend of weight nought
/// gets none.
pub proof fn lemma_file_weights_are_honoured(
    cfg: RouteConfig,
    r: int,
    i: int,
    j: int,
    from: nat,
)
    requires
        0 <= r < cfg.routes@.len(),
        0 <= i < cfg.routes@[r].backends@.len(),
        0 <= j < cfg.routes@[r].backends@.len(),
        forall|k: int|
            0 <= k < cfg.routes@[r].backends@.len() ==> (
            #[trigger] cfg.routes@[r].backends@[k]).weight > 0,
        sum(file_weights(cfg.routes@[r])) <= 4096,
    ensures
        ({
            let entry = cfg.routes@[r];
            let group = members_of(config_defs(cfg)[r].endpoints);
            let cycle = cycle_of(weights_of(group));
            let total = sum(file_weights(entry)) as nat;
            &&& group.len() == entry.backends@.len()
            &&& group[i].address == entry.backends@[i].address@
            &&& served(cycle, i, from as int, total) == entry.backends@[i].weight
            &&& served(cycle, i, from as int, total) * entry.backends@[j].weight == served(
                cycle,
                j,
                from as int,
                total,
            ) * entry.backends@[i].weight
        }),
{
    let entry = cfg.routes@[r];
    let eps = config_defs(cfg)[r].endpoints;
    lemma_file_routes_become_definitions(cfg, r);
    assert forall|k: int| 0 <= k < eps.len() implies (#[trigger] eps[k]).weight > 0 by {
        assert(entry.backends@[k].weight > 0);
    }
    lemma_all_live(eps);
    assert(members_of(eps) == eps);
    assert(weights_of(eps) =~= file_weights(entry));
    lemma_consecutive_tickets_honour_weights(eps, i, from);
    lemma_consecutive_tickets_honour_weights(eps, j, from);
    let (a, b) = (entry.backends@[i].weight as int, entry.backends@[j].weight as int);
    assert(a * b == b * a) by (nonlinear_arith);
}

proof fn lemma_live_joins(a: Seq<Endpoint>, b: Seq<Endpoint>)
    ensures
        live(a + b) == live(a) + live(b),
    decreases b.len(),
{
    if b.len() == 0 {
        assert(a + b =~= a);
        assert(live(a) + live(b) =~= live(a));
    } else {
        lemma_live_joins(a, b.drop_last());
        assert((a + b).drop_last() =~= a + b.drop_last());
        assert(live(a + b) =~= live(a) + live(b));
    }
}

/// Each endpoint is a member of its group in its place, with its address and its weight,
/// unless its weight is nought; then it leaves no trace.
pub proof fn lemma_each_endpoint_is_a_member_or_drained(
    before: Seq<Endpoint>,
    e: Endpoint,
    after: Seq<Endpoint>,
)
    ensures
        live(before + seq![e] + after) == (if e.weight == 0 {
            live(before + after)
        } else {
            live(before) + seq![e] + live(after)
        }),
        live(Seq::empty()) == Seq::<Endpoint>::empty(),
{
    lemma_live_joins(before + seq![e], after);
    lemma_live_joins(before, seq![e]);
    lemma_live_joins(before, after);
    let one = seq![e];
    assert(one.drop_last() =~= Seq::empty());
    assert(live(one.drop_last()) =~= Seq::empty());
    assert(live(one) =~= if e.weight == 0 {
        Seq::empty()
    } else {
        seq![e]
    });
    assert(live(before) + Seq::<Endpoint>::empty() =~= live(before));
}

// ---------------------------------------------------------------------------
// Modifiers
// ---------------------------------------------------------------------------

proof fn lemma_rules_join(a: Seq<HeaderModifier>, b: Seq<HeaderModifier>)
    ensures
        rules_of(a + b) == rules_of(a) + rules_of(b),
    decreases b.len(),
{
    if b.len() == 0 {
        assert(a + b =~= a);
        assert(rules_of(a) + rules_of(b) =~= rules_of(a));
    } else {
        lemma_rules_join(a, b.drop_last());
        assert((a + b).drop_last() =~= a + b.drop_last());
        assert(rules_of(a + b) =~= rules_of(a) + rules_of(b));
    }
}

/// Each header modifier becomes a rule of its own, in its place: to put its value in the
/// place of others, to add it, or to remove the header. One whose name or value no header
/// can have leaves no trace.
pub proof fn lemma_each_modifier_becomes_a_rule(
    before: Seq<HeaderModifier>,
    m: HeaderModifier,
    after: Seq<HeaderModifier>,
)
    ensures
        ({
            let all = rules_of(before + seq![m] + after);
            let rest = rules_of(before) + rules_of(after);
            match m {
                HeaderModifier::Put { name, value } => {
                    let ok = is_header_name(encode_utf8(name@)) && is_header_value(
                        encode_utf8(value@),
                    );
                    &&& ok ==> all == rules_of(before) + seq![
                        HeaderRule::Put(canonical_name(encode_utf8(name@)), encode_utf8(value@)),
                    ] + rules_of(after)
                    &&& !ok ==> all == rest
                },
                HeaderModifier::Add { name, value } => {
                    let ok = is_header_name(encode_utf8(name@)) && is_header_value(
                        encode_utf8(value@),
                    );
                    &&& ok ==> all == rules_of(before) + seq![
                        HeaderRule::Add(canonical_name(encode_utf8(name@)), encode_utf8(value@)),
                    ] + rules_of(after)
                    &&& !ok ==> all == rest
                },
                HeaderModifier::Remove { name } => {
                    let ok = is_header_name(encode_utf8(name@));
                    &&& ok ==> all == rules_of(before) + seq![
                        HeaderRule::Remove(canonical_name(encode_utf8(name@))),
                    ] + rules_of(after)
                    &&& !ok ==> all == rest
                },
            }
        }),
        rules_of(Seq::empty()) == Seq::<HeaderRule>::empty(),
{
    lemma_rules_join(before + seq![m], after);
    lemma_rules_join(before, seq![m]);
    let one = seq![m];
    assert(one.drop_last() =~= Seq::empty());
    assert(rules_of(one.drop_last()) =~= Seq::empty());
    assert(rules_of(one) =~= match rule_of(m) {
        Some(r) => seq![r],
        None => Seq::empty(),
    });
    assert(rules_of(before) + Seq::<HeaderRule>::empty() =~= rules_of(before));
}

// ---------------------------------------------------------------------------
// Tables
// ---------------------------------------------------------------------------

/// Whether a definition is for a host: any, one exactly or all below one; case does not
/// matter.
pub open spec fn is_for(def: RouteDef, host: Host) -> bool {
    match host {
        Host::Any => def.hostname is None || def.hostname->0 == "*"@,
        Host::Wildcard(suffix) => def.hostname is Some && begins_with(def.hostname->0, "*."@)
            && suffix == lower_text(def.hostname->0.skip(1)),
        Host::Exact(h) => def.hostname is Some && def.hostname->0 != "*"@ && !begins_with(
            def.hostname->0,
            "*."@,
        ) && h == lower_text(def.hostname->0),
    }
}

/// Whether an entry is one of a definition's: for its host, under one of its patterns, with
/// its backends, its filters and its name.
pub open spec fn is_entry_of(e: Entry, def: RouteDef) -> bool {
    &&& is_for(def, e.0)
    &&& expanded(def.path, def.kind).contains(e.1)
    &&& e.2.name == def.name
    &&& e.2.filters == def.filters
    &&& e.2.members == members_of(def.endpoints)
    &&& e.2.cycle == cycle_of(weights_of(members_of(def.endpoints)))
}

proof fn lemma_star()
    ensures
        !begins_with("*"@, "*."@),
{
    reveal_strlit("*");
    reveal_strlit("*.");
}

proof fn lemma_own_entry(def: RouteDef, p: int)
    requires
        0 <= p < expanded(def.path, def.kind).len(),
    ensures
        def_entries(def).len() == expanded(def.path, def.kind).len(),
        is_entry_of(def_entries(def)[p], def),
        def_entries(def)[p].1 == expanded(def.path, def.kind)[p],
{
    lemma_star();
    let patterns = expanded(def.path, def.kind);
    assert(patterns.contains(patterns[p]));
}

/// Every definition is entered under each of its patterns.
pub proof fn lemma_definition_is_entered(defs: Seq<RouteDef>, i: int, p: int) -> (k: int)
    requires
        0 <= i < defs.len(),
        0 <= p < expanded(defs[i].path, defs[i].kind).len(),
    ensures
        0 <= k < all_entries(defs).len(),
        all_entries(defs)[k].1 == expanded(defs[i].path, defs[i].kind)[p],
        is_entry_of(all_entries(defs)[k], defs[i]),
    decreases defs.len(),
{
    let init = defs.drop_last();
    let before = all_entries(init);
    let own = def_entries(defs.last());
    assert(all_entries(defs) == before + own);
    if i < init.len() {
        assert(init[i] == defs[i]);
        let k = lemma_definition_is_entered(init, i, p);
        assert(all_entries(defs)[k] == before[k]);
        k
    } else {
        lemma_own_entry(defs.last(), p);
        let k = before.len() + p;
        assert(all_entries(defs)[k] == own[p]);
        k
    }
}

/// Every entry is one of a definition's.
pub proof fn lemma_entry_was_defined(defs: Seq<RouteDef>, k: int) -> (i: int)
    requires
        0 <= k < all_entries(defs).len(),
    ensures
        0 <= i < defs.len(),
        is_entry_of(all_entries(defs)[k], defs[i]),
    decreases defs.len(),
{
    let init = defs.drop_last();
    let before = all_entries(init);
    let own = def_entries(defs.last());
    assert(all_entries(defs) == before + own);
    if k < before.len() {
        let i = lemma_entry_was_defined(init, k);
        assert(init[i] == defs[i]);
        i
    } else {
        lemma_own_entry(defs.last(), k - before.len());
        defs.len() - 1
    }
}

/// The entries of two definitions follow each other in the order of the definitions.
pub proof fn lemma_definitions_keep_their_order(a: Seq<RouteDef>, b: Seq<RouteDef>)
    ensures
        all_entries(a + b) == all_entries(a) + all_entries(b),
        a.len() == 1 ==> all_entries(a).len() == expanded(a[0].path, a[0].kind).len(),
{
    crate::lb_core::route_table::lemma_all_entries_concat(a, b);
    if a.len() == 1 {
        assert(a.drop_last() =~= Seq::empty());
        assert(all_entries(a.drop_last()) =~= Seq::empty());
        assert(all_entries(a) =~= def_entries(a[0]));
    }
}

/// The routes of a host are the entries for that host, all of them and in order.
pub proof fn lemma_hosts_get_their_entries(entries: Seq<Entry>, host: Host)
    ensures
        ({
            let own = entries.filter(|e: Entry| e.0 == host);
            let routes = routes_for(entries, host);
            &&& routes.len() == own.len()
            &&& forall|i: int|
                0 <= i < routes.len() ==> (#[trigger] routes[i]) == (own[i].1, own[i].2)
        }),
    decreases entries.len(),
{
    reveal(Seq::filter);
    let test = |e: Entry| e.0 == host;
    if entries.len() > 0 {
        let init = entries.drop_last();
        lemma_hosts_get_their_entries(init, host);
        let own = entries.filter(test);
        let before = init.filter(test);
        let routes = routes_for(entries, host);
        assert forall|i: int| 0 <= i < routes.len() implies (#[trigger] routes[i]) == (
            own[i].1,
            own[i].2,
        ) by {
            if i < before.len() {
                assert(routes_for(init, host)[i] == (before[i].1, before[i].2));
                assert(own[i] == before[i]);
            }
        }
    }
}

/// A table holds for each host the routes of that host, in the order in which they were
/// entered, as far as the path router takes them.
pub proof fn lemma_table_holds_every_host(entries: Seq<Entry>, count: nat, h: Seq<char>)
    ensures
        ({
            let table = table_of(entries, count);
            &&& table.exact.contains_key(h) <==> exists|i: int|
                0 <= i < entries.len() && (#[trigger] entries[i]).0 == Host::Exact(h)
            &&& table.exact.contains_key(h) ==> table.exact[h] == installed(
                routes_for(entries, Host::Exact(h)),
            )
            &&& table.wildcard.contains_key(h) <==> exists|i: int|
                0 <= i < entries.len() && (#[trigger] entries[i]).0 == Host::Wildcard(h)
            &&& table.wildcard.contains_key(h) ==> table.wildcard[h] == installed(
                routes_for(entries, Host::Wildcard(h)),
            )
            &&& table.fallback == installed(routes_for(entries, Host::Any))
            &&& table.count == count
        }),
{
}

/// The shorthands for a prefix mean what a prefix match of what precedes them means, and an
/// exact match is of its path alone.
pub proof fn lemma_shorthands_are_prefixes(base: Seq<char>, kind: PathMatch)
    requires
        base.len() > 0,
    ensures
        expanded(base + "/*"@, kind) == prefix_patterns(base),
        expanded(base + "/*path"@, kind) == prefix_patterns(base),
        expanded(base + "/*catchall"@, kind) == prefix_patterns(base),
        !ends_with(base, "/*"@) && !ends_with(base, "/*path"@) && !ends_with(base, "/*catchall"@)
            ==> expanded(base, kind) == (if kind is Exact {
            seq![base]
        } else {
            prefix_patterns(base)
        }),
{
    reveal_strlit("/*");
    reveal_strlit("/*path");
    reveal_strlit("/*catchall");
    let (a, b, c) = (base + "/*"@, base + "/*path"@, base + "/*catchall"@);
    assert(a.take(base.len() as int) =~= base);
    assert(b.take(base.len() as int) =~= base);
    assert(c.take(base.len() as int) =~= base);
    assert(a.skip(base.len() as int) =~= "/*"@);
    assert(b.skip(base.len() as int) =~= "/*path"@);
    assert(c.skip(base.len() as int) =~= "/*catchall"@);
    assert(a.last() == '*');
    assert(b.last() == 'h');
    assert(!ends_with(a, "/*catchall"@) && !ends_with(a, "/*path"@)) by {
        if ends_with(a, "/*catchall"@) {
            assert(a.last() == "/*catchall"@.last());
        }
        if ends_with(a, "/*path"@) {
            assert(a.last() == "/*path"@.last());
        }
    }
    assert(!ends_with(b, "/*catchall"@)) by {
        if ends_with(b, "/*catchall"@) {
            assert(b.last() == "/*catchall"@.last());
        }
    }
}

} // verus!
