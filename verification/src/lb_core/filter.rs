//! Gateway API request/response filters: header modifiers and URL rewrites.
//!
//! Header names and values are parsed and validated **once, at reconcile time**,
//! so that applying a filter parses nothing.

use std::sync::Arc;

use http::header::HeaderMap;
use vstd::prelude::*;
use vstd::string::*;
use vstd::utf8::encode_utf8;

use crate::lb_core::headers::{
    canonical_name, has_room, header_append, header_entries, header_insert, header_remove,
    is_canonical, is_header_name, is_header_value, is_valid_header_value, parse_header_name,
    values_of,
};
use crate::shared::{same_allocation, share};
use crate::text::{
    begins_with, eq_ignore_case, lower, lower_text, same_ignoring_case, starts_with, strip_prefix,
    trim_end_matches, without_trailing,
};

verus! {

/// A header modification instruction as it arrives from the control plane.
#[derive(Debug, PartialEq, Eq)]
pub enum HeaderModifier {
    Put { name: String, value: String },
    Add { name: String, value: String },
    Remove { name: String },
}

/// URL rewrite rule.
#[derive(Debug, PartialEq, Eq)]
pub enum UrlRewrite {
    /// Replace a path prefix: `prefix` -> `replacement`.
    Prefix { prefix: String, replacement: String },
    /// Replace the whole path.
    Exact(String),
}

impl Clone for HeaderModifier {
    fn clone(&self) -> (r: Self)
        ensures
            r == *self,
    {
        match self {
            HeaderModifier::Put { name, value } => HeaderModifier::Put {
                name: name.clone(),
                value: value.clone(),
            },
            HeaderModifier::Add { name, value } => HeaderModifier::Add {
                name: name.clone(),
                value: value.clone(),
            },
            HeaderModifier::Remove { name } => HeaderModifier::Remove { name: name.clone() },
        }
    }
}

impl Clone for UrlRewrite {
    fn clone(&self) -> (r: Self)
        ensures
            r == *self,
    {
        match self {
            UrlRewrite::Prefix { prefix, replacement } => UrlRewrite::Prefix {
                prefix: prefix.clone(),
                replacement: replacement.clone(),
            },
            UrlRewrite::Exact(path) => UrlRewrite::Exact(path.clone()),
        }
    }
}

/// What a header modifier does, once validated.
pub enum HeaderRule {
    /// Make the value the only one of the name.
    Put(Seq<char>, Seq<u8>),
    /// Add the value behind those that are there.
    Add(Seq<char>, Seq<u8>),
    /// Drop the name.
    Remove(Seq<char>),
}

/// What a URL rewrite does.
pub enum Rewrite {
    Prefix(Seq<char>, Seq<char>),
    Exact(Seq<char>),
}

/// What a filter pipeline does.
pub struct Filters {
    pub request: Seq<HeaderRule>,
    pub response: Seq<HeaderRule>,
    pub rewrite: Option<Rewrite>,
}

/// The pipeline that changes nothing.
pub open spec fn no_filters() -> Filters {
    Filters { request: Seq::empty(), response: Seq::empty(), rewrite: None }
}

/// Whether a rule speaks of a header name and value that a header map takes.
pub open spec fn rule_ok(rule: HeaderRule) -> bool {
    match rule {
        HeaderRule::Put(name, value) => is_canonical(name) && is_header_value(value),
        HeaderRule::Add(name, value) => is_canonical(name) && is_header_value(value),
        HeaderRule::Remove(name) => is_canonical(name),
    }
}

/// The name that a rule acts on.
pub open spec fn rule_name(rule: HeaderRule) -> Seq<char> {
    match rule {
        HeaderRule::Put(name, _) => name,
        HeaderRule::Add(name, _) => name,
        HeaderRule::Remove(name) => name,
    }
}

/// Whether an incoming header of the rule's name must not be copied through.
///
/// `Put` replaces, `Remove` drops; `Add` appends alongside the original and so
/// leaves it in place.
pub open spec fn rule_suppresses(rule: HeaderRule) -> bool {
    !(rule is Add)
}

/// The rule that a modifier stands for, if its name and value are valid.
pub open spec fn rule_of(modifier: HeaderModifier) -> Option<HeaderRule> {
    match modifier {
        HeaderModifier::Put { name, value } => if is_header_name(encode_utf8(name@))
            && is_header_value(encode_utf8(value@)) {
            Some(HeaderRule::Put(canonical_name(encode_utf8(name@)), encode_utf8(value@)))
        } else {
            None
        },
        HeaderModifier::Add { name, value } => if is_header_name(encode_utf8(name@))
            && is_header_value(encode_utf8(value@)) {
            Some(HeaderRule::Add(canonical_name(encode_utf8(name@)), encode_utf8(value@)))
        } else {
            None
        },
        HeaderModifier::Remove { name } => if is_header_name(encode_utf8(name@)) {
            Some(HeaderRule::Remove(canonical_name(encode_utf8(name@))))
        } else {
            None
        },
    }
}

/// The rules that a list of modifiers stands for. Invalid ones are left out.
pub open spec fn rules_of(modifiers: Seq<HeaderModifier>) -> Seq<HeaderRule>
    decreases modifiers.len(),
{
    if modifiers.len() == 0 {
        Seq::empty()
    } else {
        let before = rules_of(modifiers.drop_last());
        match rule_of(modifiers.last()) {
            Some(rule) => before.push(rule),
            None => before,
        }
    }
}

/// What a URL rewrite rule does.
pub open spec fn rewrite_of(rewrite: Option<UrlRewrite>) -> Option<Rewrite> {
    match rewrite {
        None => None,
        Some(UrlRewrite::Prefix { prefix, replacement }) => Some(
            Rewrite::Prefix(prefix@, replacement@),
        ),
        Some(UrlRewrite::Exact(path)) => Some(Rewrite::Exact(path@)),
    }
}

/// Header entries after one rule.
pub open spec fn rule_applied(
    entries: Map<Seq<char>, Seq<Seq<u8>>>,
    rule: HeaderRule,
) -> Map<Seq<char>, Seq<Seq<u8>>> {
    match rule {
        HeaderRule::Put(name, value) => entries.insert(name, seq![value]),
        HeaderRule::Add(name, value) => entries.insert(name, values_of(entries, name).push(value)),
        HeaderRule::Remove(name) => entries.remove(name),
    }
}

/// Header entries after a list of rules, in order.
pub open spec fn rules_applied(
    entries: Map<Seq<char>, Seq<Seq<u8>>>,
    rules: Seq<HeaderRule>,
) -> Map<Seq<char>, Seq<Seq<u8>>>
    decreases rules.len(),
{
    if rules.len() == 0 {
        entries
    } else {
        rule_applied(rules_applied(entries, rules.drop_last()), rules.last())
    }
}

/// Whether a header arriving with this name must be dropped.
pub open spec fn rules_suppress(rules: Seq<HeaderRule>, name: Seq<char>) -> bool {
    exists|i: int|
        0 <= i < rules.len() && rule_suppresses(#[trigger] rules[i]) && same_ignoring_case(
            rule_name(rules[i]),
            name,
        )
}

/// A header as a line of a message head.
pub open spec fn header_line(name: Seq<char>, value: Seq<u8>) -> Seq<u8> {
    encode_utf8(name) + seq![58u8, 32u8] + value + seq![13u8, 10u8]
}

/// The line that a rule adds to a message head. `Remove` contributes nothing: it
/// is honoured by suppressing the original instead.
pub open spec fn rule_line(rule: HeaderRule) -> Seq<u8> {
    match rule {
        HeaderRule::Put(name, value) => header_line(name, value),
        HeaderRule::Add(name, value) => header_line(name, value),
        HeaderRule::Remove(_) => Seq::empty(),
    }
}

/// The lines that a list of rules adds to a message head.
pub open spec fn rule_lines(rules: Seq<HeaderRule>) -> Seq<u8>
    decreases rules.len(),
{
    if rules.len() == 0 {
        Seq::empty()
    } else {
        rule_lines(rules.drop_last()) + rule_line(rules.last())
    }
}

/// What stands behind the replacement of a matched prefix: the remainder of the
/// path, led by a slash, and at least a slash if nothing else is there.
pub open spec fn rewrite_tail(base: Seq<char>, rest: Seq<char>) -> Seq<char> {
    if rest.len() == 0 {
        if base.len() == 0 {
            seq!['/']
        } else {
            rest
        }
    } else if rest[0] == '/' {
        rest
    } else {
        seq!['/'] + rest
    }
}

/// A path after a rewrite.
pub open spec fn rewritten(rewrite: Option<Rewrite>, path: Seq<char>) -> Seq<char> {
    match rewrite {
        None => path,
        Some(Rewrite::Exact(exact)) => exact,
        Some(Rewrite::Prefix(prefix, replacement)) => if begins_with(path, prefix) {
            let base = without_trailing(replacement, '/');
            base + rewrite_tail(base, path.skip(prefix.len() as int))
        } else {
            path
        },
    }
}

/// A header modifier after validation, ready to apply with no parsing.
#[derive(Debug)]
enum Compiled {
    Put(String, Vec<u8>),
    Add(String, Vec<u8>),
    Remove(String),
}

impl View for Compiled {
    type V = HeaderRule;

    closed spec fn view(&self) -> HeaderRule {
        match *self {
            Compiled::Put(name, value) => HeaderRule::Put(name@, value@),
            Compiled::Add(name, value) => HeaderRule::Add(name@, value@),
            Compiled::Remove(name) => HeaderRule::Remove(name@),
        }
    }
}

impl Compiled {
    fn compile(modifier: &HeaderModifier) -> (r: Option<Self>)
        ensures
            r is Some <==> rule_of(*modifier) is Some,
            r matches Some(c) ==> c@ == rule_of(*modifier)->0 && rule_ok(c@),
    {
        match modifier {
            HeaderModifier::Put { name, value } => {
                match Self::parse(name.as_str(), value.as_str()) {
                    Some((n, v)) => Some(Compiled::Put(n, v)),
                    None => None,
                }
            },
            HeaderModifier::Add { name, value } => {
                match Self::parse(name.as_str(), value.as_str()) {
                    Some((n, v)) => Some(Compiled::Add(n, v)),
                    None => None,
                }
            },
            HeaderModifier::Remove { name } => {
                match parse_header_name(name.as_str().as_bytes()) {
                    Some(n) => {
                        assert(is_header_name(encode_utf8(name@)));
                        Some(Compiled::Remove(n))
                    },
                    None => None,
                }
            },
        }
    }

    fn parse(name: &str, value: &str) -> (r: Option<(String, Vec<u8>)>)
        ensures
            r is Some <==> is_header_name(encode_utf8(name@)) && is_header_value(
                encode_utf8(value@),
            ),
            r matches Some((n, v)) ==> n@ == canonical_name(encode_utf8(name@)) && v@
                == encode_utf8(value@) && is_canonical(n@),
    {
        let n = match parse_header_name(name.as_bytes()) {
            Some(n) => n,
            None => return None,
        };
        if is_valid_header_value(value.as_bytes()) {
            let v = value.as_bytes_vec();
            assert(is_header_name(encode_utf8(name@)));
            Some((n, v))
        } else {
            None
        }
    }

    /// The header name this instruction acts on.
    fn name(&self) -> (r: &str)
        ensures
            r@ == rule_name(self@),
    {
        match self {
            Compiled::Put(n, _) => n.as_str(),
            Compiled::Add(n, _) => n.as_str(),
            Compiled::Remove(n) => n.as_str(),
        }
    }

    /// Whether an incoming header of this name must not be copied through.
    fn suppresses_original(&self) -> (r: bool)
        ensures
            r == rule_suppresses(self@),
    {
        !matches!(self, Compiled::Add(_, _))
    }

    fn apply(&self, headers: &mut HeaderMap) -> (r: bool)
        requires
            rule_ok(self@),
        ensures
            has_room(*old(headers), 1) ==> r,
            r ==> header_entries(*final(headers)) == rule_applied(
                header_entries(*old(headers)),
                self@,
            ),
    {
        match self {
            Compiled::Put(n, v) => header_insert(headers, n.as_str(), v.as_slice()),
            Compiled::Add(n, v) => header_append(headers, n.as_str(), v.as_slice()),
            Compiled::Remove(n) => {
                header_remove(headers, n.as_str());
                true
            },
        }
    }
}

/// What the instructions of a list do.
spec fn rules_in(list: Seq<Compiled>) -> Seq<HeaderRule> {
    Seq::new(list.len(), |i: int| list[i]@)
}

spec fn rules_ok(rules: Seq<HeaderRule>) -> bool {
    forall|i: int| 0 <= i < rules.len() ==> rule_ok(#[trigger] rules[i])
}

fn compile_all(mods: &[HeaderModifier]) -> (r: Vec<Compiled>)
    ensures
        rules_in(r@) == rules_of(mods@),
        rules_ok(rules_in(r@)),
{
    let mut out: Vec<Compiled> = Vec::new();
    let mut i: usize = 0;
    assert(mods@.take(0) =~= Seq::empty());
    assert(rules_in(out@) =~= Seq::empty());
    while i < mods.len()
        invariant
            i <= mods@.len(),
            rules_in(out@) == rules_of(mods@.take(i as int)),
            rules_ok(rules_in(out@)),
        decreases mods@.len() - i,
    {
        assert(mods@.take(i + 1).drop_last() =~= mods@.take(i as int));
        let ghost before = out@;
        match Compiled::compile(&mods[i]) {
            Some(c) => {
                out.push(c);
                assert(rules_in(out@) =~= rules_in(before).push(c@));
            },
            None => {},
        }
        i = i + 1;
    }
    assert(mods@.take(i as int) =~= mods@);
    out
}

fn apply_all(compiled: &Vec<Compiled>, headers: &mut HeaderMap) -> (r: bool)
    requires
        rules_ok(rules_in(compiled@)),
    ensures
        has_room(*old(headers), compiled@.len() as int) ==> r,
        r ==> header_entries(*final(headers)) == rules_applied(
            header_entries(*old(headers)),
            rules_in(compiled@),
        ),
{
    let ghost before = header_entries(*headers);
    let ghost rules = rules_in(compiled@);
    let mut i: usize = 0;
    assert(rules.take(0) =~= Seq::empty());
    while i < compiled.len()
        invariant
            i <= compiled@.len(),
            rules == rules_in(compiled@),
            rules_ok(rules),
            header_entries(*headers) == rules_applied(before, rules.take(i as int)),
            has_room(*old(headers), compiled@.len() as int) ==> has_room(
                *headers,
                compiled@.len() - i,
            ),
        decreases compiled@.len() - i,
    {
        assert(rules.take(i + 1).drop_last() =~= rules.take(i as int));
        assert(rule_ok(rules[i as int]));
        let ghost now = header_entries(*headers);
        if !compiled[i].apply(headers) {
            return false;
        }
        proof {
            if now.dom().finite() {
                lemma_one_more_name(now, rules[i as int]);
            }
        }
        i = i + 1;
    }
    assert(rules.take(i as int) =~= rules);
    true
}

/// A rule adds at most one name.
proof fn lemma_one_more_name(entries: Map<Seq<char>, Seq<Seq<u8>>>, rule: HeaderRule)
    requires
        entries.dom().finite(),
    ensures
        rule_applied(entries, rule).dom().finite(),
        rule_applied(entries, rule).dom().len() <= entries.dom().len() + 1,
{
    let name = rule_name(rule);
    let after = rule_applied(entries, rule).dom();
    if rule is Remove {
        assert(after =~= entries.dom().remove(name));
    } else {
        assert(after =~= entries.dom().insert(name));
    }
}

/// A list of rules adds at most as many names as it has rules.
pub proof fn lemma_names_after_rules(
    entries: Map<Seq<char>, Seq<Seq<u8>>>,
    rules: Seq<HeaderRule>,
)
    requires
        entries.dom().finite(),
    ensures
        rules_applied(entries, rules).dom().finite(),
        rules_applied(entries, rules).dom().len() <= entries.dom().len() + rules.len(),
    decreases rules.len(),
{
    if rules.len() > 0 {
        lemma_names_after_rules(entries, rules.drop_last());
        lemma_one_more_name(rules_applied(entries, rules.drop_last()), rules.last());
    }
}

/// Emit `Put`/`Add` instructions as wire header lines.
fn write_lines(compiled: &Vec<Compiled>, out: &mut Vec<u8>)
    ensures
        final(out)@ == old(out)@ + rule_lines(rules_in(compiled@)),
{
    let ghost before = out@;
    let ghost rules = rules_in(compiled@);
    let mut i: usize = 0;
    assert(rules.take(0) =~= Seq::empty());
    assert(before + Seq::empty() =~= before);
    while i < compiled.len()
        invariant
            i <= compiled@.len(),
            rules == rules_in(compiled@),
            out@ == before + rule_lines(rules.take(i as int)),
        decreases compiled@.len() - i,
    {
        assert(rules.take(i + 1).drop_last() =~= rules.take(i as int));
        assert(rules.take(i + 1).last() == compiled@[i as int]@);
        let ghost now = out@;
        match &compiled[i] {
            Compiled::Put(n, v) => write_header_line(out, n.as_str(), v.as_slice()),
            Compiled::Add(n, v) => write_header_line(out, n.as_str(), v.as_slice()),
            Compiled::Remove(_) => {},
        }
        assert(out@ =~= now + rule_line(compiled@[i as int]@));
        assert(out@ =~= before + rule_lines(rules.take(i + 1)));
        i = i + 1;
    }
    assert(rules.take(i as int) =~= rules);
}

/// Append a header as a line of a message head.
pub fn write_header_line(out: &mut Vec<u8>, name: &str, value: &[u8])
    ensures
        final(out)@ == old(out)@ + header_line(name@, value@),
{
    let ghost before = out@;
    out.extend_from_slice(name.as_bytes());
    out.push(58);
    out.push(32);
    out.extend_from_slice(value);
    out.push(13);
    out.push(10);
    assert(out@ =~= before + header_line(name@, value@));
}

#[derive(Debug)]
struct Pipeline {
    request_headers: Vec<Compiled>,
    response_headers: Vec<Compiled>,
    url_rewrite: Option<UrlRewrite>,
}

/// A route's filter pipeline.
///
/// `None` inside means "no filters", which is the common case and costs a null
/// check rather than iterating empty vectors. Cloning shares the compiled
/// pipeline, so expanding one route into several patterns is free.
#[derive(Debug)]
pub struct RouteFilters {
    inner: Option<Arc<Pipeline>>,
}

impl View for RouteFilters {
    type V = Filters;

    closed spec fn view(&self) -> Filters {
        match self.inner {
            None => no_filters(),
            Some(p) => Filters {
                request: rules_in(p.request_headers@),
                response: rules_in(p.response_headers@),
                rewrite: rewrite_of(p.url_rewrite),
            },
        }
    }
}

impl Default for RouteFilters {
    fn default() -> (r: Self)
        ensures
            r@ == no_filters(),
    {
        Self { inner: None }
    }
}

impl Clone for RouteFilters {
    fn clone(&self) -> (r: Self)
        ensures
            r == *self,
    {
        proof {
            use_type_invariant(self);
        }
        Self {
            inner: match &self.inner {
                Some(p) => Some(share(p)),
                None => None,
            },
        }
    }
}

impl RouteFilters {
    /// Every rule is valid, and a pipeline that is there does something.
    #[verifier::type_invariant]
    spec fn well_formed(&self) -> bool {
        match self.inner {
            None => true,
            Some(p) => {
                &&& rules_ok(rules_in(p.request_headers@))
                &&& rules_ok(rules_in(p.response_headers@))
                &&& p.request_headers@.len() > 0 || p.response_headers@.len() > 0
                    || p.url_rewrite is Some
            },
        }
    }

    /// Compile a set of filters. Modifiers that are not valid HTTP header names
    /// or values are dropped rather than failing the reconcile.
    #[must_use]
    pub fn new(
        request_headers: &[HeaderModifier],
        response_headers: &[HeaderModifier],
        url_rewrite: Option<UrlRewrite>,
    ) -> (r: Self)
        ensures
            r@.request == rules_of(request_headers@),
            r@.response == rules_of(response_headers@),
            r@.rewrite == rewrite_of(url_rewrite),
    {
        let request_headers = compile_all(request_headers);
        let response_headers = compile_all(response_headers);
        if request_headers.is_empty() && response_headers.is_empty() && url_rewrite.is_none() {
            assert(rules_in(request_headers@) =~= Seq::empty());
            assert(rules_in(response_headers@) =~= Seq::empty());
            return Self { inner: None };
        }
        Self { inner: Some(Arc::new(Pipeline { request_headers, response_headers, url_rewrite })) }
    }

    /// Whether two handles share one compiled pipeline, as a clone and its origin do.
    /// What is shared is the same; where a pipeline lies in memory is not stated.
    #[must_use]
    pub fn shares_pipeline_with(&self, other: &Self) -> (r: bool)
        ensures
            r ==> self@ == other@,
            self@ == no_filters() || other@ == no_filters() ==> (r <==> self@ == other@),
    {
        proof {
            use_type_invariant(self);
            use_type_invariant(other);
            if let Some(p) = &self.inner {
                assert(rules_in(p.request_headers@).len() == p.request_headers@.len());
                assert(rules_in(p.response_headers@).len() == p.response_headers@.len());
            }
            if let Some(p) = &other.inner {
                assert(rules_in(p.request_headers@).len() == p.request_headers@.len());
                assert(rules_in(p.response_headers@).len() == p.response_headers@.len());
            }
        }
        match (&self.inner, &other.inner) {
            (Some(a), Some(b)) => same_allocation(a, b),
            (None, None) => true,
            _ => false,
        }
    }

    /// True when this route has no filters at all, so callers can skip the
    /// header-map borrow entirely.
    #[must_use]
    pub fn is_noop(&self) -> (r: bool)
        ensures
            r == (self@ == no_filters()),
    {
        proof {
            use_type_invariant(self);
            match &self.inner {
                None => {},
                Some(p) => {
                    assert(rules_in(p.request_headers@).len() == p.request_headers@.len());
                    assert(rules_in(p.response_headers@).len() == p.response_headers@.len());
                },
            }
        }
        self.inner.is_none()
    }

    /// True when this route rewrites the request path.
    #[must_use]
    pub fn rewrites_path(&self) -> (r: bool)
        ensures
            r == self@.rewrite is Some,
    {
        match &self.inner {
            Some(p) => p.url_rewrite.is_some(),
            None => false,
        }
    }

    /// Number of request header modifications.
    #[must_use]
    pub fn request_rules(&self) -> (r: usize)
        ensures
            r == self@.request.len(),
    {
        match &self.inner {
            Some(p) => p.request_headers.len(),
            None => 0,
        }
    }

    /// Number of response header modifications.
    #[must_use]
    pub fn response_rules(&self) -> (r: usize)
        ensures
            r == self@.response.len(),
    {
        match &self.inner {
            Some(p) => p.response_headers.len(),
            None => 0,
        }
    }

    /// Apply request header modifications in place.
    pub fn apply_request_headers(&self, headers: &mut HeaderMap)
        requires
            has_room(*old(headers), self@.request.len() as int),
        ensures
            header_entries(*final(headers)) == rules_applied(
                header_entries(*old(headers)),
                self@.request,
            ),
    {
        let _done = self.try_request_headers(headers);
    }

    /// [`Self::apply_request_headers`] on a map that may be too full to take them: whether
    /// it took all of them.
    pub(crate) fn try_request_headers(&self, headers: &mut HeaderMap) -> (r: bool)
        ensures
            has_room(*old(headers), self@.request.len() as int) ==> r,
            r ==> header_entries(*final(headers)) == rules_applied(
                header_entries(*old(headers)),
                self@.request,
            ),
    {
        proof {
            use_type_invariant(self);
        }
        match &self.inner {
            Some(p) => apply_all(&p.request_headers, headers),
            None => true,
        }
    }

    /// Apply response header modifications in place.
    pub fn apply_response_headers(&self, headers: &mut HeaderMap)
        requires
            has_room(*old(headers), self@.response.len() as int),
        ensures
            header_entries(*final(headers)) == rules_applied(
                header_entries(*old(headers)),
                self@.response,
            ),
    {
        let _done = self.try_response_headers(headers);
    }

    /// [`Self::apply_response_headers`] on a map that may be too full to take them: whether
    /// it took all of them.
    pub(crate) fn try_response_headers(&self, headers: &mut HeaderMap) -> (r: bool)
        ensures
            has_room(*old(headers), self@.response.len() as int) ==> r,
            r ==> header_entries(*final(headers)) == rules_applied(
                header_entries(*old(headers)),
                self@.response,
            ),
    {
        proof {
            use_type_invariant(self);
        }
        match &self.inner {
            Some(p) => apply_all(&p.response_headers, headers),
            None => true,
        }
    }

    /// Apply the URL rewrite to an incoming path.
    #[must_use]
    pub fn apply_url_rewrite(&self, path: &str) -> (r: String)
        ensures
            r@ == rewritten(self@.rewrite, path@),
    {
        let rewrite = match &self.inner {
            Some(p) => match &p.url_rewrite {
                Some(rewrite) => rewrite,
                None => return path.to_owned(),
            },
            None => return path.to_owned(),
        };
        match rewrite {
            UrlRewrite::Exact(exact) => exact.clone(),
            UrlRewrite::Prefix { prefix, replacement } => match strip_prefix(
                path,
                prefix.as_str(),
            ) {
                Some(rest) => {
                    let mut out = trim_end_matches(replacement.as_str(), '/');
                    let ghost base = out@;
                    // "/api" + "/api/v1" -> "/v1"; "/api" + "/api" -> "/".
                    // Both sides are normalised so a replacement of "/" and a
                    // remainder of "/users" cannot produce "//users".
                    if rest.as_str().is_empty() {
                        if out.as_str().is_empty() {
                            out.push('/');
                        }
                    } else {
                        proof {
                            reveal_strlit("/");
                        }
                        if !starts_with(rest.as_str(), "/") {
                            out.push('/');
                        }
                        assert(begins_with(rest@, "/"@) == (rest@[0] == '/')) by {
                            if rest@[0] == '/' {
                                assert(rest@.take(1) =~= "/"@);
                            } else {
                                assert(rest@.take(1)[0] != "/"@[0]);
                            }
                        }
                        out.append(rest.as_str());
                    }
                    assert(out@ =~= base + rewrite_tail(base, rest@));
                    out
                },
                None => path.to_owned(),
            },
        }
    }

    /// Whether a request header arriving with this name must be dropped rather
    /// than copied to the upstream.
    ///
    /// Data planes that rewrite headers as bytes cannot use
    /// [`Self::apply_request_headers`], which needs a `HeaderMap`. They copy the
    /// incoming head through, skipping names this reports, and then append
    /// [`Self::write_request_headers`].
    #[must_use]
    pub fn request_suppresses(&self, name: &str) -> (r: bool)
        ensures
            r == rules_suppress(self@.request, name@),
    {
        match &self.inner {
            Some(p) => any_suppresses(&p.request_headers, name),
            None => false,
        }
    }

    /// Response-side counterpart of [`Self::request_suppresses`].
    #[must_use]
    pub fn response_suppresses(&self, name: &str) -> (r: bool)
        ensures
            r == rules_suppress(self@.response, name@),
    {
        match &self.inner {
            Some(p) => any_suppresses(&p.response_headers, name),
            None => false,
        }
    }

    /// Append this filter set's request header lines, CRLF-terminated.
    pub fn write_request_headers(&self, out: &mut Vec<u8>)
        ensures
            final(out)@ == old(out)@ + rule_lines(self@.request),
    {
        match &self.inner {
            Some(p) => write_lines(&p.request_headers, out),
            None => {
                assert(out@ + rule_lines(self@.request) =~= out@);
            },
        }
    }

    /// Append this filter set's response header lines, CRLF-terminated.
    pub fn write_response_headers(&self, out: &mut Vec<u8>)
        ensures
            final(out)@ == old(out)@ + rule_lines(self@.response),
    {
        match &self.inner {
            Some(p) => write_lines(&p.response_headers, out),
            None => {
                assert(out@ + rule_lines(self@.response) =~= out@);
            },
        }
    }
}

fn any_suppresses(compiled: &Vec<Compiled>, name: &str) -> (r: bool)
    ensures
        r == rules_suppress(rules_in(compiled@), name@),
{
    let ghost rules = rules_in(compiled@);
    let mut i: usize = 0;
    while i < compiled.len()
        invariant
            i <= compiled@.len(),
            rules == rules_in(compiled@),
            forall|k: int|
                0 <= k < i ==> !(rule_suppresses(#[trigger] rules[k]) && same_ignoring_case(
                    rule_name(rules[k]),
                    name@,
                )),
        decreases compiled@.len() - i,
    {
        assert(rules[i as int] == compiled@[i as int]@);
        if compiled[i].suppresses_original() && eq_ignore_case(compiled[i].name(), name) {
            return true;
        }
        i = i + 1;
    }
    false
}

/// A pipeline without filters leaves headers and path alone.
pub proof fn lemma_no_filters_touch_nothing(
    entries: Map<Seq<char>, Seq<Seq<u8>>>,
    path: Seq<char>,
    name: Seq<char>,
)
    ensures
        rules_applied(entries, no_filters().request) == entries,
        rules_applied(entries, no_filters().response) == entries,
        rewritten(no_filters().rewrite, path) == path,
        !rules_suppress(no_filters().request, name),
        !rules_suppress(no_filters().response, name),
        rule_lines(no_filters().request) == Seq::<u8>::empty(),
        rule_lines(no_filters().response) == Seq::<u8>::empty(),
{
}

/// Rules touch no header but those they name.
pub proof fn lemma_other_headers_untouched(
    entries: Map<Seq<char>, Seq<Seq<u8>>>,
    rules: Seq<HeaderRule>,
    name: Seq<char>,
)
    requires
        forall|i: int| 0 <= i < rules.len() ==> rule_name(#[trigger] rules[i]) != name,
    ensures
        rules_applied(entries, rules).contains_key(name) == entries.contains_key(name),
        entries.contains_key(name) ==> rules_applied(entries, rules)[name] == entries[name],
    decreases rules.len(),
{
    if rules.len() > 0 {
        let init = rules.drop_last();
        assert forall|i: int| 0 <= i < init.len() implies rule_name(#[trigger] init[i]) != name by {
            assert(init[i] == rules[i]);
        }
        lemma_other_headers_untouched(entries, init, name);
        assert(rule_name(rules[rules.len() - 1]) != name);
    }
}

/// The last rule that names a header decides: after `Put` it has the one value,
/// after `Remove` none, and after `Add` one more than before.
pub proof fn lemma_last_rule_decides(
    entries: Map<Seq<char>, Seq<Seq<u8>>>,
    rules: Seq<HeaderRule>,
)
    requires
        rules.len() > 0,
    ensures
        ({
            let before = rules_applied(entries, rules.drop_last());
            let after = rules_applied(entries, rules);
            let name = rule_name(rules.last());
            match rules.last() {
                HeaderRule::Put(_, value) => values_of(after, name) == seq![value],
                HeaderRule::Add(_, value) => values_of(after, name) == values_of(
                    before,
                    name,
                ).push(value),
                HeaderRule::Remove(_) => values_of(after, name) == Seq::<Seq<u8>>::empty(),
            }
        }),
{
}

/// A matched prefix is replaced so that replacement and remainder meet in one
/// slash: the replacement is cut before its trailing slashes, and what follows
/// it is empty or starts with a slash that the remainder had or that was put in.
pub proof fn lemma_prefix_rewrite_joins_with_one_slash(
    prefix: Seq<char>,
    replacement: Seq<char>,
    rest: Seq<char>,
)
    ensures
        ({
            let base = without_trailing(replacement, '/');
            let tail = rewrite_tail(base, rest);
            &&& rewritten(Some(Rewrite::Prefix(prefix, replacement)), prefix + rest) == base + tail
            &&& base.len() == 0 || base.last() != '/'
            &&& tail.len() == 0 || tail[0] == '/'
            &&& base.len() + tail.len() > 0
            &&& tail.len() > 1 && tail[1] == '/' ==> rest.len() > 1 && rest[0] == '/' && rest[1]
                == '/'
        }),
{
    let path = prefix + rest;
    assert(path.take(prefix.len() as int) =~= prefix);
    assert(path.skip(prefix.len() as int) =~= rest);
    lemma_without_trailing(replacement, '/');
}

proof fn lemma_without_trailing(s: Seq<char>, c: char)
    ensures
        without_trailing(s, c).len() == 0 || without_trailing(s, c).last() != c,
    decreases s.len(),
{
    if s.len() > 0 && s.last() == c {
        lemma_without_trailing(s.drop_last(), c);
    }
}

/// The headers that a list of rules adds to a message head, in order.
pub open spec fn rule_headers(rules: Seq<HeaderRule>) -> Seq<(Seq<char>, Seq<u8>)>
    decreases rules.len(),
{
    if rules.len() == 0 {
        Seq::empty()
    } else {
        let before = rule_headers(rules.drop_last());
        match rules.last() {
            HeaderRule::Put(name, value) => before.push((name, value)),
            HeaderRule::Add(name, value) => before.push((name, value)),
            HeaderRule::Remove(_) => before,
        }
    }
}

/// Headers as lines of a message head.
pub open spec fn header_lines_of(headers: Seq<(Seq<char>, Seq<u8>)>) -> Seq<u8>
    decreases headers.len(),
{
    if headers.len() == 0 {
        Seq::empty()
    } else {
        header_lines_of(headers.drop_last()) + header_line(headers.last().0, headers.last().1)
    }
}

/// The values of a name among headers, in order.
pub open spec fn values_among(headers: Seq<(Seq<char>, Seq<u8>)>, name: Seq<char>) -> Seq<Seq<u8>>
    decreases headers.len(),
{
    if headers.len() == 0 {
        Seq::empty()
    } else {
        let before = values_among(headers.drop_last(), name);
        if headers.last().0 == name {
            before.push(headers.last().1)
        } else {
            before
        }
    }
}

/// The values of a name in a head that is rewritten as bytes: what came in, unless the
/// rules suppress it, and behind it what the rules' lines add.
pub open spec fn copied_through(
    entries: Map<Seq<char>, Seq<Seq<u8>>>,
    rules: Seq<HeaderRule>,
    name: Seq<char>,
) -> Seq<Seq<u8>> {
    (if rules_suppress(rules, name) {
        Seq::empty()
    } else {
        values_of(entries, name)
    }) + values_among(rule_headers(rules), name)
}

/// Whether no two rules act on one name.
pub open spec fn names_differ(rules: Seq<HeaderRule>) -> bool {
    forall|i: int, j: int|
        0 <= i < j < rules.len() ==> rule_name(#[trigger] rules[i]) != rule_name(
            #[trigger] rules[j],
        )
}

proof fn lemma_rules_are_ok(modifiers: Seq<HeaderModifier>)
    ensures
        forall|i: int|
            0 <= i < rules_of(modifiers).len() ==> rule_ok(#[trigger] rules_of(modifiers)[i]),
    decreases modifiers.len(),
{
    if modifiers.len() > 0 {
        lemma_rules_are_ok(modifiers.drop_last());
        let before = rules_of(modifiers.drop_last());
        assert forall|i: int| 0 <= i < rules_of(modifiers).len() implies rule_ok(
            #[trigger] rules_of(modifiers)[i],
        ) by {
            if i < before.len() {
                assert(rules_of(modifiers)[i] == before[i]);
            }
        }
    }
}

proof fn lemma_canonical_is_lower(name: Seq<char>)
    requires
        is_canonical(name),
    ensures
        lower_text(name) == name,
{
    let raw = choose|raw: Seq<u8>| #[trigger] is_header_name(raw) && name == canonical_name(raw);
    assert forall|i: int| 0 <= i < name.len() implies #[trigger] lower_text(name)[i] == name[i] by {
        assert(name[i] == lower(raw[i] as char));
    }
    assert(lower_text(name) =~= name);
}

/// Data planes that rewrite heads as bytes and those that go by a header map agree:
/// for modifiers that name each header once, copying a head through without the names
/// that are suppressed, and then appending the filters' lines, gives every header the
/// values that applying the filters to a map gives it.
pub proof fn lemma_byte_form_agrees_with_map_form(
    entries: Map<Seq<char>, Seq<Seq<u8>>>,
    modifiers: Seq<HeaderModifier>,
    name: Seq<char>,
)
    requires
        names_differ(rules_of(modifiers)),
        is_canonical(name),
    ensures
        copied_through(entries, rules_of(modifiers), name) == values_of(
            rules_applied(entries, rules_of(modifiers)),
            name,
        ),
        rule_lines(rules_of(modifiers)) == header_lines_of(rule_headers(rules_of(modifiers))),
{
    lemma_rules_are_ok(modifiers);
    lemma_rule_forms_agree(entries, rules_of(modifiers), name);
}

proof fn lemma_rule_forms_agree(
    entries: Map<Seq<char>, Seq<Seq<u8>>>,
    rules: Seq<HeaderRule>,
    name: Seq<char>,
)
    requires
        names_differ(rules),
        forall|i: int| 0 <= i < rules.len() ==> rule_ok(#[trigger] rules[i]),
        is_canonical(name),
    ensures
        copied_through(entries, rules, name) == values_of(rules_applied(entries, rules), name),
        rule_lines(rules) == header_lines_of(rule_headers(rules)),
        (forall|i: int| 0 <= i < rules.len() ==> rule_name(#[trigger] rules[i]) != name) ==> {
            &&& !rules_suppress(rules, name)
            &&& values_among(rule_headers(rules), name) == Seq::<Seq<u8>>::empty()
        },
    decreases rules.len(),
{
    lemma_canonical_is_lower(name);
    if rules.len() == 0 {
        assert(copied_through(entries, rules, name) =~= values_of(entries, name));
    } else {
        let init = rules.drop_last();
        let last = rules.last();
        assert forall|i: int| 0 <= i < init.len() implies rule_ok(#[trigger] init[i]) by {
            assert(init[i] == rules[i]);
        }
        assert forall|i: int, j: int| 0 <= i < j < init.len() implies rule_name(
            #[trigger] init[i],
        ) != rule_name(#[trigger] init[j]) by {
            assert(init[i] == rules[i] && init[j] == rules[j]);
        }
        lemma_rule_forms_agree(entries, init, name);
        assert(rule_ok(rules[rules.len() - 1]));
        lemma_canonical_is_lower(rule_name(last));
        assert(rules_suppress(rules, name) == (rules_suppress(init, name) || rule_suppresses(last)
            && rule_name(last) == name)) by {
            if rules_suppress(init, name) {
                let i = choose|i: int|
                    0 <= i < init.len() && rule_suppresses(#[trigger] init[i])
                        && same_ignoring_case(rule_name(init[i]), name);
                assert(rules[i] == init[i]);
            }
            if rules_suppress(rules, name) {
                let i = choose|i: int|
                    0 <= i < rules.len() && rule_suppresses(#[trigger] rules[i])
                        && same_ignoring_case(rule_name(rules[i]), name);
                if i < init.len() {
                    assert(rules[i] == init[i]);
                }
            }
            if rule_suppresses(last) && rule_name(last) == name {
                assert(rules[rules.len() - 1] == last);
            }
        }
        match last {
            HeaderRule::Put(n, v) => {
                assert(rule_headers(rules).drop_last() =~= rule_headers(init));
            },
            HeaderRule::Add(n, v) => {
                assert(rule_headers(rules).drop_last() =~= rule_headers(init));
            },
            HeaderRule::Remove(_) => {
                assert(rule_lines(rules) =~= rule_lines(init));
            },
        }
        let here = values_of(rules_applied(entries, rules), name);
        if rule_name(last) == name {
            assert forall|i: int| 0 <= i < init.len() implies rule_name(#[trigger] init[i])
                != name by {
                assert(init[i] == rules[i]);
                assert(rules[rules.len() - 1] == last);
            }
            lemma_other_headers_untouched(entries, init, name);
            assert(copied_through(entries, rules, name) =~= here);
        } else {
            assert(here == values_of(rules_applied(entries, init), name));
            assert(copied_through(entries, rules, name) =~= copied_through(entries, init, name));
        }
        if forall|i: int| 0 <= i < rules.len() ==> rule_name(#[trigger] rules[i]) != name {
            assert(rule_name(rules[rules.len() - 1]) != name);
            assert forall|i: int| 0 <= i < init.len() implies rule_name(#[trigger] init[i])
                != name by {
                assert(init[i] == rules[i]);
            }
        }
    }
}

} // verus!
