//! HTTP forwarding hygiene shared by every data plane.
//!
//! RFC 9110 §7.6.1 requires an intermediary to remove hop-by-hop headers before
//! forwarding. Passing them through is both a correctness bug (an upstream can
//! see a `Connection: close` meant for the proxy and drop a pooled connection)
//! and a benchmark-fairness bug: a proxy that does not strip them does strictly
//! less work per request than one that does.

use http::header::HeaderMap;
use vstd::prelude::*;
use vstd::utf8::encode_utf8;

use crate::lb_core::headers::{
    ascii_text, byte_strings, canonical_name, has_room, header_entries, header_get,
    header_get_all, header_insert, header_remove, is_canonical, is_header_name, is_header_value,
    is_valid_header_value, is_visible_value, lemma_canonical, parse_header_name, value_text,
    values_of,
};
use crate::text::{eq_ignore_case, pieces, same_ignoring_case, split, texts, trim, trimmed};

verus! {

/// `X-Forwarded-For`, added by every proxy so the comparison is like-for-like.
pub const FORWARDED_FOR: &'static str = "x-forwarded-for";

/// `X-Forwarded-Proto`.
pub const FORWARDED_PROTO: &'static str = "x-forwarded-proto";

/// `Connection`, whose value names further headers that must be dropped too.
pub const CONNECTION: &'static str = "connection";

/// Headers that must never be forwarded across a proxy hop.
///
/// `Connection` itself is handled separately because its *value* names further
/// headers that must also be dropped; see [`connection_nominated`].
pub const HOP_BY_HOP: [&'static str; 7] = [
    "keep-alive",
    "proxy-authenticate",
    "proxy-authorization",
    "proxy-connection",
    "te",
    "trailer",
    "upgrade",
];

/// Whether a token of a `Connection` value names a header. `close` and
/// `keep-alive` are connection dispositions, not header names.
pub open spec fn nominates(token: Seq<char>) -> bool {
    &&& token.len() > 0
    &&& !same_ignoring_case(token, "close"@)
    &&& !same_ignoring_case(token, "keep-alive"@)
    &&& is_header_name(encode_utf8(token))
}

/// The header names that a list of `Connection` tokens nominates.
pub open spec fn nominated_tokens(tokens: Seq<Seq<char>>) -> Seq<Seq<char>>
    decreases tokens.len(),
{
    if tokens.len() == 0 {
        Seq::empty()
    } else {
        let token = trimmed(tokens.last());
        let before = nominated_tokens(tokens.drop_last());
        if nominates(token) {
            before.push(canonical_name(encode_utf8(token)))
        } else {
            before
        }
    }
}

/// The header names that one `Connection` value nominates.
pub open spec fn nominated_by(value: Seq<char>) -> Seq<Seq<char>> {
    nominated_tokens(pieces(value, ','))
}

/// The header names that a list of `Connection` values nominates. A value that
/// does not read as text nominates none.
pub open spec fn nominated_by_all(values: Seq<Seq<u8>>) -> Seq<Seq<char>>
    decreases values.len(),
{
    if values.len() == 0 {
        Seq::empty()
    } else if is_visible_value(values.last()) {
        nominated_by_all(values.drop_last()) + nominated_by(ascii_text(values.last()))
    } else {
        nominated_by_all(values.drop_last())
    }
}

/// Whether a name is one of [`HOP_BY_HOP`].
pub open spec fn is_hop_by_hop(name: Seq<char>) -> bool {
    exists|i: int| 0 <= i < 7 && #[trigger] HOP_BY_HOP@[i]@ == name
}

/// Whether a header of this name stays on this side of the proxy.
pub open spec fn stays_behind(
    entries: Map<Seq<char>, Seq<Seq<u8>>>,
    name: Seq<char>,
) -> bool {
    ||| name == CONNECTION@
    ||| is_hop_by_hop(name)
    ||| nominated_by_all(values_of(entries, CONNECTION@)).contains(name)
}

/// Header entries without those that stay on this side of the proxy.
pub open spec fn stripped(
    entries: Map<Seq<char>, Seq<Seq<u8>>>,
) -> Map<Seq<char>, Seq<Seq<u8>>> {
    entries.remove_keys(Set::new(|name: Seq<char>| stays_behind(entries, name)))
}

/// The `X-Forwarded-For` value that continues `existing` with `peer`.
pub open spec fn forwarded_chain(existing: Seq<Seq<u8>>, peer: Seq<char>) -> Seq<u8> {
    if existing.len() > 0 && is_visible_value(existing[0]) {
        existing[0] + seq![44u8, 32u8] + encode_utf8(peer)
    } else {
        encode_utf8(peer)
    }
}

/// Header entries with `peer` appended to the `X-Forwarded-For` chain.
pub open spec fn with_forwarded_for(
    entries: Map<Seq<char>, Seq<Seq<u8>>>,
    peer: Seq<char>,
) -> Map<Seq<char>, Seq<Seq<u8>>> {
    let chain = forwarded_chain(values_of(entries, FORWARDED_FOR@), peer);
    if is_header_value(chain) {
        entries.insert(FORWARDED_FOR@, seq![chain])
    } else {
        entries
    }
}

/// The names that the proxy uses are header names.
pub proof fn lemma_own_names()
    ensures
        is_canonical(FORWARDED_FOR@),
        is_canonical(FORWARDED_PROTO@),
        is_canonical(CONNECTION@),
        is_canonical("host"@),
        forall|i: int| 0 <= i < 7 ==> is_canonical(#[trigger] HOP_BY_HOP@[i]@),
{
    reveal_strlit("x-forwarded-for");
    reveal_strlit("x-forwarded-proto");
    reveal_strlit("connection");
    reveal_strlit("host");
    reveal_strlit("keep-alive");
    reveal_strlit("proxy-authenticate");
    reveal_strlit("proxy-authorization");
    reveal_strlit("proxy-connection");
    reveal_strlit("te");
    reveal_strlit("trailer");
    reveal_strlit("upgrade");
    lemma_canonical("x-forwarded-for"@);
    lemma_canonical("x-forwarded-proto"@);
    lemma_canonical("connection"@);
    lemma_canonical("host"@);
    lemma_canonical("keep-alive"@);
    lemma_canonical("proxy-authenticate"@);
    lemma_canonical("proxy-authorization"@);
    lemma_canonical("proxy-connection"@);
    lemma_canonical("te"@);
    lemma_canonical("trailer"@);
    lemma_canonical("upgrade"@);
    assert forall|i: int| 0 <= i < 7 implies is_canonical(#[trigger] HOP_BY_HOP@[i]@) by {
        if i == 0 {
        } else if i == 1 {
        } else if i == 2 {
        } else if i == 3 {
        } else if i == 4 {
        } else if i == 5 {
        }
    }
}

proof fn lemma_nominated_canonical(tokens: Seq<Seq<char>>)
    ensures
        forall|i: int|
            0 <= i < nominated_tokens(tokens).len() ==> is_canonical(
                #[trigger] nominated_tokens(tokens)[i],
            ),
    decreases tokens.len(),
{
    if tokens.len() > 0 {
        let before = nominated_tokens(tokens.drop_last());
        lemma_nominated_canonical(tokens.drop_last());
        assert forall|i: int| 0 <= i < nominated_tokens(tokens).len() implies is_canonical(
            #[trigger] nominated_tokens(tokens)[i],
        ) by {
            if i < before.len() {
                assert(is_canonical(before[i]));
            } else {
                assert(is_header_name(encode_utf8(trimmed(tokens.last()))));
            }
        }
    }
}

proof fn lemma_all_nominated_canonical(values: Seq<Seq<u8>>)
    ensures
        forall|i: int|
            0 <= i < nominated_by_all(values).len() ==> is_canonical(
                #[trigger] nominated_by_all(values)[i],
            ),
    decreases values.len(),
{
    if values.len() > 0 {
        let before = nominated_by_all(values.drop_last());
        let last = nominated_by(ascii_text(values.last()));
        lemma_all_nominated_canonical(values.drop_last());
        lemma_nominated_canonical(pieces(ascii_text(values.last()), ','));
        assert forall|i: int| 0 <= i < nominated_by_all(values).len() implies is_canonical(
            #[trigger] nominated_by_all(values)[i],
        ) by {
            if i < before.len() {
                assert(is_canonical(before[i]));
            } else {
                assert(is_canonical(last[i - before.len()]));
            }
        }
    }
}

/// Remove hop-by-hop headers from a header map in place.
///
/// Also honours `Connection: <header-name>, ...`, which nominates additional
/// headers as hop-by-hop for this connection only.
///
/// `Transfer-Encoding` is deliberately *not* removed here: the HTTP library
/// owns framing, and stripping it would desynchronise chunked bodies.
pub fn strip_hop_by_hop(headers: &mut HeaderMap)
    ensures
        header_entries(*final(headers)) == stripped(header_entries(*old(headers))),
{
    let ghost before = header_entries(*headers);
    // Collect names listed by `Connection` before removing the header itself.
    let nominated = connection_nominated(headers);
    proof {
        lemma_own_names();
        lemma_all_nominated_canonical(values_of(before, CONNECTION@));
    }
    let ghost listed = nominated_by_all(values_of(before, CONNECTION@));
    header_remove(headers, CONNECTION);
    let ghost mut gone: Set<Seq<char>> = Set::empty().insert(CONNECTION@);
    assert(before.remove(CONNECTION@) =~= before.remove_keys(gone));
    let mut i: usize = 0;
    while i < 7
        invariant
            i <= 7,
            forall|k: int| 0 <= k < 7 ==> is_canonical(#[trigger] HOP_BY_HOP@[k]@),
            header_entries(*headers) == before.remove_keys(gone),
            forall|name: Seq<char>| #[trigger]
                gone.contains(name) <==> (name == CONNECTION@ || exists|k: int|
                    0 <= k < i && #[trigger] HOP_BY_HOP@[k]@ == name),
        decreases 7 - i,
    {
        let name = HOP_BY_HOP[i];
        header_remove(headers, name);
        proof {
            assert(before.remove_keys(gone).remove(name@) =~= before.remove_keys(
                gone.insert(name@),
            ));
            gone = gone.insert(name@);
            assert(HOP_BY_HOP@[i as int]@ == name@);
        }
        i = i + 1;
    }
    let mut j: usize = 0;
    while j < nominated.len()
        invariant
            j <= nominated@.len(),
            texts(nominated@) == listed,
            forall|k: int| 0 <= k < listed.len() ==> is_canonical(#[trigger] listed[k]),
            header_entries(*headers) == before.remove_keys(gone),
            forall|name: Seq<char>| #[trigger]
                gone.contains(name) <==> (name == CONNECTION@ || is_hop_by_hop(name) || exists|
                    k: int,
                |
                    0 <= k < j && #[trigger] listed[k] == name),
        decreases nominated@.len() - j,
    {
        let name = nominated[j].as_str();
        assert(name@ == listed[j as int]);
        header_remove(headers, name);
        proof {
            assert(before.remove_keys(gone).remove(name@) =~= before.remove_keys(
                gone.insert(name@),
            ));
            gone = gone.insert(name@);
        }
        j = j + 1;
    }
    proof {
        let all = Set::new(|name: Seq<char>| stays_behind(before, name));
        assert forall|name: Seq<char>| #[trigger] gone.contains(name) <==> all.contains(name) by {
            if listed.contains(name) {
                let k = choose|k: int| 0 <= k < listed.len() && listed[k] == name;
                assert(listed[k] == name);
            }
        }
        assert(gone =~= all);
    }
}

/// Header names nominated as hop-by-hop by a `Connection` header's value.
///
/// `Connection: keep-alive, x-trace-id` makes `x-trace-id` hop-by-hop for this
/// connection only. The `close` and `keep-alive` tokens are connection
/// dispositions, not header names, and are excluded.
#[must_use]
pub fn connection_nominated(headers: &HeaderMap) -> (r: Vec<String>)
    ensures
        texts(r@) == nominated_by_all(values_of(header_entries(*headers), CONNECTION@)),
{
    proof {
        lemma_own_names();
    }
    let values = header_get_all(headers, CONNECTION);
    let ghost all = byte_strings(values@);
    let mut nominated: Vec<String> = Vec::new();
    let mut i: usize = 0;
    assert(all.take(0) =~= Seq::empty());
    assert(texts(nominated@) =~= Seq::empty());
    while i < values.len()
        invariant
            i <= values@.len(),
            all == byte_strings(values@),
            texts(nominated@) == nominated_by_all(all.take(i as int)),
        decreases values@.len() - i,
    {
        assert(all.take(i + 1).drop_last() =~= all.take(i as int));
        match value_text(values[i].as_slice()) {
            Some(text) => {
                let ghost before = nominated@;
                let mut more = nominated_from_value(text.as_str());
                let ghost added = more@;
                nominated.append(&mut more);
                assert(texts(nominated@) =~= texts(before) + texts(added));
            },
            None => {},
        }
        i = i + 1;
    }
    assert(all.take(i as int) =~= all);
    nominated
}

/// Parse one `Connection` header value into the header names it nominates.
#[must_use]
pub fn nominated_from_value(value: &str) -> (r: Vec<String>)
    ensures
        texts(r@) == nominated_by(value@),
{
    let tokens = split(value, ',');
    let ghost all = texts(tokens@);
    let mut names: Vec<String> = Vec::new();
    let mut i: usize = 0;
    assert(all.take(0) =~= Seq::empty());
    assert(texts(names@) =~= Seq::empty());
    while i < tokens.len()
        invariant
            i <= tokens@.len(),
            all == texts(tokens@),
            texts(names@) == nominated_tokens(all.take(i as int)),
        decreases tokens@.len() - i,
    {
        assert(all.take(i + 1).drop_last() =~= all.take(i as int));
        assert(all.take(i + 1).last() == tokens@[i as int]@);
        let token = trim(tokens[i].as_str());
        let text = token.as_str();
        if !text.is_empty() && !eq_ignore_case(text, "close") && !eq_ignore_case(
            text,
            "keep-alive",
        ) {
            match parse_header_name(text.as_bytes()) {
                Some(name) => {
                    let ghost before = names@;
                    names.push(name);
                    assert(texts(names@) =~= texts(before).push(name@));
                },
                None => {},
            }
        }
        i = i + 1;
    }
    assert(all.take(i as int) =~= all);
    names
}

/// Append `peer` to `X-Forwarded-For`, preserving the chain that is there.
pub fn append_forwarded_for(headers: &mut HeaderMap, peer: &str)
    requires
        has_room(*old(headers), 1),
    ensures
        header_entries(*final(headers)) == with_forwarded_for(header_entries(*old(headers)), peer@),
{
    let _done = try_forwarded_for(headers, peer);
}

/// [`append_forwarded_for`] on a map that may be too full to take it: whether it did.
pub(crate) fn try_forwarded_for(headers: &mut HeaderMap, peer: &str) -> (r: bool)
    ensures
        has_room(*old(headers), 1) ==> r,
        r ==> header_entries(*final(headers)) == with_forwarded_for(
            header_entries(*old(headers)),
            peer@,
        ),
{
    proof {
        lemma_own_names();
    }
    let mut chain: Vec<u8> = Vec::new();
    let ghost existing = values_of(header_entries(*headers), FORWARDED_FOR@);
    match header_get(headers, FORWARDED_FOR) {
        Some(value) => {
            if value_text(value.as_slice()).is_some() {
                chain = value;
                chain.push(44);
                chain.push(32);
                assert(chain@ =~= existing[0] + seq![44u8, 32u8]);
            }
        },
        None => {},
    }
    let ghost start = chain@;
    chain.extend_from_slice(peer.as_bytes());
    assert(chain@ =~= start + encode_utf8(peer@));
    assert(chain@ =~= forwarded_chain(existing, peer@));
    if is_valid_header_value(chain.as_slice()) {
        header_insert(headers, FORWARDED_FOR, chain.as_slice())
    } else {
        true
    }
}

/// Set `X-Forwarded-Proto`.
pub fn set_forwarded_proto(headers: &mut HeaderMap, proto: &'static str)
    requires
        has_room(*old(headers), 1),
        is_visible_value(encode_utf8(proto@)),
    ensures
        header_entries(*final(headers)) == header_entries(*old(headers)).insert(
            FORWARDED_PROTO@,
            seq![encode_utf8(proto@)],
        ),
{
    let _done = try_forwarded_proto(headers, proto);
}

/// [`set_forwarded_proto`] on a map that may be too full to take it: whether it did.
pub(crate) fn try_forwarded_proto(headers: &mut HeaderMap, proto: &'static str) -> (r: bool)
    requires
        is_visible_value(encode_utf8(proto@)),
    ensures
        has_room(*old(headers), 1) ==> r,
        r ==> header_entries(*final(headers)) == header_entries(*old(headers)).insert(
            FORWARDED_PROTO@,
            seq![encode_utf8(proto@)],
        ),
{
    proof {
        lemma_own_names();
    }
    header_insert(headers, FORWARDED_PROTO, proto.as_bytes())
}

/// Nothing that stays behind is left after stripping, and everything else is
/// left as it was.
pub proof fn lemma_strip_keeps_the_rest(
    entries: Map<Seq<char>, Seq<Seq<u8>>>,
    name: Seq<char>,
)
    ensures
        stripped(entries).contains_key(name) <==> entries.contains_key(name) && !stays_behind(
            entries,
            name,
        ),
        stripped(entries).contains_key(name) ==> stripped(entries)[name] == entries[name],
{
}

/// Stripping a second time changes nothing.
pub proof fn lemma_strip_idempotent(entries: Map<Seq<char>, Seq<Seq<u8>>>)
    ensures
        stripped(stripped(entries)) == stripped(entries),
{
    let once = stripped(entries);
    assert(!once.contains_key(CONNECTION@));
    assert(values_of(once, CONNECTION@) =~= Seq::empty());
    assert(stripped(once) =~= once);
}

/// `Transfer-Encoding` is never hop-by-hop by itself: unless `Connection`
/// nominates it, it survives.
pub proof fn lemma_framing_survives(entries: Map<Seq<char>, Seq<Seq<u8>>>)
    requires
        !nominated_by_all(values_of(entries, CONNECTION@)).contains("transfer-encoding"@),
        entries.contains_key("transfer-encoding"@),
    ensures
        stripped(entries).contains_key("transfer-encoding"@),
        stripped(entries)["transfer-encoding"@] == entries["transfer-encoding"@],
{
    reveal_strlit("transfer-encoding");
    reveal_strlit("connection");
    reveal_strlit("keep-alive");
    reveal_strlit("proxy-authenticate");
    reveal_strlit("proxy-authorization");
    reveal_strlit("proxy-connection");
    reveal_strlit("te");
    reveal_strlit("trailer");
    reveal_strlit("upgrade");
    let name = "transfer-encoding"@;
    assert(name.len() == 17);
    assert(forall|i: int| 0 <= i < 7 ==> (#[trigger] HOP_BY_HOP@[i]@).len() != 17) by {
        assert forall|i: int| 0 <= i < 7 implies (#[trigger] HOP_BY_HOP@[i]@).len() != 17 by {
            if i == 0 {
            } else if i == 1 {
            } else if i == 2 {
            } else if i == 3 {
            } else if i == 4 {
            } else if i == 5 {
            }
        }
    }
}

} // verus!
