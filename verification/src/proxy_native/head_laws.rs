//! What becomes of a request and a response head on its way through the proxy, header by
//! header.

use vstd::prelude::*;
use vstd::string::*;
use vstd::utf8::encode_utf8;

use crate::lb_core::filter::{
    rule_lines, rule_name, rule_suppresses, rules_suppress, HeaderRule,
};
use crate::proxy_native::message::{
    client_head, copied_request, copied_response, incoming_chain, upstream_head, HOP_BY_HOP,
};
use crate::text::{digit_char, lower_text, nat_text, same_ignoring_case};
use crate::wire::{byte_position, Field, RequestFields, ResponseFields};

verus! {

/// Whether two names differ at most in case.
pub open spec fn alike(a: Seq<char>, b: Seq<char>) -> bool {
    lower_text(a) == lower_text(b)
}

/// Whether a header is for one hop alone.
pub open spec fn ends_here(name: Seq<char>) -> bool {
    ||| alike(name, "connection"@)
    ||| alike(name, "keep-alive"@)
    ||| alike(name, "proxy-authenticate"@)
    ||| alike(name, "proxy-authorization"@)
    ||| alike(name, "proxy-connection"@)
    ||| alike(name, "te"@)
    ||| alike(name, "trailer"@)
    ||| alike(name, "upgrade"@)
}

/// Whether some rule replaces or removes a header.
pub open spec fn is_overruled(rules: Seq<HeaderRule>, name: Seq<char>) -> bool {
    exists|i: int|
        0 <= i < rules.len() && match #[trigger] rules[i] {
            HeaderRule::Put(n, _) => alike(n, name),
            HeaderRule::Remove(n) => alike(n, name),
            HeaderRule::Add(_, _) => false,
        }
}

/// `name: value` on a line of its own.
pub open spec fn line(name: Seq<u8>, value: Seq<u8>) -> Seq<u8> {
    name + seq![58u8, 32u8] + value + seq![13u8, 10u8]
}

/// Whether `more` is `less` with a piece put in, behind a beginning of `lead`.
pub open spec fn put_in(more: Seq<u8>, less: Seq<u8>, piece: Seq<u8>, lead: Seq<u8>) -> bool {
    exists|at: int|
        0 <= at <= less.len() && at <= lead.len() && #[trigger] less.take(at) == lead.take(at)
            && more == less.take(at) + piece + less.skip(at)
}

/// Whether a piece stands somewhere in a text.
pub open spec fn stands_in(whole: Seq<u8>, piece: Seq<u8>) -> bool {
    exists|at: int|
        0 <= at && at + piece.len() <= whole.len() && #[trigger] whole.subrange(
            at,
            at + piece.len(),
        ) == piece
}

/// The words of a request line: what stands before the first space, between it and the
/// next, and between that and the end of the line.
pub open spec fn request_words(head: Seq<u8>) -> (Seq<u8>, Seq<u8>, Seq<u8>) {
    let first = byte_position(head, 32);
    let rest = head.skip(first + 1);
    let second = byte_position(rest, 32);
    let last = rest.skip(second + 1);
    (head.take(first), rest.take(second), last.take(byte_position(last, 13)))
}

proof fn lemma_hop_names(name: Seq<char>)
    ensures
        crate::proxy_native::message::is_hop_header(name) == ends_here(name),
{
    assert(HOP_BY_HOP@[0]@ == "connection"@);
    assert(HOP_BY_HOP@[1]@ == "keep-alive"@);
    assert(HOP_BY_HOP@[2]@ == "proxy-authenticate"@);
    assert(HOP_BY_HOP@[3]@ == "proxy-authorization"@);
    assert(HOP_BY_HOP@[4]@ == "proxy-connection"@);
    assert(HOP_BY_HOP@[5]@ == "te"@);
    assert(HOP_BY_HOP@[6]@ == "trailer"@);
    assert(HOP_BY_HOP@[7]@ == "upgrade"@);
}

proof fn lemma_overruled(rules: Seq<HeaderRule>, name: Seq<char>)
    ensures
        rules_suppress(rules, name) == is_overruled(rules, name),
{
    if rules_suppress(rules, name) {
        let i = choose|i: int|
            0 <= i < rules.len() && rule_suppresses(#[trigger] rules[i]) && same_ignoring_case(
                rule_name(rules[i]),
                name,
            );
        assert(match rules[i] {
            HeaderRule::Put(n, _) => alike(n, name),
            HeaderRule::Remove(n) => alike(n, name),
            HeaderRule::Add(_, _) => false,
        });
    }
    if is_overruled(rules, name) {
        let i = choose|i: int|
            0 <= i < rules.len() && match #[trigger] rules[i] {
                HeaderRule::Put(n, _) => alike(n, name),
                HeaderRule::Remove(n) => alike(n, name),
                HeaderRule::Add(_, _) => false,
            };
        assert(rule_suppresses(rules[i]) && same_ignoring_case(rule_name(rules[i]), name));
    }
}

proof fn lemma_requests_join(a: Seq<Field>, b: Seq<Field>, rules: Seq<HeaderRule>)
    ensures
        copied_request(a + b, rules) == copied_request(a, rules) + copied_request(b, rules),
        incoming_chain(a + b, rules) == (if incoming_chain(b, rules) is Some {
            incoming_chain(b, rules)
        } else {
            incoming_chain(a, rules)
        }),
    decreases b.len(),
{
    if b.len() == 0 {
        assert(a + b =~= a);
        assert(copied_request(a, rules) + copied_request(b, rules) =~= copied_request(a, rules));
    } else {
        lemma_requests_join(a, b.drop_last(), rules);
        assert((a + b).drop_last() =~= a + b.drop_last());
        assert(copied_request(a + b, rules) =~= copied_request(a, rules) + copied_request(
            b,
            rules,
        ));
    }
}

proof fn lemma_responses_join(a: Seq<Field>, b: Seq<Field>, rules: Seq<HeaderRule>)
    ensures
        copied_response(a + b, rules) == copied_response(a, rules) + copied_response(b, rules),
    decreases b.len(),
{
    if b.len() == 0 {
        assert(a + b =~= a);
        assert(copied_response(a, rules) + copied_response(b, rules) =~= copied_response(a, rules));
    } else {
        lemma_responses_join(a, b.drop_last(), rules);
        assert((a + b).drop_last() =~= a + b.drop_last());
        assert(copied_response(a + b, rules) =~= copied_response(a, rules) + copied_response(
            b,
            rules,
        ));
    }
}

proof fn lemma_one_request(h: Field, rules: Seq<HeaderRule>)
    ensures
        copied_request(seq![h], rules) == (if ends_here(h.name) || alike(h.name, "host"@) || alike(
            h.name,
            "x-forwarded-for"@,
        ) || is_overruled(rules, h.name) {
            Seq::empty()
        } else {
            line(encode_utf8(h.name), h.value)
        }),
        incoming_chain(seq![h], rules) == (if !ends_here(h.name) && !alike(h.name, "host"@)
            && alike(h.name, "x-forwarded-for"@) && !is_overruled(rules, h.name) {
            Some(h.value)
        } else {
            None
        }),
{
    lemma_hop_names(h.name);
    lemma_overruled(rules, h.name);
    let one = seq![h];
    assert(one.drop_last() =~= Seq::empty());
    assert(one.last() == h);
    assert(copied_request(one.drop_last(), rules) =~= Seq::empty());
    assert(incoming_chain(one.drop_last(), rules) is None);
    assert(copied_request(one, rules) =~= (if ends_here(h.name) || alike(h.name, "host"@) || alike(
        h.name,
        "x-forwarded-for"@,
    ) || is_overruled(rules, h.name) {
        Seq::empty()
    } else {
        line(encode_utf8(h.name), h.value)
    }));
}

proof fn lemma_one_response(h: Field, rules: Seq<HeaderRule>)
    ensures
        copied_response(seq![h], rules) == (if ends_here(h.name) || is_overruled(rules, h.name) {
            Seq::empty()
        } else {
            line(encode_utf8(h.name), h.value)
        }),
{
    lemma_hop_names(h.name);
    lemma_overruled(rules, h.name);
    let one = seq![h];
    assert(one.drop_last() =~= Seq::empty());
    assert(one.last() == h);
    assert(copied_response(one.drop_last(), rules) =~= Seq::empty());
    assert(copied_response(one, rules) =~= (if ends_here(h.name) || is_overruled(rules, h.name) {
        Seq::empty()
    } else {
        line(encode_utf8(h.name), h.value)
    }));
}

/// Every header of a request that is not for this hop alone, nor the proxy's own, nor
/// overruled by the route goes upstream: it adds its own line, byte for byte, behind those
/// of the headers before it, and changes nothing else. The others leave no trace.
#[verifier::spinoff_prover]
#[verifier::rlimit(60)]
pub proof fn lemma_each_request_header_passes_or_stays(
    p: RequestFields,
    before: Seq<Field>,
    h: Field,
    after: Seq<Field>,
    authority: Seq<char>,
    peer: Seq<char>,
    rules: Seq<HeaderRule>,
    path: Seq<char>,
)
    requires
        p.headers == before + seq![h] + after,
        !alike(h.name, "x-forwarded-for"@),
    ensures
        ({
            let more = upstream_head(p, authority, peer, rules, path);
            let less = upstream_head(
                RequestFields { headers: before + after, ..p },
                authority,
                peer,
                rules,
                path,
            );
            let lead = upstream_head(
                RequestFields { headers: before, ..p },
                authority,
                peer,
                rules,
                path,
            );
            if ends_here(h.name) || alike(h.name, "host"@) || is_overruled(rules, h.name) {
                more == less
            } else {
                put_in(more, less, line(encode_utf8(h.name), h.value), lead)
            }
        }),
{
    let fewer = RequestFields { headers: before + after, ..p };
    let first = RequestFields { headers: before, ..p };
    let more = upstream_head(p, authority, peer, rules, path);
    let less = upstream_head(fewer, authority, peer, rules, path);
    let lead = upstream_head(first, authority, peer, rules, path);
    lemma_requests_join(before + seq![h], after, rules);
    lemma_requests_join(before, seq![h], rules);
    lemma_requests_join(before, after, rules);
    lemma_one_request(h, rules);
    let start = encode_utf8(p.method->0) + encode_utf8(" "@) + encode_utf8(path) + encode_utf8(
        " HTTP/1.1\r\nhost: "@,
    ) + encode_utf8(authority) + encode_utf8("\r\n"@);
    let own = copied_request(seq![h], rules);
    let (b, a) = (copied_request(before, rules), copied_request(after, rules));
    let at = (start + b).len() as int;
    assert(less.take(at) =~= start + b);
    assert(lead.take(at) =~= start + b);
    assert(copied_request(p.headers, rules) =~= b + own + a);
    assert(more =~= less.take(at) + own + less.skip(at));
    if own.len() == 0 {
        assert(more =~= less);
    }
}

/// The request line that goes upstream reads back as the method of the request that came
/// in, the target that was asked for, and HTTP/1.1; the backend's authority follows as the
/// first header.
pub proof fn lemma_request_line_reads_back(
    p: RequestFields,
    authority: Seq<char>,
    peer: Seq<char>,
    rules: Seq<HeaderRule>,
    path: Seq<char>,
)
    requires
        !encode_utf8(p.method->0).contains(32),
        !encode_utf8(path).contains(32),
    ensures
        ({
            let head = upstream_head(p, authority, peer, rules, path);
            let words = request_words(head);
            let host = line(encode_utf8("host"@), encode_utf8(authority));
            let at = words.0.len() + 1 + words.1.len() + 1 + words.2.len() + 2;
            &&& words.0 == encode_utf8(p.method->0)
            &&& words.1 == encode_utf8(path)
            &&& words.2 == seq![72u8, 84, 84, 80, 47, 49, 46, 49]
            &&& at + host.len() <= head.len()
            &&& head.subrange(at as int, (at + host.len()) as int) == host
        }),
{
    let head = upstream_head(p, authority, peer, rules, path);
    let (m, t) = (encode_utf8(p.method->0), encode_utf8(path));
    lemma_literals();
    let v = seq![72u8, 84, 84, 80, 47, 49, 46, 49];
    let host = line(encode_utf8("host"@), encode_utf8(authority));
    let at = m.len() + 1 + t.len() + 1 + 8 + 2;
    assert(head.len() >= at + host.len());
    assert(head.take(m.len() as int) =~= m);
    assert(head[m.len() as int] == 32);
    lemma_position_is(head, 32, m.len() as int);
    let rest = head.skip((m.len() + 1) as int);
    assert(rest.take(t.len() as int) =~= t);
    assert(rest[t.len() as int] == 32);
    lemma_position_is(rest, 32, t.len() as int);
    let last = rest.skip((t.len() + 1) as int);
    assert(last.take(8) =~= v);
    assert(last[8] == 13);
    assert forall|i: int| 0 <= i < 8 implies #[trigger] last.take(8)[i] != 13 by {
        assert(last.take(8)[i] == v[i]);
    }
    lemma_position_is(last, 13, 8);
    assert(head.subrange(at as int, (at + host.len()) as int) =~= host);
}

proof fn lemma_position_is(s: Seq<u8>, b: u8, k: int)
    requires
        0 <= k < s.len(),
        s[k] == b,
        !s.take(k).contains(b),
    ensures
        byte_position(s, b) == k,
    decreases k,
{
    if k > 0 {
        assert(s.take(k)[0] == s[0]);
        assert(s[0] != b);
        let rest = s.skip(1);
        let short = rest.take(k - 1);
        assert forall|i: int| 0 <= i < k - 1 implies #[trigger] short[i] != b by {
            assert(s.take(k)[i + 1] == s[i + 1]);
        }
        lemma_position_is(rest, b, k - 1);
    }
}

/// The bytes of the literals that heads are made of.
proof fn lemma_literals()
    ensures
        encode_utf8(" "@) == seq![32u8],
        encode_utf8("\r\n"@) == seq![13u8, 10u8],
        encode_utf8("host"@) == seq![104u8, 111, 115, 116],
        encode_utf8(" HTTP/1.1\r\nhost: "@) == seq![
            32u8,
            72,
            84,
            84,
            80,
            47,
            49,
            46,
            49,
            13,
            10,
            104,
            111,
            115,
            116,
            58,
            32,
        ],
{
    reveal_strlit(" ");
    reveal_strlit("\r\n");
    reveal_strlit("host");
    reveal_strlit(" HTTP/1.1\r\nhost: ");
    vstd::utf8::is_ascii_chars_encode_utf8(" "@);
    vstd::utf8::is_ascii_chars_encode_utf8("\r\n"@);
    vstd::utf8::is_ascii_chars_encode_utf8("host"@);
    vstd::utf8::is_ascii_chars_encode_utf8(" HTTP/1.1\r\nhost: "@);
    assert(encode_utf8(" "@) =~= seq![32u8]);
    assert(encode_utf8("\r\n"@) =~= seq![13u8, 10u8]);
    assert(encode_utf8("host"@) =~= seq![104u8, 111, 115, 116]);
    assert(encode_utf8(" HTTP/1.1\r\nhost: "@) =~= seq![
        32u8,
        72,
        84,
        84,
        80,
        47,
        49,
        46,
        49,
        13,
        10,
        104,
        111,
        115,
        116,
        58,
        32,
    ]);
}

/// A piece between two others stands in the whole.
proof fn lemma_stands_in(a: Seq<u8>, piece: Seq<u8>, b: Seq<u8>)
    ensures
        stands_in(a + piece + b, piece),
{
    let whole = a + piece + b;
    let at = a.len() as int;
    assert(whole.subrange(at, at + piece.len()) =~= piece);
}

proof fn lemma_chain_name(name: Seq<char>)
    requires
        alike(name, "x-forwarded-for"@),
    ensures
        !ends_here(name),
        !alike(name, "host"@),
{
    reveal_strlit("x-forwarded-for");
    reveal_strlit("connection");
    reveal_strlit("keep-alive");
    reveal_strlit("proxy-authenticate");
    reveal_strlit("proxy-authorization");
    reveal_strlit("proxy-connection");
    reveal_strlit("te");
    reveal_strlit("trailer");
    reveal_strlit("upgrade");
    reveal_strlit("host");
    assert(lower_text(name).len() == lower_text("x-forwarded-for"@).len() == 15);
    assert(lower_text("connection"@).len() == 10);
    assert(lower_text("keep-alive"@).len() == 10);
    assert(lower_text("proxy-authenticate"@).len() == 18);
    assert(lower_text("proxy-authorization"@).len() == 19);
    assert(lower_text("proxy-connection"@).len() == 16);
    assert(lower_text("te"@).len() == 2);
    assert(lower_text("trailer"@).len() == 7);
    assert(lower_text("upgrade"@).len() == 7);
    assert(lower_text("host"@).len() == 4);
}

proof fn lemma_no_chain(headers: Seq<Field>, rules: Seq<HeaderRule>)
    requires
        forall|i: int|
            0 <= i < headers.len() ==> !alike((#[trigger] headers[i]).name, "x-forwarded-for"@),
    ensures
        incoming_chain(headers, rules) is None,
    decreases headers.len(),
{
    if headers.len() > 0 {
        assert(!alike(headers[headers.len() - 1].name, "x-forwarded-for"@));
        let init = headers.drop_last();
        assert forall|i: int| 0 <= i < init.len() implies !alike(
            (#[trigger] init[i]).name,
            "x-forwarded-for"@,
        ) by {
            assert(init[i] == headers[i]);
        }
        lemma_no_chain(init, rules);
    }
}

/// The bytes of the literals that a request head ends in.
proof fn lemma_forwarding_literals()
    ensures
        encode_utf8("x-forwarded-for: "@) == encode_utf8("x-forwarded-for"@) + seq![58u8, 32u8],
        encode_utf8("\r\nx-forwarded-proto: http\r\n"@) == seq![13u8, 10u8] + line(
            encode_utf8("x-forwarded-proto"@),
            encode_utf8("http"@),
        ),
        encode_utf8(", "@) == seq![44u8, 32u8],
{
    reveal_strlit("x-forwarded-for: ");
    reveal_strlit("x-forwarded-for");
    reveal_strlit("\r\nx-forwarded-proto: http\r\n");
    reveal_strlit("x-forwarded-proto");
    reveal_strlit("http");
    reveal_strlit(", ");
    vstd::utf8::is_ascii_chars_encode_utf8("x-forwarded-for: "@);
    vstd::utf8::is_ascii_chars_encode_utf8("x-forwarded-for"@);
    vstd::utf8::is_ascii_chars_encode_utf8("\r\nx-forwarded-proto: http\r\n"@);
    vstd::utf8::is_ascii_chars_encode_utf8("x-forwarded-proto"@);
    vstd::utf8::is_ascii_chars_encode_utf8("http"@);
    vstd::utf8::is_ascii_chars_encode_utf8(", "@);
    assert(encode_utf8("x-forwarded-for: "@) =~= encode_utf8("x-forwarded-for"@) + seq![
        58u8,
        32u8,
    ]);
    assert(encode_utf8("\r\nx-forwarded-proto: http\r\n"@) =~= seq![13u8, 10u8] + line(
        encode_utf8("x-forwarded-proto"@),
        encode_utf8("http"@),
    ));
    assert(encode_utf8(", "@) =~= seq![44u8, 32u8]);
}

/// The head up to its forwarding headers, and what follows them.
proof fn lemma_forwarding_part(
    p: RequestFields,
    authority: Seq<char>,
    peer: Seq<char>,
    rules: Seq<HeaderRule>,
    path: Seq<char>,
    chain: Seq<u8>,
)
    requires
        chain == crate::proxy_native::message::extended_chain(
            incoming_chain(p.headers, rules),
            peer,
        ),
    ensures
        stands_in(
            upstream_head(p, authority, peer, rules, path),
            line(encode_utf8("x-forwarded-for"@), chain),
        ),
        stands_in(
            upstream_head(p, authority, peer, rules, path),
            line(encode_utf8("x-forwarded-proto"@), encode_utf8("http"@)),
        ),
{
    let head = upstream_head(p, authority, peer, rules, path);
    lemma_forwarding_literals();
    lemma_literals();
    let start = encode_utf8(p.method->0) + encode_utf8(" "@) + encode_utf8(path) + encode_utf8(
        " HTTP/1.1\r\nhost: "@,
    ) + encode_utf8(authority) + encode_utf8("\r\n"@) + copied_request(p.headers, rules);
    let own = line(encode_utf8("x-forwarded-for"@), chain);
    let proto = line(encode_utf8("x-forwarded-proto"@), encode_utf8("http"@));
    let end = rule_lines(rules) + encode_utf8("\r\n"@);
    assert(head =~= start + own + (proto + end));
    lemma_stands_in(start, own, proto + end);
    assert(head =~= (start + own) + proto + end);
    lemma_stands_in(start + own, proto, end);
}

/// The chain of a request that came through other proxies is kept, and the peer is put
/// behind it; the last such header that the route does not overrule is the chain.
pub proof fn lemma_forwarding_chain_grows(
    p: RequestFields,
    before: Seq<Field>,
    h: Field,
    after: Seq<Field>,
    authority: Seq<char>,
    peer: Seq<char>,
    rules: Seq<HeaderRule>,
    path: Seq<char>,
)
    requires
        p.headers == before + seq![h] + after,
        alike(h.name, "x-forwarded-for"@),
        !is_overruled(rules, h.name),
        forall|i: int|
            0 <= i < after.len() ==> !alike((#[trigger] after[i]).name, "x-forwarded-for"@),
    ensures
        stands_in(
            upstream_head(p, authority, peer, rules, path),
            line(
                encode_utf8("x-forwarded-for"@),
                h.value + seq![44u8, 32u8] + encode_utf8(peer),
            ),
        ),
{
    lemma_no_chain(after, rules);
    lemma_requests_join(before + seq![h], after, rules);
    lemma_requests_join(before, seq![h], rules);
    lemma_one_request(h, rules);
    lemma_chain_name(h.name);
    lemma_forwarding_literals();
    let chain = h.value + seq![44u8, 32u8] + encode_utf8(peer);
    lemma_forwarding_part(p, authority, peer, rules, path, chain);
}

/// A request that came straight from the client starts the chain with the peer.
pub proof fn lemma_forwarding_chain_starts(
    p: RequestFields,
    authority: Seq<char>,
    peer: Seq<char>,
    rules: Seq<HeaderRule>,
    path: Seq<char>,
)
    requires
        forall|i: int|
            0 <= i < p.headers.len() ==> !alike(
                (#[trigger] p.headers[i]).name,
                "x-forwarded-for"@,
            ),
    ensures
        stands_in(
            upstream_head(p, authority, peer, rules, path),
            line(encode_utf8("x-forwarded-for"@), encode_utf8(peer)),
        ),
        stands_in(
            upstream_head(p, authority, peer, rules, path),
            line(encode_utf8("x-forwarded-proto"@), encode_utf8("http"@)),
        ),
{
    lemma_no_chain(p.headers, rules);
    lemma_forwarding_part(p, authority, peer, rules, path, encode_utf8(peer));
}

proof fn lemma_rule_line_stands(rules: Seq<HeaderRule>, k: int)
    requires
        0 <= k < rules.len(),
    ensures
        match rules[k] {
            HeaderRule::Put(n, v) => stands_in(rule_lines(rules), line(encode_utf8(n), v)),
            HeaderRule::Add(n, v) => stands_in(rule_lines(rules), line(encode_utf8(n), v)),
            HeaderRule::Remove(_) => true,
        },
    decreases rules.len(),
{
    let init = rules.drop_last();
    let own = match rules[k] {
        HeaderRule::Put(n, v) => line(encode_utf8(n), v),
        HeaderRule::Add(n, v) => line(encode_utf8(n), v),
        HeaderRule::Remove(_) => Seq::empty(),
    };
    if !(rules[k] is Remove) {
        if k < init.len() {
            lemma_rule_line_stands(init, k);
            assert(init[k] == rules[k]);
            lemma_stands_within(Seq::empty(), rule_lines(init), rule_lines(rules).skip(
                rule_lines(init).len() as int,
            ), own);
            assert(rule_lines(rules) =~= Seq::empty() + rule_lines(init) + rule_lines(rules).skip(
                rule_lines(init).len() as int,
            ));
        } else {
            assert(rule_lines(rules) =~= rule_lines(init) + own + Seq::empty());
            lemma_stands_in(rule_lines(init), own, Seq::empty());
        }
    }
}

/// What stands in a part stands in the whole.
proof fn lemma_stands_within(a: Seq<u8>, part: Seq<u8>, b: Seq<u8>, piece: Seq<u8>)
    requires
        stands_in(part, piece),
    ensures
        stands_in(a + part + b, piece),
{
    let at = choose|at: int|
        0 <= at && at + piece.len() <= part.len() && #[trigger] part.subrange(
            at,
            at + piece.len(),
        ) == piece;
    let whole = a + part + b;
    let k = a.len() + at;
    assert(whole.subrange(k, k + piece.len()) =~= part.subrange(at, at + piece.len()));
}

/// Every header that the route puts or adds stands in the request's head.
pub proof fn lemma_route_headers_go_upstream(
    p: RequestFields,
    authority: Seq<char>,
    peer: Seq<char>,
    rules: Seq<HeaderRule>,
    path: Seq<char>,
    k: int,
)
    requires
        0 <= k < rules.len(),
    ensures
        match rules[k] {
            HeaderRule::Put(n, v) => stands_in(
                upstream_head(p, authority, peer, rules, path),
                line(encode_utf8(n), v),
            ),
            HeaderRule::Add(n, v) => stands_in(
                upstream_head(p, authority, peer, rules, path),
                line(encode_utf8(n), v),
            ),
            HeaderRule::Remove(_) => true,
        },
{
    let head = upstream_head(p, authority, peer, rules, path);
    lemma_rule_line_stands(rules, k);
    let end = encode_utf8("\r\n"@);
    let start = head.take(head.len() - end.len() - rule_lines(rules).len());
    assert(head =~= start + rule_lines(rules) + end);
    match rules[k] {
        HeaderRule::Put(n, v) => lemma_stands_within(
            start,
            rule_lines(rules),
            end,
            line(encode_utf8(n), v),
        ),
        HeaderRule::Add(n, v) => lemma_stands_within(
            start,
            rule_lines(rules),
            end,
            line(encode_utf8(n), v),
        ),
        HeaderRule::Remove(_) => {},
    }
}

/// A request without headers, on a route without rules, goes upstream with the proxy's own
/// three headers and no others.
pub proof fn lemma_bare_request_gets_the_proxys_headers(
    p: RequestFields,
    authority: Seq<char>,
    peer: Seq<char>,
    path: Seq<char>,
)
    requires
        p.headers.len() == 0,
    ensures
        upstream_head(p, authority, peer, Seq::empty(), path) == encode_utf8(p.method->0) + seq![
            32u8,
        ] + encode_utf8(path) + seq![32u8, 72, 84, 84, 80, 47, 49, 46, 49, 13, 10] + line(
            encode_utf8("host"@),
            encode_utf8(authority),
        ) + line(encode_utf8("x-forwarded-for"@), encode_utf8(peer)) + line(
            encode_utf8("x-forwarded-proto"@),
            encode_utf8("http"@),
        ) + seq![13u8, 10u8],
{
    lemma_literals();
    lemma_forwarding_literals();
    let rules = Seq::<HeaderRule>::empty();
    assert(copied_request(p.headers, rules) =~= Seq::empty());
    assert(rule_lines(rules) =~= Seq::empty());
    assert(upstream_head(p, authority, peer, rules, path) =~= encode_utf8(p.method->0) + seq![
        32u8,
    ] + encode_utf8(path) + seq![32u8, 72, 84, 84, 80, 47, 49, 46, 49, 13, 10] + line(
        encode_utf8("host"@),
        encode_utf8(authority),
    ) + line(encode_utf8("x-forwarded-for"@), encode_utf8(peer)) + line(
        encode_utf8("x-forwarded-proto"@),
        encode_utf8("http"@),
    ) + seq![13u8, 10u8]);
}

// ---------------------------------------------------------------------------
// Responses
// ---------------------------------------------------------------------------

/// Every header of a response that is not for this hop alone nor overruled by the route
/// goes back to the client: it adds its own line, byte for byte, behind those of the
/// headers before it, and changes nothing else. The others leave no trace.
pub proof fn lemma_each_response_header_passes_or_stays(
    p: ResponseFields,
    before: Seq<Field>,
    h: Field,
    after: Seq<Field>,
    keep_alive: bool,
    rules: Seq<HeaderRule>,
)
    requires
        p.headers == before + seq![h] + after,
    ensures
        ({
            let more = client_head(p, keep_alive, rules);
            let less = client_head(
                ResponseFields { headers: before + after, ..p },
                keep_alive,
                rules,
            );
            let lead = client_head(
                ResponseFields { headers: before, ..p },
                keep_alive,
                rules,
            );
            if ends_here(h.name) || is_overruled(rules, h.name) {
                more == less
            } else {
                put_in(more, less, line(encode_utf8(h.name), h.value), lead)
            }
        }),
{
    let more = client_head(p, keep_alive, rules);
    let less = client_head(ResponseFields { headers: before + after, ..p }, keep_alive, rules);
    let lead = client_head(ResponseFields { headers: before, ..p }, keep_alive, rules);
    lemma_responses_join(before + seq![h], after, rules);
    lemma_responses_join(before, seq![h], rules);
    lemma_responses_join(before, after, rules);
    lemma_one_response(h, rules);
    let start = encode_utf8("HTTP/1.1 "@) + encode_utf8(nat_text(p.status->0 as nat))
        + encode_utf8(" "@) + encode_utf8(p.reason->0) + encode_utf8("\r\n"@);
    let own = copied_response(seq![h], rules);
    let (b, a) = (copied_response(before, rules), copied_response(after, rules));
    let at = (start + b).len() as int;
    assert(less.take(at) =~= start + b);
    assert(lead.take(at) =~= start + b);
    assert(copied_response(p.headers, rules) =~= b + own + a);
    assert(more =~= less.take(at) + own + less.skip(at));
    if own.len() == 0 {
        assert(more =~= less);
    }
}

/// Every header that the route puts or adds stands in the response's head.
pub proof fn lemma_route_headers_go_to_the_client(
    p: ResponseFields,
    keep_alive: bool,
    rules: Seq<HeaderRule>,
    k: int,
)
    requires
        0 <= k < rules.len(),
    ensures
        match rules[k] {
            HeaderRule::Put(n, v) => stands_in(
                client_head(p, keep_alive, rules),
                line(encode_utf8(n), v),
            ),
            HeaderRule::Add(n, v) => stands_in(
                client_head(p, keep_alive, rules),
                line(encode_utf8(n), v),
            ),
            HeaderRule::Remove(_) => true,
        },
{
    let head = client_head(p, keep_alive, rules);
    lemma_rule_line_stands(rules, k);
    let end = crate::proxy_native::message::connection_line(keep_alive);
    let start = head.take(head.len() - end.len() - rule_lines(rules).len());
    assert(head =~= start + rule_lines(rules) + end);
    match rules[k] {
        HeaderRule::Put(n, v) => lemma_stands_within(
            start,
            rule_lines(rules),
            end,
            line(encode_utf8(n), v),
        ),
        HeaderRule::Add(n, v) => lemma_stands_within(
            start,
            rule_lines(rules),
            end,
            line(encode_utf8(n), v),
        ),
        HeaderRule::Remove(_) => {},
    }
}

/// Three decimal digits.
pub open spec fn three_digits(n: u16) -> Seq<u8> {
    seq![(48 + n / 100) as u8, (48 + (n / 10) % 10) as u8, (48 + n % 10) as u8]
}

proof fn lemma_three_digits(n: u16)
    requires
        100 <= n <= 999,
    ensures
        encode_utf8(nat_text(n as nat)) == three_digits(n),
{
    let t = nat_text(n as nat);
    let (a, b, c) = (n as int / 100, (n as int / 10) % 10, n as int % 10);
    assert(nat_text(a as nat) =~= seq![digit_char(a)]);
    assert((n as nat / 10) / 10 == n as nat / 100);
    assert(nat_text(n as nat / 10) =~= seq![digit_char(a), digit_char(b)]);
    assert(t =~= seq![digit_char(a), digit_char(b), digit_char(c)]);
    vstd::utf8::is_ascii_chars_encode_utf8(t);
    assert(encode_utf8(t) =~= three_digits(n));
}

/// The status of a response and its reason go back to the client as they came, and the
/// disposition that will be honoured ends the head.
pub proof fn lemma_status_and_disposition(
    p: ResponseFields,
    keep_alive: bool,
    rules: Seq<HeaderRule>,
)
    requires
        100 <= p.status->0 <= 999,
    ensures
        ({
            let head = client_head(p, keep_alive, rules);
            let first = seq![72u8, 84, 84, 80, 47, 49, 46, 49, 32] + three_digits(p.status->0)
                + seq![32u8] + encode_utf8(p.reason->0) + seq![13u8, 10u8];
            let end = line(
                encode_utf8("connection"@),
                encode_utf8(
                    if keep_alive {
                        "keep-alive"@
                    } else {
                        "close"@
                    },
                ),
            ) + seq![13u8, 10u8];
            &&& first.len() + end.len() <= head.len()
            &&& head.take(first.len() as int) == first
            &&& head.skip(head.len() - end.len()) == end
            &&& p.headers.len() == 0 && rules.len() == 0 ==> head == first + end
        }),
{
    let head = client_head(p, keep_alive, rules);
    lemma_literals();
    lemma_three_digits(p.status->0);
    reveal_strlit("HTTP/1.1 ");
    reveal_strlit("connection");
    reveal_strlit("keep-alive");
    reveal_strlit("close");
    reveal_strlit("connection: keep-alive\r\n\r\n");
    reveal_strlit("connection: close\r\n\r\n");
    vstd::utf8::is_ascii_chars_encode_utf8("HTTP/1.1 "@);
    vstd::utf8::is_ascii_chars_encode_utf8("connection"@);
    vstd::utf8::is_ascii_chars_encode_utf8("keep-alive"@);
    vstd::utf8::is_ascii_chars_encode_utf8("close"@);
    vstd::utf8::is_ascii_chars_encode_utf8("connection: keep-alive\r\n\r\n"@);
    vstd::utf8::is_ascii_chars_encode_utf8("connection: close\r\n\r\n"@);
    let first = seq![72u8, 84, 84, 80, 47, 49, 46, 49, 32] + three_digits(p.status->0) + seq![
        32u8,
    ] + encode_utf8(p.reason->0) + seq![13u8, 10u8];
    let end = line(
        encode_utf8("connection"@),
        encode_utf8(
            if keep_alive {
                "keep-alive"@
            } else {
                "close"@
            },
        ),
    ) + seq![13u8, 10u8];
    assert(encode_utf8("HTTP/1.1 "@) =~= seq![72u8, 84, 84, 80, 47, 49, 46, 49, 32]);
    assert(crate::proxy_native::message::connection_line(keep_alive) =~= end);
    let middle = copied_response(p.headers, rules) + rule_lines(rules);
    assert(head =~= first + middle + end);
    assert(head.take(first.len() as int) =~= first);
    assert(head.skip(head.len() - end.len()) =~= end);
    if p.headers.len() == 0 && rules.len() == 0 {
        assert(middle =~= Seq::empty());
        assert(head =~= first + end);
    }
}

} // verus!
