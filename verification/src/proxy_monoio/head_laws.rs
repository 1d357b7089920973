//! What becomes of a request and a response head on its way through the proxy, line by
//! line.

use vstd::prelude::*;
use vstd::string::*;
use vstd::utf8::encode_utf8;

use crate::lb_core::simd::{lemma_lower_bytes_idempotent, lower_bytes};
use crate::proxy_monoio::http1::{
    existing_chain, first_line_end, forward_head, forwarded_lines, forwarding_lines, has_colon, header_lines,
    header_lines_of, is_continuation, is_hop_name, is_named, is_nominated, line_name, line_value,
    nominated_by_lines, nominated_by_tokens, return_head, returned_lines, token_nominates,
    without_cr, HOP_BY_HOP,
};
use crate::proxy_native::head_laws::{put_in, request_words, stands_in};
use crate::wire::{
    byte_pieces, byte_position, bytes_without_leading, bytes_without_trailing, first_occurrence,
    is_ascii_space, occurs_at, trimmed_bytes,
};

verus! {

/// The end of a line.
pub open spec fn eol() -> Seq<u8> {
    seq![13u8, 10u8]
}

/// Lines, each with its end.
pub open spec fn ended(lines: Seq<Seq<u8>>) -> Seq<u8>
    decreases lines.len(),
{
    if lines.len() == 0 {
        Seq::empty()
    } else {
        lines[0] + eol() + ended(lines.skip(1))
    }
}

/// A head as it is sent: its first line, its header lines and a blank one.
pub open spec fn head_text(first: Seq<u8>, lines: Seq<Seq<u8>>) -> Seq<u8> {
    first + eol() + ended(lines) + eol()
}

/// Whether bytes can be a header line: not empty, without a line end, and not the
/// continuation of another.
pub open spec fn is_line(l: Seq<u8>) -> bool {
    l.len() > 0 && l[0] != 32 && l[0] != 9 && !l.contains(13) && !l.contains(10)
}

/// Whether a head can be made of a first line and header lines.
pub open spec fn are_lines(first: Seq<u8>, lines: Seq<Seq<u8>>) -> bool {
    &&& !first.contains(13)
    &&& forall|i: int| 0 <= i < lines.len() ==> is_line(#[trigger] lines[i])
}

/// What stands before the colon of a header line.
pub open spec fn name_of(l: Seq<u8>) -> Seq<u8> {
    l.take(byte_position(l, 58))
}

/// What stands behind it.
pub open spec fn value_of(l: Seq<u8>) -> Seq<u8> {
    l.skip(byte_position(l, 58) + 1)
}

/// Whether two names are the same, case and the white space around them aside.
pub open spec fn same_name(a: Seq<u8>, b: Seq<u8>) -> bool {
    lower_bytes(trimmed_bytes(a)) == lower_bytes(trimmed_bytes(b))
}

/// Whether a line is of a header.
pub open spec fn is_of(l: Seq<u8>, name: Seq<char>) -> bool {
    l.contains(58) && same_name(name_of(l), encode_utf8(name))
}

/// Whether a line's header is for one hop alone.
pub open spec fn ends_here(l: Seq<u8>) -> bool {
    ||| is_of(l, "connection"@)
    ||| is_of(l, "keep-alive"@)
    ||| is_of(l, "proxy-authenticate"@)
    ||| is_of(l, "proxy-authorization"@)
    ||| is_of(l, "proxy-connection"@)
    ||| is_of(l, "te"@)
    ||| is_of(l, "trailer"@)
    ||| is_of(l, "upgrade"@)
}

/// Whether a token of a `Connection` header names a line's header; `close` and
/// `keep-alive` are dispositions.
pub open spec fn token_names(token: Seq<u8>, l: Seq<u8>) -> bool {
    &&& same_name(token, name_of(l))
    &&& trimmed_bytes(token).len() > 0
    &&& !same_name(token, encode_utf8("close"@))
    &&& !same_name(token, encode_utf8("keep-alive"@))
}

/// Whether a `Connection` line names another line's header.
pub open spec fn names(connection: Seq<u8>, l: Seq<u8>) -> bool {
    is_of(connection, "connection"@) && exists|k: int|
        0 <= k < byte_pieces(value_of(connection), 44).len() && token_names(
            #[trigger] byte_pieces(value_of(connection), 44)[k],
            l,
        )
}

/// Whether some `Connection` line among lines names a line's header.
pub open spec fn is_named_by(lines: Seq<Seq<u8>>, l: Seq<u8>) -> bool {
    exists|i: int| 0 <= i < lines.len() && names(#[trigger] lines[i], l)
}

// ---------------------------------------------------------------------------
// Reading a head
// ---------------------------------------------------------------------------

proof fn lemma_byte_at(s: Seq<u8>, b: u8)
    ensures
        0 <= byte_position(s, b) <= s.len(),
        byte_position(s, b) < s.len() <==> s.contains(b),
        byte_position(s, b) < s.len() ==> s[byte_position(s, b)] == b,
        !s.take(byte_position(s, b)).contains(b),
    decreases s.len(),
{
    let k = byte_position(s, b);
    if s.len() > 0 && s[0] != b {
        let rest = s.skip(1);
        lemma_byte_at(rest, b);
        if s.contains(b) {
            let i = choose|i: int| 0 <= i < s.len() && s[i] == b;
            assert(rest[i - 1] == b);
        }
        if rest.contains(b) {
            let i = choose|i: int| 0 <= i < rest.len() && rest[i] == b;
            assert(s[i + 1] == b);
        }
        assert forall|i: int| 0 <= i < k implies #[trigger] s.take(k)[i] != b by {
            if i > 0 {
                assert(rest.take(k - 1)[i - 1] == s[i]);
            }
        }
    }
}

/// The first separator comes where nothing before it is one.
proof fn lemma_byte_first(a: Seq<u8>, b: u8, rest: Seq<u8>)
    requires
        !a.contains(b),
    ensures
        byte_position(a + seq![b] + rest, b) == a.len(),
{
    let s = a + seq![b] + rest;
    lemma_byte_at(s, b);
    let k = byte_position(s, b);
    assert(s[a.len() as int] == b);
    assert(s.contains(b));
    if k < a.len() {
        assert(a[k] == b);
    }
    if k > a.len() {
        assert(s.take(k)[a.len() as int] == b);
    }
}

proof fn lemma_pieces_first(a: Seq<u8>, sep: u8, rest: Seq<u8>)
    requires
        !a.contains(sep),
    ensures
        byte_pieces(a + seq![sep] + rest, sep) == seq![a] + byte_pieces(rest, sep),
{
    let s = a + seq![sep] + rest;
    lemma_byte_first(a, sep, rest);
    assert(s.take(a.len() as int) =~= a);
    assert(s.skip((a.len() + 1) as int) =~= rest);
}

proof fn lemma_lines_join(a: Seq<Seq<u8>>, b: Seq<Seq<u8>>)
    requires
        forall|i: int| 0 <= i < b.len() ==> !is_continuation(without_cr(#[trigger] b[i])),
    ensures
        header_lines_of(a + b) == header_lines_of(a) + header_lines_of(b),
    decreases b.len(),
{
    if b.len() == 0 {
        assert(a + b =~= a);
        assert(header_lines_of(a) + header_lines_of(b) =~= header_lines_of(a));
    } else {
        let init = b.drop_last();
        assert forall|i: int| 0 <= i < init.len() implies !is_continuation(
            without_cr(#[trigger] init[i]),
        ) by {
            assert(init[i] == b[i]);
        }
        lemma_lines_join(a, init);
        assert((a + b).drop_last() =~= a + init);
        assert(!is_continuation(without_cr(b[b.len() - 1])));
        assert(header_lines_of(a + b) =~= header_lines_of(a) + header_lines_of(b));
    }
}

/// The raw lines of header lines and the blank one behind them.
spec fn raw_lines(lines: Seq<Seq<u8>>) -> Seq<Seq<u8>>
    decreases lines.len(),
{
    if lines.len() == 0 {
        seq![seq![13u8], Seq::empty()]
    } else {
        seq![lines[0] + seq![13u8]] + raw_lines(lines.skip(1))
    }
}

proof fn lemma_block_reads_back(lines: Seq<Seq<u8>>)
    requires
        forall|i: int| 0 <= i < lines.len() ==> is_line(#[trigger] lines[i]),
    ensures
        byte_pieces(ended(lines) + eol(), 10) == raw_lines(lines),
        header_lines_of(raw_lines(lines)) == lines,
        forall|i: int|
            0 <= i < raw_lines(lines).len() ==> !is_continuation(
                without_cr(#[trigger] raw_lines(lines)[i]),
            ),
    decreases lines.len(),
{
    let block = ended(lines) + eol();
    if lines.len() == 0 {
        assert(block =~= seq![13u8] + seq![10u8] + Seq::empty());
        lemma_pieces_first(seq![13u8], 10, Seq::empty());
        let nothing = Seq::<u8>::empty();
        lemma_byte_at(nothing, 10);
        assert(byte_pieces(nothing, 10) =~= seq![nothing]);
        let raw = raw_lines(lines);
        assert(raw =~= seq![seq![13u8], nothing]);
        assert(without_cr(seq![13u8]) =~= nothing);
        assert(raw.drop_last() =~= seq![seq![13u8]]);
        assert(raw.drop_last().drop_last() =~= Seq::empty());
        assert(header_lines_of(Seq::<Seq<u8>>::empty()) =~= Seq::empty());
        assert(header_lines_of(raw.drop_last()) =~= Seq::empty());
        assert(header_lines_of(raw) =~= lines);
    } else {
        let rest = lines.skip(1);
        let l = lines[0];
        assert(is_line(l));
        assert forall|i: int| 0 <= i < rest.len() implies is_line(#[trigger] rest[i]) by {
            assert(rest[i] == lines[i + 1]);
        }
        lemma_block_reads_back(rest);
        let raw = l + seq![13u8];
        assert(!raw.contains(10)) by {
            if raw.contains(10) {
                let i = choose|i: int| 0 <= i < raw.len() && raw[i] == 10;
                assert(l[i] == 10);
            }
        }
        assert(block =~= raw + seq![10u8] + (ended(rest) + eol()));
        lemma_pieces_first(raw, 10, ended(rest) + eol());
        assert(without_cr(raw) =~= l);
        let one = seq![raw];
        assert(one.drop_last() =~= Seq::empty());
        assert(header_lines_of(one.drop_last()) =~= Seq::empty());
        assert(header_lines_of(one) =~= seq![l]);
        lemma_lines_join(one, raw_lines(rest));
        assert(seq![l] + rest =~= lines);
        let all = raw_lines(lines);
        assert forall|i: int| 0 <= i < all.len() implies !is_continuation(
            without_cr(#[trigger] all[i]),
        ) by {
            if i > 0 {
                assert(all[i] == raw_lines(rest)[i - 1]);
            }
        }
    }
}

proof fn lemma_first_is(hay: Seq<u8>, needle: Seq<u8>, k: int)
    requires
        occurs_at(hay, needle, k),
        forall|j: int| 0 <= j < k ==> !occurs_at(hay, needle, j),
    ensures
        first_occurrence(hay, needle) == Some(k),
{
    reveal(first_occurrence);
    let c = choose|c: int|
        occurs_at(hay, needle, c) && forall|j: int| 0 <= j < c ==> !occurs_at(hay, needle, j);
    assert(occurs_at(hay, needle, c));
    assert(c == k);
}

/// A head is read as the lines that it is made of.
proof fn lemma_head_reads_back(first: Seq<u8>, lines: Seq<Seq<u8>>)
    requires
        are_lines(first, lines),
    ensures
        first_line_end(head_text(first, lines)) == first.len() + 2,
        head_text(first, lines).take((first.len() + 2) as int) == first + eol(),
        header_lines(head_text(first, lines).skip((first.len() + 2) as int)) == lines,
{
    let head = head_text(first, lines);
    lemma_eol();
    let k = first.len() as int;
    assert(head.subrange(k, k + 2) =~= eol());
    assert(occurs_at(head, eol(), k));
    assert forall|j: int| 0 <= j < k implies !occurs_at(head, eol(), j) by {
        if occurs_at(head, eol(), j) {
            assert(head.subrange(j, j + 2)[0] == 13);
            assert(first[j] == 13);
        }
    }
    lemma_first_is(head, eol(), k);
    assert(head.take(k + 2) =~= first + eol());
    assert(head.skip(k + 2) =~= ended(lines) + eol());
    lemma_block_reads_back(lines);
}

proof fn lemma_eol()
    ensures
        encode_utf8("\r\n"@) == eol(),
{
    reveal_strlit("\r\n");
    vstd::utf8::is_ascii_chars_encode_utf8("\r\n"@);
    assert(encode_utf8("\r\n"@) =~= eol());
}

// ---------------------------------------------------------------------------
// Names
// ---------------------------------------------------------------------------

proof fn lemma_no_leading(s: Seq<u8>)
    ensures
        bytes_without_leading(s).len() == 0 || !is_ascii_space(bytes_without_leading(s)[0]),
    decreases s.len(),
{
    if s.len() > 0 && is_ascii_space(s[0]) {
        lemma_no_leading(s.skip(1));
    }
}

proof fn lemma_no_trailing(s: Seq<u8>)
    ensures
        bytes_without_trailing(s).len() == 0 || !is_ascii_space(bytes_without_trailing(s).last()),
        bytes_without_trailing(s).len() <= s.len(),
        bytes_without_trailing(s) == s.take(bytes_without_trailing(s).len() as int),
    decreases s.len(),
{
    if s.len() > 0 && is_ascii_space(s.last()) {
        lemma_no_trailing(s.drop_last());
        let n = bytes_without_trailing(s).len() as int;
        assert(s.drop_last().take(n) =~= s.take(n));
    } else {
        assert(s.take(s.len() as int) =~= s);
    }
}

/// What is trimmed stays as it is.
proof fn lemma_trimmed_once(s: Seq<u8>)
    ensures
        trimmed_bytes(trimmed_bytes(s)) == trimmed_bytes(s),
{
    let l = bytes_without_leading(s);
    lemma_no_leading(s);
    lemma_no_trailing(l);
    let t = trimmed_bytes(s);
    if t.len() > 0 {
        assert(t[0] == l[0]);
    }
    assert(bytes_without_leading(t) == t);
}

/// A word without white space is its own trimmed form.
proof fn lemma_plain_word(name: Seq<char>)
    requires
        name.len() > 0,
        vstd::utf8::is_ascii_chars(name),
        forall|i: int| 0 <= i < name.len() ==> !is_ascii_space((#[trigger] name[i]) as u8),
    ensures
        trimmed_bytes(encode_utf8(name)) == encode_utf8(name),
{
    vstd::utf8::is_ascii_chars_encode_utf8(name);
    let e = encode_utf8(name);
    assert(e[0] == name[0] as u8);
    assert(e[e.len() - 1] == name[name.len() - 1] as u8);
}

proof fn lemma_words()
    ensures
        forall|raw: Seq<u8>|
            #![trigger is_named(raw, encode_utf8("connection"@))]
            is_named(raw, encode_utf8("connection"@)) == same_name(raw, encode_utf8("connection"@)),
        forall|raw: Seq<u8>|
            #![trigger is_named(raw, encode_utf8("host"@))]
            is_named(raw, encode_utf8("host"@)) == same_name(raw, encode_utf8("host"@)),
        forall|raw: Seq<u8>|
            #![trigger is_named(raw, encode_utf8("x-forwarded-for"@))]
            is_named(raw, encode_utf8("x-forwarded-for"@)) == same_name(
                raw,
                encode_utf8("x-forwarded-for"@),
            ),
        forall|raw: Seq<u8>|
            #![trigger is_named(raw, encode_utf8("close"@))]
            is_named(raw, encode_utf8("close"@)) == same_name(raw, encode_utf8("close"@)),
        forall|raw: Seq<u8>|
            #![trigger is_named(raw, encode_utf8("keep-alive"@))]
            is_named(raw, encode_utf8("keep-alive"@)) == same_name(raw, encode_utf8("keep-alive"@)),
{
    reveal_strlit("connection");
    reveal_strlit("host");
    reveal_strlit("x-forwarded-for");
    reveal_strlit("close");
    reveal_strlit("keep-alive");
    lemma_plain_word("connection"@);
    lemma_plain_word("host"@);
    lemma_plain_word("x-forwarded-for"@);
    lemma_plain_word("close"@);
    lemma_plain_word("keep-alive"@);
}

proof fn lemma_hop_words()
    ensures
        forall|raw: Seq<u8>| #[trigger]
            is_hop_name(raw) == ({
                ||| same_name(raw, encode_utf8("connection"@))
                ||| same_name(raw, encode_utf8("keep-alive"@))
                ||| same_name(raw, encode_utf8("proxy-authenticate"@))
                ||| same_name(raw, encode_utf8("proxy-authorization"@))
                ||| same_name(raw, encode_utf8("proxy-connection"@))
                ||| same_name(raw, encode_utf8("te"@))
                ||| same_name(raw, encode_utf8("trailer"@))
                ||| same_name(raw, encode_utf8("upgrade"@))
            }),
{
    reveal_strlit("connection");
    reveal_strlit("keep-alive");
    reveal_strlit("proxy-authenticate");
    reveal_strlit("proxy-authorization");
    reveal_strlit("proxy-connection");
    reveal_strlit("te");
    reveal_strlit("trailer");
    reveal_strlit("upgrade");
    lemma_plain_word("connection"@);
    lemma_plain_word("keep-alive"@);
    lemma_plain_word("proxy-authenticate"@);
    lemma_plain_word("proxy-authorization"@);
    lemma_plain_word("proxy-connection"@);
    lemma_plain_word("te"@);
    lemma_plain_word("trailer"@);
    lemma_plain_word("upgrade"@);
    assert(HOP_BY_HOP@[0]@ == "connection"@);
    assert(HOP_BY_HOP@[1]@ == "keep-alive"@);
    assert(HOP_BY_HOP@[2]@ == "proxy-authenticate"@);
    assert(HOP_BY_HOP@[3]@ == "proxy-authorization"@);
    assert(HOP_BY_HOP@[4]@ == "proxy-connection"@);
    assert(HOP_BY_HOP@[5]@ == "te"@);
    assert(HOP_BY_HOP@[6]@ == "trailer"@);
    assert(HOP_BY_HOP@[7]@ == "upgrade"@);
}

proof fn lemma_line_parts(l: Seq<u8>)
    ensures
        has_colon(l) == l.contains(58),
        line_name(l) == name_of(l),
        line_value(l) == value_of(l),
        l.contains(58) ==> is_hop_name(line_name(l)) == ends_here(l),
        !l.contains(58) ==> !ends_here(l),
{
    lemma_byte_at(l, 58);
    lemma_hop_words();
}

proof fn lemma_token(token: Seq<u8>, l: Seq<u8>)
    ensures
        token_names(token, l) == (token_nominates(token) && is_named(
            name_of(l),
            lower_bytes(trimmed_bytes(token)),
        )),
{
    lemma_words();
    lemma_trimmed_once(token);
    lemma_lower_bytes_idempotent(trimmed_bytes(token));
}

proof fn lemma_tokens(tokens: Seq<Seq<u8>>, l: Seq<u8>)
    ensures
        is_nominated(name_of(l), nominated_by_tokens(tokens)) == exists|k: int|
            0 <= k < tokens.len() && token_names(#[trigger] tokens[k], l),
    decreases tokens.len(),
{
    let all = nominated_by_tokens(tokens);
    if tokens.len() > 0 {
        let init = tokens.drop_last();
        let before = nominated_by_tokens(init);
        lemma_tokens(init, l);
        lemma_token(tokens.last(), l);
        if is_nominated(name_of(l), all) {
            let i = choose|i: int| 0 <= i < all.len() && is_named(name_of(l), #[trigger] all[i]);
            if i < before.len() {
                assert(is_named(name_of(l), before[i]));
                let k = choose|k: int| 0 <= k < init.len() && token_names(#[trigger] init[k], l);
                assert(token_names(tokens[k], l));
            } else {
                assert(token_names(tokens[tokens.len() - 1], l));
            }
        }
        if exists|k: int| 0 <= k < tokens.len() && token_names(#[trigger] tokens[k], l) {
            let k = choose|k: int| 0 <= k < tokens.len() && token_names(#[trigger] tokens[k], l);
            if k < init.len() {
                assert(token_names(init[k], l));
                let i = choose|i: int|
                    0 <= i < before.len() && is_named(name_of(l), #[trigger] before[i]);
                assert(all[i] == before[i]);
            } else {
                assert(is_named(name_of(l), all[all.len() - 1]));
            }
        }
    }
}

proof fn lemma_nominated(lines: Seq<Seq<u8>>, l: Seq<u8>)
    ensures
        is_nominated(name_of(l), nominated_by_lines(lines)) == is_named_by(lines, l),
    decreases lines.len(),
{
    let all = nominated_by_lines(lines);
    if lines.len() > 0 {
        let init = lines.drop_last();
        let before = nominated_by_lines(init);
        let c = lines.last();
        lemma_nominated(init, l);
        lemma_line_parts(c);
        lemma_words();
        let tokens = byte_pieces(value_of(c), 44);
        lemma_tokens(tokens, l);
        let more = nominated_by_tokens(tokens);
        if is_nominated(name_of(l), all) {
            let i = choose|i: int| 0 <= i < all.len() && is_named(name_of(l), #[trigger] all[i]);
            if i < before.len() {
                assert(is_named(name_of(l), before[i]));
                let k = choose|k: int| 0 <= k < init.len() && names(#[trigger] init[k], l);
                assert(names(lines[k], l));
            } else {
                assert(is_named(name_of(l), more[i - before.len()]));
                assert(names(lines[lines.len() - 1], l));
            }
        }
        if is_named_by(lines, l) {
            let k = choose|k: int| 0 <= k < lines.len() && names(#[trigger] lines[k], l);
            if k < init.len() {
                assert(names(init[k], l));
                let i = choose|i: int|
                    0 <= i < before.len() && is_named(name_of(l), #[trigger] before[i]);
                assert(is_named(name_of(l), all[i]));
            } else {
                let i = choose|i: int|
                    0 <= i < more.len() && is_named(name_of(l), #[trigger] more[i]);
                assert(is_named(name_of(l), all[before.len() + i]));
            }
        }
    }
}

proof fn lemma_nominations_join(a: Seq<Seq<u8>>, b: Seq<Seq<u8>>)
    ensures
        nominated_by_lines(a + b) == nominated_by_lines(a) + nominated_by_lines(b),
    decreases b.len(),
{
    if b.len() == 0 {
        assert(a + b =~= a);
        assert(nominated_by_lines(a) + nominated_by_lines(b) =~= nominated_by_lines(a));
    } else {
        lemma_nominations_join(a, b.drop_last());
        assert((a + b).drop_last() =~= a + b.drop_last());
        assert(nominated_by_lines(a + b) =~= nominated_by_lines(a) + nominated_by_lines(b));
    }
}

/// A line of another header nominates nothing.
proof fn lemma_nominates_nothing(before: Seq<Seq<u8>>, l: Seq<u8>, after: Seq<Seq<u8>>)
    requires
        !is_of(l, "connection"@),
    ensures
        nominated_by_lines(before + seq![l] + after) == nominated_by_lines(before + after),
{
    lemma_nominations_join(before + seq![l], after);
    lemma_nominations_join(before, seq![l]);
    lemma_nominations_join(before, after);
    lemma_line_parts(l);
    lemma_words();
    let one = seq![l];
    assert(one.drop_last() =~= Seq::empty());
    assert(nominated_by_lines(one.drop_last()) =~= Seq::empty());
    assert(nominated_by_lines(one) =~= Seq::empty());
    assert(nominated_by_lines(before) + Seq::<Seq<u8>>::empty() =~= nominated_by_lines(before));
}

// ---------------------------------------------------------------------------
// Responses
// ---------------------------------------------------------------------------

proof fn lemma_returned_join(a: Seq<Seq<u8>>, b: Seq<Seq<u8>>, n: Seq<Seq<u8>>)
    ensures
        returned_lines(a + b, n) == returned_lines(a, n) + returned_lines(b, n),
    decreases b.len(),
{
    if b.len() == 0 {
        assert(a + b =~= a);
        assert(returned_lines(a, n) + returned_lines(b, n) =~= returned_lines(a, n));
    } else {
        lemma_returned_join(a, b.drop_last(), n);
        assert((a + b).drop_last() =~= a + b.drop_last());
        assert(returned_lines(a + b, n) =~= returned_lines(a, n) + returned_lines(b, n));
    }
}

proof fn lemma_joined_lines(before: Seq<Seq<u8>>, l: Seq<u8>, after: Seq<Seq<u8>>, first: Seq<u8>)
    requires
        are_lines(first, before + seq![l] + after),
    ensures
        are_lines(first, before + after),
        are_lines(first, before),
{
    let all = before + seq![l] + after;
    let less = before + after;
    assert forall|i: int| 0 <= i < less.len() implies is_line(#[trigger] less[i]) by {
        if i < before.len() {
            assert(less[i] == all[i]);
        } else {
            assert(less[i] == all[i + 1]);
        }
    }
    assert forall|i: int| 0 <= i < before.len() implies is_line(#[trigger] before[i]) by {
        assert(before[i] == all[i]);
    }
}

/// Every line of a response whose header is neither for this hop alone nor named by a
/// `Connection` line goes back to the client, byte for byte and in its place: it adds
/// itself to the head and changes nothing else. The others leave no trace.
#[verifier::spinoff_prover]
#[verifier::rlimit(60)]
pub proof fn lemma_each_response_line_passes_or_stays(
    first: Seq<u8>,
    before: Seq<Seq<u8>>,
    l: Seq<u8>,
    after: Seq<Seq<u8>>,
    keep_alive: bool,
)
    requires
        are_lines(first, before + seq![l] + after),
        !is_of(l, "connection"@),
    ensures
        ({
            let more = return_head(head_text(first, before + seq![l] + after), keep_alive);
            let less = return_head(head_text(first, before + after), keep_alive);
            if !l.contains(58) || ends_here(l) || is_named_by(before + after, l) {
                more == less
            } else {
                &&& put_in(more, less, l + eol(), less)
                &&& (forall|i: int|
                    0 <= i < after.len() ==> !is_of(#[trigger] after[i], "connection"@)) ==> put_in(
                    more,
                    less,
                    l + eol(),
                    return_head(head_text(first, before), keep_alive),
                )
            }
        }),
{
    let all = before + seq![l] + after;
    let fewer = before + after;
    lemma_joined_lines(before, l, after, first);
    lemma_head_reads_back(first, all);
    lemma_head_reads_back(first, fewer);
    lemma_nominates_nothing(before, l, after);
    let n = nominated_by_lines(fewer);
    lemma_nominated(fewer, l);
    lemma_line_parts(l);
    lemma_returned_join(before + seq![l], after, n);
    lemma_returned_join(before, seq![l], n);
    lemma_returned_join(before, after, n);
    lemma_eol();
    let one = seq![l];
    assert(one.drop_last() =~= Seq::empty());
    assert(returned_lines(one.drop_last(), n) =~= Seq::empty());
    let own = returned_lines(one, n);
    assert(l.contains(58) && !ends_here(l) && !is_named_by(fewer, l) ==> own =~= l + eol());
    let more = return_head(head_text(first, all), keep_alive);
    let less = return_head(head_text(first, fewer), keep_alive);
    let at = (first + eol() + returned_lines(before, n)).len() as int;
    assert(less.take(at) =~= first + eol() + returned_lines(before, n));
    assert(more =~= less.take(at) + own + less.skip(at));
    assert(less.take(at) =~= less.take(at));
    if own.len() == 0 {
        assert(more =~= less);
    }
    if forall|i: int| 0 <= i < after.len() ==> !is_of(#[trigger] after[i], "connection"@) {
        lemma_no_nominations(after);
        lemma_nominations_join(before, after);
        assert(nominated_by_lines(before) =~= n);
        lemma_head_reads_back(first, before);
        let lead = return_head(head_text(first, before), keep_alive);
        assert(lead.take(at) =~= first + eol() + returned_lines(before, n));
    }
}

/// The first line of a response goes back to the client as it came, the lines that it
/// keeps follow in the order in which they came, and the disposition that will be honoured
/// ends the head.
pub proof fn lemma_response_keeps_its_order(first: Seq<u8>, lines: Seq<Seq<u8>>, keep_alive: bool)
    requires
        are_lines(first, lines),
        forall|i: int|
            0 <= i < lines.len() ==> (#[trigger] lines[i]).contains(58) && !ends_here(lines[i]),
    ensures
        return_head(head_text(first, lines), keep_alive) == first + eol() + ended(lines)
            + encode_utf8("Connection: "@) + encode_utf8(
            if keep_alive {
                "keep-alive"@
            } else {
                "close"@
            },
        ) + eol() + eol(),
{
    lemma_head_reads_back(first, lines);
    lemma_no_nominations(lines);
    lemma_all_returned(lines);
    lemma_dispositions();
    lemma_eol();
    assert(return_head(head_text(first, lines), keep_alive) =~= first + eol() + ended(lines)
        + encode_utf8("Connection: "@) + encode_utf8(
        if keep_alive {
            "keep-alive"@
        } else {
            "close"@
        },
    ) + eol() + eol());
}

proof fn lemma_dispositions()
    ensures
        encode_utf8("Connection: keep-alive\r\n\r\n"@) == encode_utf8("Connection: "@)
            + encode_utf8("keep-alive"@) + eol() + eol(),
        encode_utf8("Connection: close\r\n\r\n"@) == encode_utf8("Connection: "@) + encode_utf8(
            "close"@,
        ) + eol() + eol(),
{
    reveal_strlit("Connection: keep-alive\r\n\r\n");
    reveal_strlit("Connection: close\r\n\r\n");
    reveal_strlit("Connection: ");
    reveal_strlit("keep-alive");
    reveal_strlit("close");
    vstd::utf8::is_ascii_chars_encode_utf8("Connection: keep-alive\r\n\r\n"@);
    vstd::utf8::is_ascii_chars_encode_utf8("Connection: close\r\n\r\n"@);
    vstd::utf8::is_ascii_chars_encode_utf8("Connection: "@);
    vstd::utf8::is_ascii_chars_encode_utf8("keep-alive"@);
    vstd::utf8::is_ascii_chars_encode_utf8("close"@);
    assert(encode_utf8("Connection: keep-alive\r\n\r\n"@) =~= encode_utf8("Connection: "@)
        + encode_utf8("keep-alive"@) + eol() + eol());
    assert(encode_utf8("Connection: close\r\n\r\n"@) =~= encode_utf8("Connection: "@) + encode_utf8(
        "close"@,
    ) + eol() + eol());
}

/// Lines none of which is a `Connection` line nominate nothing.
proof fn lemma_no_nominations(lines: Seq<Seq<u8>>)
    requires
        forall|i: int| 0 <= i < lines.len() ==> !is_of(#[trigger] lines[i], "connection"@),
    ensures
        nominated_by_lines(lines) == Seq::<Seq<u8>>::empty(),
    decreases lines.len(),
{
    if lines.len() > 0 {
        let init = lines.drop_last();
        assert forall|i: int| 0 <= i < init.len() implies !is_of(
            #[trigger] init[i],
            "connection"@,
        ) by {
            assert(init[i] == lines[i]);
        }
        lemma_no_nominations(init);
        assert(!is_of(lines[lines.len() - 1], "connection"@));
        lemma_line_parts(lines.last());
        lemma_words();
    }
}

proof fn lemma_all_returned(lines: Seq<Seq<u8>>)
    requires
        forall|i: int|
            0 <= i < lines.len() ==> (#[trigger] lines[i]).contains(58) && !ends_here(lines[i]),
    ensures
        returned_lines(lines, Seq::empty()) == ended(lines),
    decreases lines.len(),
{
    if lines.len() > 0 {
        let rest = lines.skip(1);
        assert forall|i: int| 0 <= i < rest.len() implies (#[trigger] rest[i]).contains(58)
            && !ends_here(rest[i]) by {
            assert(rest[i] == lines[i + 1]);
        }
        lemma_all_returned(rest);
        let one = seq![lines[0]];
        assert(one + rest =~= lines);
        lemma_returned_join(one, rest, Seq::empty());
        lemma_line_parts(lines[0]);
        lemma_eol();
        assert(one.drop_last() =~= Seq::empty());
        assert(returned_lines(one.drop_last(), Seq::empty()) =~= Seq::empty());
        assert(returned_lines(one, Seq::empty()) =~= lines[0] + eol());
    }
}

// ---------------------------------------------------------------------------
// Requests
// ---------------------------------------------------------------------------

proof fn lemma_forwarded_join(a: Seq<Seq<u8>>, b: Seq<Seq<u8>>, n: Seq<Seq<u8>>)
    ensures
        forwarded_lines(a + b, n) == forwarded_lines(a, n) + forwarded_lines(b, n),
        existing_chain(a + b, n) == (if existing_chain(b, n) is Some {
            existing_chain(b, n)
        } else {
            existing_chain(a, n)
        }),
    decreases b.len(),
{
    if b.len() == 0 {
        assert(a + b =~= a);
        assert(forwarded_lines(a, n) + forwarded_lines(b, n) =~= forwarded_lines(a, n));
    } else {
        lemma_forwarded_join(a, b.drop_last(), n);
        assert((a + b).drop_last() =~= a + b.drop_last());
        assert(forwarded_lines(a + b, n) =~= forwarded_lines(a, n) + forwarded_lines(b, n));
    }
}

proof fn lemma_one_forwarded(l: Seq<u8>, n: Seq<Seq<u8>>)
    ensures
        forwarded_lines(seq![l], n) == (if !l.contains(58) || ends_here(l) || is_of(l, "host"@)
            || is_of(l, "x-forwarded-for"@) || is_nominated(name_of(l), n) {
            Seq::empty()
        } else {
            l + eol()
        }),
        existing_chain(seq![l], n) == (if !ends_here(l) && !is_of(l, "host"@) && is_of(
            l,
            "x-forwarded-for"@,
        ) && !is_nominated(name_of(l), n) {
            Some(trimmed_bytes(value_of(l)))
        } else {
            None
        }),
{
    lemma_line_parts(l);
    lemma_words();
    lemma_eol();
    let one = seq![l];
    assert(one.drop_last() =~= Seq::empty());
    assert(forwarded_lines(one.drop_last(), n) =~= Seq::empty());
    assert(existing_chain(one.drop_last(), n) is None);
    assert(forwarded_lines(one, n) =~= (if !l.contains(58) || ends_here(l) || is_of(l, "host"@)
        || is_of(l, "x-forwarded-for"@) || is_nominated(name_of(l), n) {
        Seq::empty()
    } else {
        l + eol()
    }));
}

/// Every line of a request whose header is neither for this hop alone, nor named by a
/// `Connection` line, nor the proxy's own goes upstream, byte for byte and in its place: it
/// adds itself to the head and changes nothing else. The others leave no trace.
pub proof fn lemma_each_request_line_passes_or_stays(
    first: Seq<u8>,
    before: Seq<Seq<u8>>,
    l: Seq<u8>,
    after: Seq<Seq<u8>>,
    method: Seq<char>,
    target: Seq<char>,
    host: Seq<char>,
    peer: Option<Seq<char>>,
)
    requires
        are_lines(first, before + seq![l] + after),
        !is_of(l, "connection"@),
        !is_of(l, "x-forwarded-for"@),
    ensures
        ({
            let more = forward_head(
                head_text(first, before + seq![l] + after),
                method,
                target,
                host,
                peer,
            );
            let less = forward_head(head_text(first, before + after), method, target, host, peer);
            if !l.contains(58) || ends_here(l) || is_of(l, "host"@) || is_named_by(
                before + after,
                l,
            ) {
                more == less
            } else {
                &&& put_in(more, less, l + eol(), less)
                &&& (forall|i: int|
                    0 <= i < after.len() ==> !is_of(#[trigger] after[i], "connection"@)) ==> put_in(
                    more,
                    less,
                    l + eol(),
                    forward_head(head_text(first, before), method, target, host, peer),
                )
            }
        }),
{
    let all = before + seq![l] + after;
    let fewer = before + after;
    lemma_joined_lines(before, l, after, first);
    lemma_nominates_nothing(before, l, after);
    let n = nominated_by_lines(fewer);
    lemma_nominated(fewer, l);
    lemma_forwarded_join(before + seq![l], after, n);
    lemma_forwarded_join(before, seq![l], n);
    lemma_forwarded_join(before, after, n);
    lemma_one_forwarded(l, n);
    let own = forwarded_lines(seq![l], n);
    let start = start_of(method, target);
    let more = forward_head(head_text(first, all), method, target, host, peer);
    let less = forward_head(head_text(first, fewer), method, target, host, peer);
    let chain = existing_chain(fewer, n);
    let tail = tail_of(host, peer, chain);
    let (x, y) = (forwarded_lines(before, n), forwarded_lines(after, n));
    assert(existing_chain(all, n) == chain);
    lemma_forward_shape(first, all, method, target, host, peer);
    lemma_forward_shape(first, fewer, method, target, host, peer);
    lemma_insert(start, x, own, y, tail);
    if own.len() == 0 {
        assert(x + own + y =~= x + y);
    }
    if forall|i: int| 0 <= i < after.len() ==> !is_of(#[trigger] after[i], "connection"@) {
        lemma_no_nominations(after);
        lemma_nominations_join(before, after);
        assert(nominated_by_lines(before) =~= n);
        lemma_forward_shape(first, before, method, target, host, peer);
        lemma_lead(start, x, tail_of(host, peer, existing_chain(before, n)), y, tail);
    }
}

spec fn start_of(method: Seq<char>, target: Seq<char>) -> Seq<u8> {
    encode_utf8(method) + encode_utf8(" "@) + encode_utf8(target) + encode_utf8(" HTTP/1.1\r\n"@)
}

spec fn tail_of(host: Seq<char>, peer: Option<Seq<char>>, chain: Option<Seq<u8>>) -> Seq<u8> {
    encode_utf8("Host: "@) + encode_utf8(host) + encode_utf8("\r\n"@) + forwarding_lines(peer, chain)
        + encode_utf8("\r\n"@)
}

proof fn lemma_forward_shape(
    first: Seq<u8>,
    lines: Seq<Seq<u8>>,
    method: Seq<char>,
    target: Seq<char>,
    host: Seq<char>,
    peer: Option<Seq<char>>,
)
    requires
        are_lines(first, lines),
    ensures
        ({
            let n = nominated_by_lines(lines);
            forward_head(head_text(first, lines), method, target, host, peer) == start_of(
                method,
                target,
            ) + forwarded_lines(lines, n) + tail_of(host, peer, existing_chain(lines, n))
        }),
{
    lemma_head_reads_back(first, lines);
    let n = nominated_by_lines(lines);
    assert(forward_head(head_text(first, lines), method, target, host, peer) =~= start_of(
        method,
        target,
    ) + forwarded_lines(lines, n) + tail_of(host, peer, existing_chain(lines, n)));
}

proof fn lemma_insert(start: Seq<u8>, x: Seq<u8>, own: Seq<u8>, y: Seq<u8>, tail: Seq<u8>)
    ensures
        put_in(start + (x + own + y) + tail, start + (x + y) + tail, own, start + (x + y) + tail),
{
    let less = start + (x + y) + tail;
    let at = (start + x).len() as int;
    assert(less.take(at) =~= start + x);
    assert(start + (x + own + y) + tail =~= less.take(at) + own + less.skip(at));
}

/// Two texts that begin alike.
proof fn lemma_lead(start: Seq<u8>, x: Seq<u8>, other: Seq<u8>, y: Seq<u8>, tail: Seq<u8>)
    ensures
        forall|own: Seq<u8>|
            #![trigger put_in(start + (x + own + y) + tail, start + (x + y) + tail, own, start + x + other)]
            put_in(start + (x + own + y) + tail, start + (x + y) + tail, own, start + x + other),
{
    assert forall|own: Seq<u8>|
        #![trigger put_in(start + (x + own + y) + tail, start + (x + y) + tail, own, start + x + other)]
        put_in(start + (x + own + y) + tail, start + (x + y) + tail, own, start + x + other) by {
        let less = start + (x + y) + tail;
        let lead = start + x + other;
        let at = (start + x).len() as int;
        assert(less.take(at) =~= start + x);
        assert(lead.take(at) =~= start + x);
        assert(start + (x + own + y) + tail =~= less.take(at) + own + less.skip(at));
    }
}

/// The request line that goes upstream reads back as the method of the request that came
/// in, the target that was asked for, and HTTP/1.1.
pub proof fn lemma_request_line_reads_back(
    head: Seq<u8>,
    method: Seq<char>,
    target: Seq<char>,
    host: Seq<char>,
    peer: Option<Seq<char>>,
)
    requires
        !encode_utf8(method).contains(32),
        !encode_utf8(target).contains(32),
    ensures
        request_words(forward_head(head, method, target, host, peer)) == (
            encode_utf8(method),
            encode_utf8(target),
            seq![72u8, 84, 84, 80, 47, 49, 46, 49],
        ),
{
    let out = forward_head(head, method, target, host, peer);
    let lines = header_lines(head.skip(first_line_end(head)));
    let n = nominated_by_lines(lines);
    let rest = forwarded_lines(lines, n) + tail_of(host, peer, existing_chain(lines, n));
    assert(out =~= start_of(method, target) + rest);
    lemma_words_of(method, target, rest);
}

proof fn lemma_words_of(method: Seq<char>, target: Seq<char>, more: Seq<u8>)
    requires
        !encode_utf8(method).contains(32),
        !encode_utf8(target).contains(32),
    ensures
        request_words(start_of(method, target) + more) == (
            encode_utf8(method),
            encode_utf8(target),
            seq![72u8, 84, 84, 80, 47, 49, 46, 49],
        ),
{
    let out = start_of(method, target) + more;
    let (m, t) = (encode_utf8(method), encode_utf8(target));
    let v = seq![72u8, 84, 84, 80, 47, 49, 46, 49];
    reveal_strlit(" ");
    reveal_strlit(" HTTP/1.1\r\n");
    vstd::utf8::is_ascii_chars_encode_utf8(" "@);
    vstd::utf8::is_ascii_chars_encode_utf8(" HTTP/1.1\r\n"@);
    assert(encode_utf8(" "@) =~= seq![32u8]);
    let end = seq![10u8] + more;
    assert(encode_utf8(" HTTP/1.1\r\n"@) =~= seq![32u8] + v + seq![13u8, 10u8]);
    let last = v + seq![13u8] + end;
    let rest = t + seq![32u8] + last;
    assert(out =~= m + seq![32u8] + rest);
    lemma_byte_first(m, 32, rest);
    assert(out.take(m.len() as int) =~= m);
    assert(out.skip((m.len() + 1) as int) =~= rest);
    lemma_byte_first(t, 32, last);
    assert(rest.take(t.len() as int) =~= t);
    assert(rest.skip((t.len() + 1) as int) =~= last);
    assert(!v.contains(13)) by {
        if v.contains(13) {
            let i = choose|i: int| 0 <= i < v.len() && v[i] == 13;
        }
    }
    lemma_byte_first(v, 13, end);
    assert(last.take(8) =~= v);
}

/// A `name: value` line of text.
pub open spec fn text_line(name: Seq<char>, value: Seq<u8>) -> Seq<u8> {
    encode_utf8(name) + seq![58u8, 32u8] + value + eol()
}

proof fn lemma_forwarding_words()
    ensures
        encode_utf8("Host: "@) == encode_utf8("Host"@) + seq![58u8, 32u8],
        encode_utf8("X-Forwarded-For: "@) == encode_utf8("X-Forwarded-For"@) + seq![58u8, 32u8],
        encode_utf8(", "@) == seq![44u8, 32u8],
        encode_utf8("\r\nX-Forwarded-Proto: http\r\n"@) == eol() + text_line(
            "X-Forwarded-Proto"@,
            encode_utf8("http"@),
        ),
{
    reveal_strlit("Host: ");
    reveal_strlit("Host");
    reveal_strlit("X-Forwarded-For: ");
    reveal_strlit("X-Forwarded-For");
    reveal_strlit(", ");
    reveal_strlit("\r\nX-Forwarded-Proto: http\r\n");
    reveal_strlit("X-Forwarded-Proto");
    reveal_strlit("http");
    vstd::utf8::is_ascii_chars_encode_utf8("Host: "@);
    vstd::utf8::is_ascii_chars_encode_utf8("Host"@);
    vstd::utf8::is_ascii_chars_encode_utf8("X-Forwarded-For: "@);
    vstd::utf8::is_ascii_chars_encode_utf8("X-Forwarded-For"@);
    vstd::utf8::is_ascii_chars_encode_utf8(", "@);
    vstd::utf8::is_ascii_chars_encode_utf8("\r\nX-Forwarded-Proto: http\r\n"@);
    vstd::utf8::is_ascii_chars_encode_utf8("X-Forwarded-Proto"@);
    vstd::utf8::is_ascii_chars_encode_utf8("http"@);
    assert(encode_utf8("Host: "@) =~= encode_utf8("Host"@) + seq![58u8, 32u8]);
    assert(encode_utf8("X-Forwarded-For: "@) =~= encode_utf8("X-Forwarded-For"@) + seq![
        58u8,
        32u8,
    ]);
    assert(encode_utf8(", "@) =~= seq![44u8, 32u8]);
    assert(encode_utf8("\r\nX-Forwarded-Proto: http\r\n"@) =~= eol() + text_line(
        "X-Forwarded-Proto"@,
        encode_utf8("http"@),
    ));
}

/// What the head ends in, given the chain that the request brought.
proof fn lemma_own_headers(
    first: Seq<u8>,
    lines: Seq<Seq<u8>>,
    method: Seq<char>,
    target: Seq<char>,
    host: Seq<char>,
    peer: Option<Seq<char>>,
    chain: Option<Seq<u8>>,
)
    requires
        are_lines(first, lines),
        chain == existing_chain(lines, nominated_by_lines(lines)),
    ensures
        ({
            let head = forward_head(head_text(first, lines), method, target, host, peer);
            let end = text_line("Host"@, encode_utf8(host)) + (match peer {
                None => Seq::empty(),
                Some(ip) => text_line(
                    "X-Forwarded-For"@,
                    (match chain {
                        Some(c) => c + seq![44u8, 32u8],
                        None => Seq::empty(),
                    }) + encode_utf8(ip),
                ) + text_line("X-Forwarded-Proto"@, encode_utf8("http"@)),
            }) + eol();
            end.len() <= head.len() && head.skip(head.len() - end.len()) == end
        }),
{
    lemma_head_reads_back(first, lines);
    lemma_forwarding_words();
    lemma_eol();
    let head = forward_head(head_text(first, lines), method, target, host, peer);
    let end = text_line("Host"@, encode_utf8(host)) + (match peer {
        None => Seq::empty(),
        Some(ip) => text_line(
            "X-Forwarded-For"@,
            (match chain {
                Some(c) => c + seq![44u8, 32u8],
                None => Seq::empty(),
            }) + encode_utf8(ip),
        ) + text_line("X-Forwarded-Proto"@, encode_utf8("http"@)),
    }) + eol();
    let start = encode_utf8(method) + encode_utf8(" "@) + encode_utf8(target) + encode_utf8(
        " HTTP/1.1\r\n"@,
    ) + forwarded_lines(lines, nominated_by_lines(lines));
    assert(head =~= start + end);
    assert(head.skip(head.len() - end.len()) =~= end);
}

/// Behind the request's own headers the head names the backend as its host; to a peer that
/// is to be told of, it starts the chain where the request brought none.
pub proof fn lemma_proxys_headers_end_the_head(
    first: Seq<u8>,
    lines: Seq<Seq<u8>>,
    method: Seq<char>,
    target: Seq<char>,
    host: Seq<char>,
    peer: Option<Seq<char>>,
)
    requires
        are_lines(first, lines),
        forall|i: int| 0 <= i < lines.len() ==> !is_of(#[trigger] lines[i], "x-forwarded-for"@),
    ensures
        ({
            let head = forward_head(head_text(first, lines), method, target, host, peer);
            let end = text_line("Host"@, encode_utf8(host)) + (match peer {
                None => Seq::empty(),
                Some(ip) => text_line("X-Forwarded-For"@, encode_utf8(ip)) + text_line(
                    "X-Forwarded-Proto"@,
                    encode_utf8("http"@),
                ),
            }) + eol();
            &&& end.len() <= head.len()
            &&& head.skip(head.len() - end.len()) == end
            &&& lines.len() == 0 ==> head == encode_utf8(method) + seq![32u8] + encode_utf8(target)
                + seq![32u8, 72, 84, 84, 80, 47, 49, 46, 49, 13, 10] + end
        }),
{
    let n = nominated_by_lines(lines);
    lemma_no_chain(lines, n);
    lemma_own_headers(first, lines, method, target, host, peer, None);
    let head = forward_head(head_text(first, lines), method, target, host, peer);
    let end = text_line("Host"@, encode_utf8(host)) + (match peer {
        None => Seq::empty(),
        Some(ip) => text_line("X-Forwarded-For"@, encode_utf8(ip)) + text_line(
            "X-Forwarded-Proto"@,
            encode_utf8("http"@),
        ),
    }) + eol();
    if let Some(ip) = peer {
        assert(Seq::<u8>::empty() + encode_utf8(ip) =~= encode_utf8(ip));
    }
    if lines.len() == 0 {
        lemma_head_reads_back(first, lines);
        lemma_eol();
        lemma_forwarding_words();
        reveal_strlit(" ");
        reveal_strlit(" HTTP/1.1\r\n");
        vstd::utf8::is_ascii_chars_encode_utf8(" "@);
        vstd::utf8::is_ascii_chars_encode_utf8(" HTTP/1.1\r\n"@);
        assert(forwarded_lines(lines, n) =~= Seq::empty());
        assert(encode_utf8(" HTTP/1.1\r\n"@) =~= seq![
            32u8,
            72,
            84,
            84,
            80,
            47,
            49,
            46,
            49,
            13,
            10,
        ]);
        assert(encode_utf8(" "@) =~= seq![32u8]);
        assert(head =~= encode_utf8(method) + seq![32u8] + encode_utf8(target) + seq![
            32u8,
            72,
            84,
            84,
            80,
            47,
            49,
            46,
            49,
            13,
            10,
        ] + end);
    }
}

proof fn lemma_no_chain(lines: Seq<Seq<u8>>, n: Seq<Seq<u8>>)
    requires
        forall|i: int| 0 <= i < lines.len() ==> !is_of(#[trigger] lines[i], "x-forwarded-for"@),
    ensures
        existing_chain(lines, n) is None,
    decreases lines.len(),
{
    if lines.len() > 0 {
        let init = lines.drop_last();
        assert forall|i: int| 0 <= i < init.len() implies !is_of(
            #[trigger] init[i],
            "x-forwarded-for"@,
        ) by {
            assert(init[i] == lines[i]);
        }
        lemma_no_chain(init, n);
        assert(!is_of(lines[lines.len() - 1], "x-forwarded-for"@));
        lemma_line_parts(lines.last());
        lemma_words();
    }
}

/// The chain of a request that came through other proxies is kept, and a peer that is to
/// be told of is put behind it.
pub proof fn lemma_forwarding_chain_grows(
    first: Seq<u8>,
    before: Seq<Seq<u8>>,
    l: Seq<u8>,
    after: Seq<Seq<u8>>,
    method: Seq<char>,
    target: Seq<char>,
    host: Seq<char>,
    ip: Seq<char>,
)
    requires
        are_lines(first, before + seq![l] + after),
        is_of(l, "x-forwarded-for"@),
        !ends_here(l),
        !is_of(l, "host"@),
        !is_named_by(before + seq![l] + after, l),
        forall|i: int| 0 <= i < after.len() ==> !is_of(#[trigger] after[i], "x-forwarded-for"@),
    ensures
        stands_in(
            forward_head(
                head_text(first, before + seq![l] + after),
                method,
                target,
                host,
                Some(ip),
            ),
            text_line(
                "X-Forwarded-For"@,
                trimmed_bytes(value_of(l)) + seq![44u8, 32u8] + encode_utf8(ip),
            ),
        ),
{
    let all = before + seq![l] + after;
    let n = nominated_by_lines(all);
    lemma_nominated(all, l);
    lemma_forwarded_join(before + seq![l], after, n);
    lemma_forwarded_join(before, seq![l], n);
    lemma_one_forwarded(l, n);
    lemma_no_chain(after, n);
    let c = trimmed_bytes(value_of(l));
    lemma_own_headers(first, all, method, target, host, Some(ip), Some(c));
    let head = forward_head(head_text(first, all), method, target, host, Some(ip));
    let own = text_line("X-Forwarded-For"@, c + seq![44u8, 32u8] + encode_utf8(ip));
    let named = text_line("Host"@, encode_utf8(host));
    let tail = text_line("X-Forwarded-Proto"@, encode_utf8("http"@)) + eol();
    let end = named + (own + text_line("X-Forwarded-Proto"@, encode_utf8("http"@))) + eol();
    let at = head.len() - end.len() + named.len();
    assert(head.subrange(at, at + own.len()) =~= end.subrange(
        named.len() as int,
        (named.len() + own.len()) as int,
    ));
    assert(end.subrange(named.len() as int, (named.len() + own.len()) as int) =~= own);
}

} // verus!
