//! What texts, numbers and lists are read as is what they were written from.

use vstd::prelude::*;
use vstd::string::*;
use vstd::utf8::encode_utf8;

use crate::lb_core::simd::{lower_bytes, without_port};
use crate::text::{
    is_space, lemma_position, lower, lower_text, nat_text, pieces, position_of, same_ignoring_case,
    trimmed, without_leading_space, without_trailing_space,
};
use crate::wire::{all_digits, digits_value, number_in, number_up_to, unsigned_part, value_number};

verus! {

/// Whether two characters are the same, ASCII case aside: they are equal, or 32 apart and
/// both letters.
pub open spec fn same_letter(a: char, b: char) -> bool {
    ||| a == b
    ||| 'A' <= a <= 'Z' && b as u32 == a as u32 + 32
    ||| 'A' <= b <= 'Z' && a as u32 == b as u32 + 32
}

/// Two texts are the same, ASCII case aside, exactly where they are as long as each other
/// and the same letter by letter.
pub proof fn lemma_case_is_ignored_letter_by_letter(a: Seq<char>, b: Seq<char>)
    ensures
        same_ignoring_case(a, b) <==> a.len() == b.len() && forall|i: int|
            0 <= i < a.len() ==> same_letter(#[trigger] a[i], b[i]),
{
    if same_ignoring_case(a, b) {
        assert(lower_text(a).len() == lower_text(b).len());
        assert forall|i: int| 0 <= i < a.len() implies same_letter(#[trigger] a[i], b[i]) by {
            assert(lower_text(a)[i] == lower_text(b)[i]);
            lemma_lower(a[i]);
            lemma_lower(b[i]);
        }
    }
    if a.len() == b.len() && forall|i: int|
        0 <= i < a.len() ==> same_letter(#[trigger] a[i], b[i]) {
        assert forall|i: int| 0 <= i < a.len() implies lower_text(a)[i] == lower_text(b)[i] by {
            assert(same_letter(a[i], b[i]));
            lemma_lower(a[i]);
            lemma_lower(b[i]);
        }
        assert(lower_text(a) =~= lower_text(b));
    }
}

proof fn lemma_lower(c: char)
    ensures
        lower(c) as u32 == (if 'A' <= c <= 'Z' {
            c as u32 + 32
        } else {
            c as int
        }),
{
}

/// The lower-case form of bytes changes the capital letters of ASCII and nothing else.
pub proof fn lemma_lower_bytes_changes_capitals_alone(s: Seq<u8>, i: int)
    requires
        0 <= i < s.len(),
    ensures
        lower_bytes(s).len() == s.len(),
        lower_bytes(s)[i] == (if 65 <= s[i] && s[i] <= 90 {
            (s[i] + 32) as u8
        } else {
            s[i]
        }),
{
}

pub proof fn lemma_decimal(n: nat)
    ensures
        all_digits(nat_text(n)),
        digits_value(nat_text(n)) == n,
        forall|i: int| 0 <= i < nat_text(n).len() ==> '0' <= #[trigger] nat_text(n)[i] <= '9',
    decreases n,
{
    let t = nat_text(n);
    if n < 10 {
        assert(t.drop_last() =~= Seq::empty());
        assert(digits_value(t.drop_last()) == 0);
    } else {
        lemma_decimal(n / 10);
        assert(t.drop_last() =~= nat_text(n / 10));
        assert forall|i: int| 0 <= i < t.len() implies '0' <= #[trigger] t[i] <= '9' by {
            if i < nat_text(n / 10).len() {
                assert(t[i] == nat_text(n / 10)[i]);
            }
        }
    }
}

/// A number that is written in decimal is read as that number, as a text and as the value
/// of a header.
pub proof fn lemma_numbers_read_back(n: nat, max: int)
    requires
        n <= max,
    ensures
        number_in(nat_text(n)) == Some(n as int),
        number_up_to(nat_text(n), max) == Some(n as int),
        value_number(encode_utf8(nat_text(n)), max) == Some(n as int),
{
    let t = nat_text(n);
    lemma_decimal(n);
    assert(t.len() > 0);
    assert('0' <= t[0] <= '9');
    assert('0' <= t[t.len() - 1] <= '9');
    assert(unsigned_part(t) == t);
    vstd::utf8::encode_utf8_decode_utf8(t);
    vstd::utf8::encode_utf8_valid_utf8(t);
    assert(!is_space(t[0]));
    assert(!is_space(t.last()));
    assert(trimmed(t) == t);
}

/// Pieces with separators between them.
pub open spec fn joined_by(parts: Seq<Seq<char>>, sep: char) -> Seq<char>
    decreases parts.len(),
{
    if parts.len() == 0 {
        Seq::empty()
    } else if parts.len() == 1 {
        parts[0]
    } else {
        parts[0] + seq![sep] + joined_by(parts.skip(1), sep)
    }
}

/// What is split at a separator is the pieces between the separators, all of them: put
/// together again they are the whole, and none holds a separator.
pub proof fn lemma_pieces_make_up_the_whole(s: Seq<char>, sep: char)
    ensures
        joined_by(pieces(s, sep), sep) == s,
        pieces(s, sep).len() > 0,
        forall|i: int| 0 <= i < pieces(s, sep).len() ==> !(#[trigger] pieces(s, sep)[i]).contains(sep),
    decreases s.len(),
{
    let k = position_of(s, sep);
    lemma_position(s, sep);
    let parts = pieces(s, sep);
    if k < s.len() {
        let rest = s.skip(k + 1);
        lemma_pieces_make_up_the_whole(rest, sep);
        assert(parts.skip(1) =~= pieces(rest, sep));
        assert(s =~= s.take(k) + seq![sep] + rest);
        assert forall|i: int| 0 <= i < parts.len() implies !(#[trigger] parts[i]).contains(sep) by {
            if i == 0 {
                assert(parts[0] == s.take(k));
            } else {
                assert(parts[i] == pieces(rest, sep)[i - 1]);
            }
        }
    } else {
        assert(parts =~= seq![s]);
    }
}

/// What is trimmed lost white space at its ends and nothing else.
pub proof fn lemma_trimming_takes_white_space_alone(s: Seq<char>)
    ensures
        exists|a: int, b: int|
            0 <= a <= b <= s.len() && trimmed(s) == #[trigger] s.subrange(a, b) && (forall|i: int|
                0 <= i < a ==> is_space(#[trigger] s[i])) && (forall|i: int|
                b <= i < s.len() ==> is_space(#[trigger] s[i])),
        trimmed(s).len() > 0 ==> !is_space(trimmed(s)[0]) && !is_space(trimmed(s).last()),
{
    let l = without_leading_space(s);
    let a = lemma_leading(s);
    let n = lemma_trailing(l);
    let b = a + n;
    assert(trimmed(s) =~= s.subrange(a, b));
    assert forall|i: int| b <= i < s.len() implies is_space(#[trigger] s[i]) by {
        assert(l[i - a] == s[i]);
    }
    if trimmed(s).len() > 0 {
        assert(trimmed(s)[0] == l[0]);
    }
}

proof fn lemma_leading(s: Seq<char>) -> (a: int)
    ensures
        0 <= a <= s.len(),
        without_leading_space(s) == s.skip(a),
        forall|i: int| 0 <= i < a ==> is_space(#[trigger] s[i]),
        a < s.len() ==> !is_space(s[a]),
    decreases s.len(),
{
    if s.len() > 0 && is_space(s[0]) {
        let rest = s.skip(1);
        let a = lemma_leading(rest);
        assert(rest.skip(a) =~= s.skip(a + 1));
        assert forall|i: int| 0 <= i < a + 1 implies is_space(#[trigger] s[i]) by {
            if i > 0 {
                assert(rest[i - 1] == s[i]);
            }
        }
        a + 1
    } else {
        assert(s.skip(0) =~= s);
        0
    }
}

proof fn lemma_trailing(s: Seq<char>) -> (n: int)
    ensures
        0 <= n <= s.len(),
        without_trailing_space(s) == s.take(n),
        forall|i: int| n <= i < s.len() ==> is_space(#[trigger] s[i]),
        n > 0 ==> !is_space(s[n - 1]),
    decreases s.len(),
{
    if s.len() > 0 && is_space(s.last()) {
        let init = s.drop_last();
        let n = lemma_trailing(init);
        assert(init.take(n) =~= s.take(n));
        assert forall|i: int| n <= i < s.len() implies is_space(#[trigger] s[i]) by {
            if i < init.len() {
                assert(init[i] == s[i]);
            }
        }
        n
    } else {
        assert(s.take(s.len() as int) =~= s);
        s.len() as int
    }
}

/// A host loses its port, whatever the port is, and a host without one loses nothing; the
/// brackets of an address stay with it.
pub proof fn lemma_host_loses_its_port(host: Seq<char>, port: Seq<char>)
    ensures
        !host.contains(':') && !host.contains('[') ==> without_port(host) == host,
        !host.contains(':') && !host.contains('[') ==> without_port(host + seq![':'] + port) == host,
        !host.contains(']') ==> without_port(seq!['['] + host + seq![']']) == seq!['['] + host + seq![
            ']',
        ],
        !host.contains(']') ==> without_port(seq!['['] + host + seq![']', ':'] + port) == seq!['[']
            + host + seq![']'],
{
    if !host.contains(':') && !host.contains('[') {
        lemma_position(host, ':');
        assert(host.take(host.len() as int) =~= host);
        if host.len() > 0 {
            assert(host[0] != '[') by {
                assert(host.contains(host[0]));
            }
        }
        let all = host + seq![':'] + port;
        lemma_position(all, ':');
        let k = position_of(all, ':');
        assert(all[host.len() as int] == ':');
        if k < host.len() {
            assert(host[k] == ':');
        }
        assert(all.take(k) =~= host);
        assert(position_of(host, ':') == host.len()) by {
            let m = position_of(host, ':');
            if m < host.len() {
                assert(host[m] == ':');
            }
        }
    }
    if !host.contains(']') {
        let closed = seq!['['] + host + seq![']'];
        lemma_closing(closed, host);
        assert(closed.take((host.len() + 2) as int) =~= closed);
        let all = seq!['['] + host + seq![']', ':'] + port;
        lemma_closing(all, host);
        assert(all.take((host.len() + 2) as int) =~= closed);
    }
}

proof fn lemma_closing(all: Seq<char>, host: Seq<char>)
    requires
        !host.contains(']'),
        all.len() >= host.len() + 2,
        all[0] == '[',
        forall|i: int| 0 <= i < host.len() ==> all[i + 1] == #[trigger] host[i],
        all[(host.len() + 1) as int] == ']',
    ensures
        position_of(all, ']') == host.len() + 1,
{
    lemma_position(all, ']');
    let k = position_of(all, ']');
    if 0 < k < host.len() + 1 {
        assert(all[k] == host[k - 1]);
        assert(host.contains(host[k - 1]));
    }
}

} // verus!
