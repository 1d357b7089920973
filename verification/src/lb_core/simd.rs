//! Byte primitives used on the request hot path: UTF-8 validation, delimiter
//! search and ASCII-case-insensitive matching.

use vstd::prelude::*;
use vstd::string::*;
use vstd::utf8::valid_utf8;

use crate::text::{chars_of, find_char, lemma_position, position_of};

verus! {

/// The ASCII lower-case form of a byte.
pub open spec fn lower_byte(b: u8) -> u8 {
    if 65 <= b <= 90 {
        (b + 32) as u8
    } else {
        b
    }
}

/// The ASCII lower-case form of a byte string.
pub open spec fn lower_bytes(s: Seq<u8>) -> Seq<u8> {
    Seq::new(s.len(), |i: int| lower_byte(s[i]))
}

/// `simdutf8::basic::from_utf8` reads well-formed UTF-8 as a string and rejects
/// everything else.
#[verifier::external_body]
fn simd_from_utf8(bytes: &[u8]) -> (r: Option<&str>)
    ensures
        r is Some <==> valid_utf8(bytes@),
        r matches Some(text) ==> text.spec_bytes() == bytes@,
{
    simdutf8::basic::from_utf8(bytes).ok()
}

/// `memchr::memchr` finds the first occurrence of a byte.
#[verifier::external_body]
fn simd_find(needle: u8, haystack: &[u8]) -> (r: Option<usize>)
    ensures
        r is None ==> forall|i: int| 0 <= i < haystack@.len() ==> haystack@[i] != needle,
        r matches Some(k) ==> k < haystack@.len() && haystack@[k as int] == needle && forall|
            i: int,
        |
            0 <= i < k ==> haystack@[i] != needle,
{
    memchr::memchr(needle, haystack)
}

/// Read well-formed UTF-8 as a string.
///
/// Returns `None` when `bytes` is not well-formed UTF-8.
#[must_use]
pub fn validate_utf8(bytes: &[u8]) -> (r: Option<&str>)
    ensures
        r is Some <==> valid_utf8(bytes@),
        r matches Some(text) ==> text.spec_bytes() == bytes@,
{
    simd_from_utf8(bytes)
}

/// The first position of a byte.
#[must_use]
pub fn find_byte(needle: u8, haystack: &[u8]) -> (r: Option<usize>)
    ensures
        r is None <==> !haystack@.contains(needle),
        r matches Some(k) ==> k < haystack@.len() && haystack@[k as int] == needle && forall|
            i: int,
        |
            0 <= i < k ==> haystack@[i] != needle,
{
    simd_find(needle, haystack)
}

/// A `Host` value without its optional `:port`. An IPv6 literal keeps its
/// brackets and loses only what follows them.
pub open spec fn without_port(host: Seq<char>) -> Seq<char> {
    if host.len() > 0 && host[0] == '[' {
        let close = position_of(host, ']');
        if close < host.len() {
            host.take(close + 1)
        } else {
            host
        }
    } else {
        host.take(position_of(host, ':'))
    }
}

/// Strip an optional `:port` suffix from a `Host` header value.
///
/// `"api.example.com:8443"` -> `"api.example.com"`. IPv6 literals
/// (`"[::1]:80"`) keep their brackets and lose only the port.
#[must_use]
pub fn host_without_port(host: &str) -> (r: &str)
    ensures
        r@ == without_port(host@),
{
    let chars = chars_of(host);
    assert(host@.skip(0) =~= host@);
    proof {
        lemma_position(host@, ']');
        lemma_position(host@, ':');
    }
    if chars.len() > 0 && chars[0] == '[' {
        // IPv6 literal: the port colon is the one after the closing bracket.
        let close: usize = find_char(&chars, ']', 0);
        if close < chars.len() {
            let r = host.substring_char(0, close + 1);
            assert(r@ =~= host@.take(close + 1));
            return r;
        }
        return host;
    }
    let colon: usize = find_char(&chars, ':', 0);
    let r = host.substring_char(0, colon);
    assert(r@ =~= host@.take(colon as int));
    r
}

/// ASCII-case-insensitive equality, used for `Host` and header-name matching
/// where HTTP semantics are case-insensitive but the wire bytes are not.
#[must_use]
pub fn eq_ignore_ascii_case(a: &[u8], b: &[u8]) -> (r: bool)
    ensures
        r == (lower_bytes(a@) == lower_bytes(b@)),
{
    if a.len() != b.len() {
        assert(lower_bytes(a@).len() != lower_bytes(b@).len());
        return false;
    }
    eq_ignore_ascii_case_scalar(a, b)
}

/// The same, byte by byte.
#[must_use]
pub fn eq_ignore_ascii_case_scalar(a: &[u8], b: &[u8]) -> (r: bool)
    ensures
        r == (lower_bytes(a@) == lower_bytes(b@)),
{
    if a.len() != b.len() {
        assert(lower_bytes(a@).len() != lower_bytes(b@).len());
        return false;
    }
    let mut i: usize = 0;
    while i < a.len()
        invariant
            i <= a@.len() == b@.len(),
            forall|k: int| 0 <= k < i ==> lower_byte(a@[k]) == lower_byte(b@[k]),
        decreases a@.len() - i,
    {
        if lower_one(a[i]) != lower_one(b[i]) {
            assert(lower_bytes(a@)[i as int] != lower_bytes(b@)[i as int]);
            return false;
        }
        i = i + 1;
    }
    assert(lower_bytes(a@) =~= lower_bytes(b@));
    true
}

/// [`lower_byte`], computed.
pub fn lower_one(b: u8) -> (r: u8)
    ensures
        r == lower_byte(b),
{
    if 65 <= b && b <= 90 {
        b + 32
    } else {
        b
    }
}

/// Lowercase ASCII bytes into `dst`. Returns the written slice, or `None` when
/// `dst` is too short.
///
/// Bytes outside `A-Z` pass through untouched, so this is safe on UTF-8
/// continuation bytes.
pub fn lowercase_ascii_into<'d>(src: &[u8], dst: &'d mut [u8]) -> (r: Option<&'d mut [u8]>)
    ensures
        r is None <==> old(dst)@.len() < src@.len(),
        r is None ==> final(dst)@ == old(dst)@,
        r matches Some(written) ==> {
            &&& (*written)@ == lower_bytes(src@)
            &&& final(dst)@ == final(written)@ + old(dst)@.skip(src@.len() as int)
        },
{
    if dst.len() < src.len() {
        return None;
    }
    let n: usize = src.len();
    let (written, _) = dst.split_at_mut(n);
    let mut i: usize = 0;
    while i < n
        invariant
            i <= n == src@.len(),
            written@.len() == n,
            forall|k: int| 0 <= k < i ==> written@[k] == lower_byte(src@[k]),
        decreases n - i,
    {
        written[i] = lower_one(src[i]);
        i = i + 1;
    }
    assert(written@ =~= lower_bytes(src@));
    Some(written)
}

/// Lower-casing a second time changes nothing.
pub proof fn lemma_lower_bytes_idempotent(s: Seq<u8>)
    ensures
        lower_bytes(lower_bytes(s)) == lower_bytes(s),
{
    assert(lower_bytes(lower_bytes(s)) =~= lower_bytes(s));
}

/// A host without its port has none to lose.
pub proof fn lemma_port_is_stripped_once(host: Seq<char>)
    ensures
        without_port(without_port(host)) == without_port(host),
{
    lemma_position(host, ']');
    lemma_position(host, ':');
    let once = without_port(host);
    lemma_position(once, ']');
    lemma_position(once, ':');
    if host.len() > 0 && host[0] == '[' {
        let close = position_of(host, ']');
        if close < host.len() {
            assert(once[close] == ']');
            assert(position_of(once, ']') == close);
            assert(once.take(close + 1) =~= once);
        }
    } else if once.len() > 0 {
        assert(once[0] == host[0]);
        assert(position_of(once, ':') == once.len()) by {
            let p = position_of(once, ':');
            if p < once.len() {
                assert(host[p] == ':');
            }
        }
        assert(once.take(once.len() as int) =~= once);
    } else {
        assert(once.take(0) =~= once);
    }
}

} // verus!
