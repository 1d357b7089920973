//! Header maps as mathematical maps from lower-case names to lists of values.

use http::header::{HeaderMap, HeaderName, HeaderValue};
use vstd::prelude::*;

use crate::text::{lower, lower_text};

verus! {

/// `http::HeaderMap`, taken as it is; [`header_entries`] names what one holds.
#[verifier::external_type_specification]
#[verifier::external_body]
#[verifier::reject_recursive_types(T)]
pub struct ExHeaderMap<T>(HeaderMap<T>);

/// `http::HeaderValue`, taken as it is: the value type of a `HeaderMap`.
#[verifier::external_type_specification]
#[verifier::external_body]
pub struct ExHeaderValue(HeaderValue);

/// What a header map holds: for each lower-case name that occurs, its values in
/// insertion order.
pub uninterp spec fn header_entries(headers: HeaderMap) -> Map<Seq<char>, Seq<Seq<u8>>>;

/// The number of distinct names up to which `HeaderMap` is sure to take another
/// one. Its index holds 32768 slots at most, and once a map has seen long probe
/// sequences it insists on growing when a fifth of them is in use.
pub const MAX_HEADER_NAMES: usize = 6553;

/// Whether a header map is sure to take `more` further names.
pub open spec fn has_room(headers: HeaderMap, more: int) -> bool {
    &&& header_entries(headers).dom().finite()
    &&& header_entries(headers).dom().len() + more <= MAX_HEADER_NAMES + 1
}

/// The characters of a header name: RFC 9110 `tchar`.
pub open spec fn is_token_byte(b: u8) -> bool {
    ||| 48 <= b <= 57
    ||| 65 <= b <= 90
    ||| 94 <= b <= 122
    ||| b == 33
    ||| 35 <= b <= 39
    ||| b == 42
    ||| b == 43
    ||| b == 45
    ||| b == 46
    ||| b == 124
    ||| b == 126
}

/// Whether `raw` is a header name.
pub open spec fn is_header_name(raw: Seq<u8>) -> bool {
    &&& 1 <= raw.len() <= 65535
    &&& forall|i: int| 0 <= i < raw.len() ==> is_token_byte(#[trigger] raw[i])
}

/// The text whose characters are the given bytes.
pub open spec fn ascii_text(raw: Seq<u8>) -> Seq<char> {
    Seq::new(raw.len(), |i: int| raw[i] as char)
}

/// The form in which a header map keeps a name.
pub open spec fn canonical_name(raw: Seq<u8>) -> Seq<char> {
    lower_text(ascii_text(raw))
}

/// Whether a header value may hold the byte.
pub open spec fn is_value_byte(b: u8) -> bool {
    (b >= 32 && b != 127) || b == 9
}

/// Whether `raw` is a header value.
pub open spec fn is_header_value(raw: Seq<u8>) -> bool {
    forall|i: int| 0 <= i < raw.len() ==> is_value_byte(#[trigger] raw[i])
}

/// Whether a byte of a header value is visible ASCII.
pub open spec fn is_visible(b: u8) -> bool {
    (32 <= b < 127) || b == 9
}

/// Whether a header value reads as text.
pub open spec fn is_visible_value(raw: Seq<u8>) -> bool {
    forall|i: int| 0 <= i < raw.len() ==> is_visible(#[trigger] raw[i])
}

/// The values of `name` in `entries`, none if it does not occur.
pub open spec fn values_of(
    entries: Map<Seq<char>, Seq<Seq<u8>>>,
    name: Seq<char>,
) -> Seq<Seq<u8>> {
    if entries.contains_key(name) {
        entries[name]
    } else {
        Seq::empty()
    }
}

/// Whether a text is a header name in the form in which a header map keeps it.
pub open spec fn is_canonical(name: Seq<char>) -> bool {
    exists|raw: Seq<u8>| #[trigger] is_header_name(raw) && name == canonical_name(raw)
}

/// What the byte strings of a list hold.
pub open spec fn byte_strings(list: Seq<Vec<u8>>) -> Seq<Seq<u8>> {
    Seq::new(list.len(), |i: int| list[i]@)
}

/// `HeaderName::from_bytes` accepts the RFC 9110 tokens of at most 65535 bytes
/// and gives back their lower-case form.
#[verifier::external_body]
pub(crate) fn parse_header_name(raw: &[u8]) -> (r: Option<String>)
    ensures
        r is Some <==> is_header_name(raw@),
        r matches Some(name) ==> name@ == canonical_name(raw@),
{
    HeaderName::from_bytes(raw).ok().map(|name| name.as_str().to_owned())
}

/// `HeaderValue::from_bytes` accepts a value that holds no control byte but the
/// tab. `HeaderValue::from_str` decides in the same way on the bytes of a text.
#[verifier::external_body]
pub(crate) fn is_valid_header_value(raw: &[u8]) -> (r: bool)
    ensures
        r == is_header_value(raw@),
{
    HeaderValue::from_bytes(raw).is_ok()
}

/// `HeaderMap::get` gives the first value of a name.
#[verifier::external_body]
pub(crate) fn header_get(headers: &HeaderMap, name: &str) -> (r: Option<Vec<u8>>)
    requires
        is_canonical(name@),
    ensures
        r is Some <==> values_of(header_entries(*headers), name@).len() > 0,
        r matches Some(value) ==> value@ == values_of(header_entries(*headers), name@)[0],
{
    headers.get(name).map(|value| value.as_bytes().to_vec())
}

/// `HeaderMap::get_all` gives every value of a name, in insertion order.
#[verifier::external_body]
pub(crate) fn header_get_all(headers: &HeaderMap, name: &str) -> (r: Vec<Vec<u8>>)
    requires
        is_canonical(name@),
    ensures
        byte_strings(r@) == values_of(header_entries(*headers), name@),
{
    headers.get_all(name).iter().map(|value| value.as_bytes().to_vec()).collect()
}

/// `HeaderMap::try_insert` makes the given value the only one of its name. It fails,
/// and leaves the entries as they were, only on a map that cannot grow, which
/// `has_room` rules out.
#[verifier::external_body]
pub(crate) fn header_insert(headers: &mut HeaderMap, name: &str, value: &[u8]) -> (r: bool)
    requires
        is_canonical(name@),
        is_header_value(value@),
    ensures
        has_room(*old(headers), 1) ==> r,
        r ==> header_entries(*final(headers)) == header_entries(*old(headers)).insert(
            name@,
            seq![value@],
        ),
        !r ==> header_entries(*final(headers)) == header_entries(*old(headers)),
{
    let name = HeaderName::from_bytes(name.as_bytes()).unwrap();
    headers.try_insert(name, HeaderValue::from_bytes(value).unwrap()).is_ok()
}

/// `HeaderMap::try_append` adds a value behind those that the name has. It fails, and
/// leaves the entries as they were, only on a map that cannot grow, which `has_room`
/// rules out.
#[verifier::external_body]
pub(crate) fn header_append(headers: &mut HeaderMap, name: &str, value: &[u8]) -> (r: bool)
    requires
        is_canonical(name@),
        is_header_value(value@),
    ensures
        has_room(*old(headers), 1) ==> r,
        r ==> header_entries(*final(headers)) == header_entries(*old(headers)).insert(
            name@,
            values_of(header_entries(*old(headers)), name@).push(value@),
        ),
        !r ==> header_entries(*final(headers)) == header_entries(*old(headers)),
{
    let name = HeaderName::from_bytes(name.as_bytes()).unwrap();
    headers.try_append(name, HeaderValue::from_bytes(value).unwrap()).is_ok()
}

/// `HeaderMap::clone` gives a map with the same entries.
#[verifier::external_body]
pub(crate) fn header_copy(headers: &HeaderMap) -> (r: HeaderMap)
    ensures
        header_entries(r) == header_entries(*headers),
{
    headers.clone()
}

/// `HeaderMap::remove` drops a name with all its values.
#[verifier::external_body]
pub(crate) fn header_remove(headers: &mut HeaderMap, name: &str)
    requires
        is_canonical(name@),
    ensures
        header_entries(*final(headers)) == header_entries(*old(headers)).remove(name@),
{
    headers.remove(name);
}

/// Whether the entries have `n` distinct names.
pub open spec fn counts_names(entries: Map<Seq<char>, Seq<Seq<u8>>>, n: nat) -> bool {
    entries.dom().finite() && entries.dom().len() == n
}

/// `HeaderMap::keys_len` counts the distinct names.
#[verifier::external_body]
pub(crate) fn header_count(headers: &HeaderMap) -> (r: usize)
    ensures
        counts_names(header_entries(*headers), r as nat),
{
    headers.keys_len()
}

/// The text of a header value, if it is visible ASCII throughout.
pub fn value_text(raw: &[u8]) -> (r: Option<String>)
    ensures
        r is Some <==> is_visible_value(raw@),
        r matches Some(text) ==> text@ == ascii_text(raw@),
{
    let mut out = String::new();
    let mut i: usize = 0;
    assert(ascii_text(raw@.take(0)) =~= Seq::empty());
    while i < raw.len()
        invariant
            i <= raw@.len(),
            out@ == ascii_text(raw@.take(i as int)),
            forall|k: int| 0 <= k < i ==> is_visible(#[trigger] raw@[k]),
        decreases raw@.len() - i,
    {
        let b: u8 = raw[i];
        if !((32 <= b && b < 127) || b == 9) {
            assert(!is_visible(raw@[i as int]));
            return None;
        }
        out.push(b as char);
        i = i + 1;
        assert(ascii_text(raw@.take(i as int)) =~= ascii_text(raw@.take(i - 1)).push(
            raw@[i - 1] as char,
        ));
    }
    assert(raw@.take(i as int) =~= raw@);
    Some(out)
}

/// A lower-case ASCII token is its own canonical form.
pub proof fn lemma_canonical(name: Seq<char>)
    requires
        1 <= name.len() <= 65535,
        forall|i: int|
            0 <= i < name.len() ==> is_token_byte((#[trigger] name[i]) as u8) && (name[i] as u32)
                < 128 && lower(name[i]) == name[i],
    ensures
        is_canonical(name),
{
    let raw = Seq::new(name.len(), |i: int| name[i] as u8);
    assert(is_header_name(raw)) by {
        assert forall|i: int| 0 <= i < raw.len() implies is_token_byte(#[trigger] raw[i]) by {
            assert(is_token_byte(name[i] as u8));
        }
    }
    assert(canonical_name(raw) =~= name);
}

} // verus!
