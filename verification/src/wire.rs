//! HTTP/1 heads on the wire: what the head parser finds in a buffer, and the
//! byte-level tests that framing decisions rest on.

use httparse::{Request, Response, Status, EMPTY_HEADER};
use vstd::prelude::*;
use vstd::slice::*;
use vstd::string::*;
use vstd::utf8::{encode_utf8, valid_utf8};

use crate::lb_core::headers::{is_token_byte, is_value_byte};
use crate::lb_core::simd::{eq_ignore_ascii_case, find_byte, lower_bytes, validate_utf8};
use crate::text::{chars_of, nat_text, trim, trimmed};

verus! {

/// A header field as it stands in a head.
#[derive(Debug)]
pub struct HeaderField {
    pub name: String,
    pub value: Vec<u8>,
    /// Where the value starts in the buffer.
    pub value_at: usize,
}

/// A parsed request head.
#[derive(Debug)]
pub struct ParsedRequest {
    /// Byte length of the head, including the blank line.
    pub head_len: usize,
    pub method: Option<String>,
    pub target: Option<String>,
    /// Where the target starts in the buffer.
    pub target_at: Option<usize>,
    /// Minor version of HTTP/1.
    pub version: Option<u8>,
    pub headers: Vec<HeaderField>,
}

/// A parsed response head.
#[derive(Debug)]
pub struct ParsedResponse {
    /// Byte length of the head, including the blank line.
    pub head_len: usize,
    /// Minor version of HTTP/1.
    pub version: Option<u8>,
    pub status: Option<u16>,
    pub reason: Option<String>,
    pub headers: Vec<HeaderField>,
}

/// Outcome of parsing a request head out of a partially filled buffer.
#[derive(Debug)]
pub enum RequestParse {
    Complete(ParsedRequest),
    Partial,
    Invalid,
}

/// Outcome of parsing a response head out of a partially filled buffer.
#[derive(Debug)]
pub enum ResponseParse {
    Complete(ParsedResponse),
    Partial,
    Invalid,
}

/// What a header field holds.
pub struct Field {
    pub name: Seq<char>,
    pub value: Seq<u8>,
    pub value_at: int,
}

/// What a request head holds.
pub struct RequestFields {
    pub head_len: int,
    pub method: Option<Seq<char>>,
    pub target: Option<Seq<char>>,
    pub target_at: Option<int>,
    pub version: Option<u8>,
    pub headers: Seq<Field>,
}

/// What a response head holds.
pub struct ResponseFields {
    pub head_len: int,
    pub version: Option<u8>,
    pub status: Option<u16>,
    pub reason: Option<Seq<char>>,
    pub headers: Seq<Field>,
}

/// What the head parser makes of the bytes of a request.
pub enum RequestRead {
    Complete(RequestFields),
    Partial,
    Invalid,
}

/// What the head parser makes of the bytes of a response.
pub enum ResponseRead {
    Complete(ResponseFields),
    Partial,
    Invalid,
}

/// The text of an optional string.
pub open spec fn text(s: Option<String>) -> Option<Seq<char>> {
    match s {
        Some(t) => Some(t@),
        None => None,
    }
}

impl View for HeaderField {
    type V = Field;

    open spec fn view(&self) -> Field {
        Field { name: self.name@, value: self.value@, value_at: self.value_at as int }
    }
}

/// What a list of header fields holds.
pub open spec fn fields(list: Seq<HeaderField>) -> Seq<Field> {
    Seq::new(list.len(), |i: int| list[i]@)
}

impl View for ParsedRequest {
    type V = RequestFields;

    open spec fn view(&self) -> RequestFields {
        RequestFields {
            head_len: self.head_len as int,
            method: text(self.method),
            target: text(self.target),
            target_at: match self.target_at {
                Some(at) => Some(at as int),
                None => None,
            },
            version: self.version,
            headers: fields(self.headers@),
        }
    }
}

impl View for ParsedResponse {
    type V = ResponseFields;

    open spec fn view(&self) -> ResponseFields {
        ResponseFields {
            head_len: self.head_len as int,
            version: self.version,
            status: self.status,
            reason: text(self.reason),
            headers: fields(self.headers@),
        }
    }
}

impl View for RequestParse {
    type V = RequestRead;

    open spec fn view(&self) -> RequestRead {
        match *self {
            RequestParse::Complete(p) => RequestRead::Complete(p@),
            RequestParse::Partial => RequestRead::Partial,
            RequestParse::Invalid => RequestRead::Invalid,
        }
    }
}

impl View for ResponseParse {
    type V = ResponseRead;

    open spec fn view(&self) -> ResponseRead {
        match *self {
            ResponseParse::Complete(p) => ResponseRead::Complete(p@),
            ResponseParse::Partial => ResponseRead::Partial,
            ResponseParse::Invalid => ResponseRead::Invalid,
        }
    }
}

/// What `httparse::Request::parse` makes of a buffer, with room for the given
/// number of headers.
pub uninterp spec fn request_read(buf: Seq<u8>, max_headers: nat) -> RequestRead;

/// What `httparse::Response::parse` makes of a buffer, with room for the given
/// number of headers.
pub uninterp spec fn response_read(buf: Seq<u8>, max_headers: nat) -> ResponseRead;

/// Whether `part` stands in the first `end` bytes of the buffer, at `at`.
pub open spec fn stands_at(buf: Seq<u8>, end: int, at: int, part: Seq<u8>) -> bool {
    0 <= at && at + part.len() <= end <= buf.len() && buf.subrange(at, at + part.len()) == part
}

/// Whether header fields stand in the head: names are tokens, and values are
/// what the buffer holds at their place, without control bytes.
pub open spec fn headers_placed(buf: Seq<u8>, head_len: int, headers: Seq<Field>) -> bool {
    forall|i: int|
        0 <= i < headers.len() ==> {
            let h = #[trigger] headers[i];
            &&& forall|k: int| 0 <= k < h.name.len() ==> is_token_char(#[trigger] h.name[k])
            &&& forall|k: int| 0 <= k < h.value.len() ==> is_value_byte(#[trigger] h.value[k])
            &&& stands_at(buf, head_len, h.value_at, h.value)
        }
}

/// Whether a character may stand in a header name.
pub open spec fn is_token_char(c: char) -> bool {
    (c as u32) < 128 && is_token_byte(c as u8)
}

/// Whether a parsed request lies within the buffer that it was parsed from.
pub open spec fn request_placed(buf: Seq<u8>, p: RequestFields) -> bool {
    &&& 0 <= p.head_len <= buf.len()
    &&& p.method is Some
    &&& p.target is Some
    &&& p.target_at is Some
    &&& p.version == Some(0u8) || p.version == Some(1u8)
    &&& stands_at(buf, p.head_len, p.target_at->0, encode_utf8(p.target->0))
    &&& headers_placed(buf, p.head_len, p.headers)
}

/// Whether a parsed response lies within the buffer that it was parsed from.
pub open spec fn response_placed(buf: Seq<u8>, p: ResponseFields) -> bool {
    &&& 0 <= p.head_len <= buf.len()
    &&& p.version == Some(0u8) || p.version == Some(1u8)
    &&& p.status is Some
    &&& p.status->0 <= 999
    &&& p.reason is Some
    &&& headers_placed(buf, p.head_len, p.headers)
}

/// A response head in its plain form: the status line, then each header on a line of
/// its own with one space behind the colon.
pub open spec fn plain_response(
    status: u16,
    reason: Seq<char>,
    headers: Seq<(Seq<char>, Seq<char>)>,
) -> Seq<u8> {
    encode_utf8("HTTP/1.1 "@) + encode_utf8(nat_text(status as nat)) + encode_utf8(" "@)
        + encode_utf8(reason) + seq![13u8, 10u8] + plain_lines(headers) + seq![13u8, 10u8]
}

/// The header lines of a head in its plain form.
pub open spec fn plain_lines(headers: Seq<(Seq<char>, Seq<char>)>) -> Seq<u8>
    decreases headers.len(),
{
    if headers.len() == 0 {
        Seq::empty()
    } else {
        plain_lines(headers.drop_last()) + encode_utf8(headers.last().0) + seq![58u8, 32u8]
            + encode_utf8(headers.last().1) + seq![13u8, 10u8]
    }
}

/// Whether a text is printable ASCII.
pub open spec fn is_printable(s: Seq<char>) -> bool {
    forall|i: int| 0 <= i < s.len() ==> 0x20 <= #[trigger] s[i] as u32 <= 0x7e
}

/// Whether a head can be written in its plain form: the status has three digits, the
/// reason is printable ASCII, names are of lower-case letters and hyphens, and values
/// are printable ASCII without spaces; neither are empty.
pub open spec fn has_plain_form(
    status: u16,
    reason: Seq<char>,
    headers: Seq<(Seq<char>, Seq<char>)>,
) -> bool {
    &&& 100 <= status <= 999
    &&& is_printable(reason)
    &&& forall|i: int|
        0 <= i < headers.len() ==> {
            let h = #[trigger] headers[i];
            &&& h.0.len() > 0 && h.1.len() > 0
            &&& forall|k: int|
                0 <= k < h.0.len() ==> 'a' <= #[trigger] h.0[k] <= 'z' || h.0[k] == '-'
            &&& forall|k: int| 0 <= k < h.1.len() ==> 0x21 <= #[trigger] h.1[k] as u32 <= 0x7e
        }
}

/// Whether a head is read as these parts.
pub open spec fn reads_as(
    read: ResponseRead,
    head_len: int,
    status: u16,
    reason: Seq<char>,
    headers: Seq<(Seq<char>, Seq<char>)>,
) -> bool {
    read matches ResponseRead::Complete(p) && {
        &&& p.head_len == head_len
        &&& p.version == Some(1u8)
        &&& p.status == Some(status)
        &&& p.reason == Some(reason)
        &&& p.headers.len() == headers.len()
        &&& forall|i: int|
            0 <= i < headers.len() ==> (#[trigger] p.headers[i]).name == headers[i].0
                && p.headers[i].value == encode_utf8(headers[i].1)
    }
}

/// `httparse::Request::parse` reads a request head; [`request_read`] names what it
/// finds. What it finds are pieces of the buffer, none of them beyond the head:
/// the method and the target are there, the minor version is 0 or 1, header names
/// are tokens, and header values hold no control byte but the tab.
#[verifier::external_body]
pub(crate) fn read_request(buf: &[u8], max_headers: usize) -> (r: RequestParse)
    ensures
        r@ == request_read(buf@, max_headers as nat),
        r matches RequestParse::Complete(p) ==> request_placed(buf@, p@),
{
    let mut headers = vec![EMPTY_HEADER; max_headers];
    let mut req = Request::new(&mut headers);
    let from = buf.as_ptr() as usize;
    match req.parse(buf) {
        Ok(Status::Complete(head_len)) => RequestParse::Complete(ParsedRequest {
            head_len,
            method: req.method.map(Into::into),
            target: req.path.map(Into::into),
            target_at: req.path.map(|path| path.as_ptr() as usize - from),
            version: req.version,
            headers: req.headers.iter().map(|h| HeaderField { name: h.name.into(), value: h.value.into(), value_at: h.value.as_ptr() as usize - from }).collect(),
        }),
        Ok(Status::Partial) => RequestParse::Partial,
        Err(_) => RequestParse::Invalid,
    }
}

/// `httparse::Response::parse` reads a response head; [`response_read`] names what
/// it finds. The status has three digits, the minor version is 0 or 1, the reason
/// is there, header names are tokens, and header values are pieces of the head
/// without control bytes but the tab. A head in its plain form, with no more headers
/// than there is room for, is read back as the parts that it was written from.
#[verifier::external_body]
pub(crate) fn read_response(buf: &[u8], max_headers: usize) -> (r: ResponseParse)
    ensures
        r@ == response_read(buf@, max_headers as nat),
        r matches ResponseParse::Complete(p) ==> response_placed(buf@, p@),
        forall|status: u16, reason: Seq<char>, headers: Seq<(Seq<char>, Seq<char>)>|
            buf@ == #[trigger] plain_response(status, reason, headers) && has_plain_form(
                status,
                reason,
                headers,
            ) && headers.len() <= max_headers ==> reads_as(
                r@,
                buf@.len() as int,
                status,
                reason,
                headers,
            ),
{
    let mut headers = vec![EMPTY_HEADER; max_headers];
    let mut resp = Response::new(&mut headers);
    let from = buf.as_ptr() as usize;
    match resp.parse(buf) {
        Ok(Status::Complete(head_len)) => ResponseParse::Complete(ParsedResponse {
            head_len,
            version: resp.version,
            status: resp.code,
            reason: resp.reason.map(Into::into),
            headers: resp.headers.iter().map(|h| HeaderField { name: h.name.into(), value: h.value.into(), value_at: h.value.as_ptr() as usize - from }).collect(),
        }),
        Ok(Status::Partial) => ResponseParse::Partial,
        Err(_) => ResponseParse::Invalid,
    }
}

/// Whether `hay` holds `needle` somewhere, ASCII case aside.
pub open spec fn contains_ignoring_case(hay: Seq<u8>, needle: Seq<u8>) -> bool {
    exists|i: int|
        0 <= i && i + needle.len() <= hay.len() && lower_bytes(
            #[trigger] hay.subrange(i, i + needle.len()),
        ) == lower_bytes(needle)
}

/// [`contains_ignoring_case`], computed.
pub fn contains_ignore_case(hay: &[u8], needle: &[u8]) -> (r: bool)
    ensures
        r == contains_ignoring_case(hay@, needle@),
{
    let n: usize = needle.len();
    if n > hay.len() {
        return false;
    }
    let last: usize = hay.len() - n;
    let mut i: usize = 0;
    while i <= last
        invariant_except_break
            i <= last,
            forall|k: int|
                0 <= k < i ==> lower_bytes(#[trigger] hay@.subrange(k, k + n)) != lower_bytes(
                    needle@,
                ),
        invariant
            n == needle@.len(),
            n + last == hay.len(),
        ensures
            forall|k: int|
                0 <= k <= last ==> lower_bytes(#[trigger] hay@.subrange(k, k + n)) != lower_bytes(
                    needle@,
                ),
        decreases last - i,
    {
        if eq_ignore_ascii_case(slice_subrange(hay, i, i + n), needle) {
            return true;
        }
        if i == last {
            break;
        }
        i = i + 1;
    }
    false
}

/// Whether a character is a decimal digit.
pub open spec fn is_digit(c: char) -> bool {
    '0' <= c <= '9'
}

/// The number that decimal digits spell.
pub open spec fn digits_value(s: Seq<char>) -> int
    decreases s.len(),
{
    if s.len() == 0 {
        0
    } else {
        digits_value(s.drop_last()) * 10 + (s.last() as u32 - '0' as u32)
    }
}

/// Whether a text consists of decimal digits, at least one.
pub open spec fn all_digits(s: Seq<char>) -> bool {
    s.len() > 0 && forall|i: int| 0 <= i < s.len() ==> is_digit(#[trigger] s[i])
}

/// A text without a leading plus sign.
pub open spec fn unsigned_part(s: Seq<char>) -> Seq<char> {
    if s.len() > 0 && s[0] == '+' {
        s.skip(1)
    } else {
        s
    }
}

/// The number that a text spells: decimal digits behind an optional plus sign.
pub open spec fn number_in(s: Seq<char>) -> Option<int> {
    if all_digits(unsigned_part(s)) {
        Some(digits_value(unsigned_part(s)))
    } else {
        None
    }
}

/// The number that a text spells, if it is at most `max`.
pub open spec fn number_up_to(s: Seq<char>, max: int) -> Option<int> {
    match number_in(s) {
        Some(n) => if n <= max {
            Some(n)
        } else {
            None
        },
        None => None,
    }
}

/// The number that a text spells, if 64 bits hold it.
pub fn parse_u64(s: &str) -> (r: Option<u64>)
    ensures
        r is Some <==> number_up_to(s@, u64::MAX as int) is Some,
        r matches Some(n) ==> Some(n as int) == number_up_to(s@, u64::MAX as int),
{
    let chars = chars_of(s);
    let from: usize = if chars.len() > 0 && chars[0] == '+' {
        1
    } else {
        0
    };
    let ghost digits = s@.skip(from as int);
    assert(s@.skip(0) =~= s@);
    if from >= chars.len() {
        return None;
    }
    let mut value: u64 = 0;
    let mut full: bool = false;
    let mut i: usize = from;
    assert(digits.take(0) =~= Seq::empty());
    while i < chars.len()
        invariant
            from <= i <= chars@.len(),
            chars@ == s@,
            digits == s@.skip(from as int),
            digits == unsigned_part(s@),
            from < chars@.len(),
            forall|k: int| 0 <= k < i - from ==> is_digit(#[trigger] digits[k]),
            !full ==> value == digits_value(digits.take(i - from)),
            full ==> digits_value(digits.take(i - from)) > u64::MAX,
        decreases chars@.len() - i,
    {
        let c: char = chars[i];
        assert(digits[i - from] == c);
        if !('0' <= c && c <= '9') {
            assert(!is_digit(digits[i - from]));
            return None;
        }
        let d: u64 = (c as u32 - '0' as u32) as u64;
        assert(digits.take(i - from + 1).drop_last() =~= digits.take(i - from));
        if !full {
            if value > (u64::MAX - d) / 10 {
                full = true;
            } else {
                value = value * 10 + d;
            }
        }
        i = i + 1;
    }
    assert(digits.take(i - from) =~= digits);
    if full {
        None
    } else {
        Some(value)
    }
}

/// The number that a text spells, if a machine word holds it.
pub fn parse_usize(s: &str) -> (r: Option<usize>)
    ensures
        r is Some <==> number_up_to(s@, usize::MAX as int) is Some,
        r matches Some(n) ==> Some(n as int) == number_up_to(s@, usize::MAX as int),
{
    match parse_u64(s) {
        Some(n) => if n <= usize::MAX as u64 {
            Some(n as usize)
        } else {
            None
        },
        None => None,
    }
}

/// The text that well-formed UTF-8 spells, without the white space around it.
pub open spec fn trimmed_text(raw: Seq<u8>) -> Option<Seq<char>> {
    if valid_utf8(raw) {
        Some(trimmed(vstd::utf8::decode_utf8(raw)))
    } else {
        None
    }
}

/// [`trimmed_text`], computed.
pub fn trim_utf8(raw: &[u8]) -> (r: Option<String>)
    ensures
        r is Some <==> trimmed_text(raw@) is Some,
        r matches Some(t) ==> Some(t@) == trimmed_text(raw@),
{
    match validate_utf8(raw) {
        Some(s) => {
            proof {
                vstd::utf8::encode_utf8_decode_utf8(s@);
            }
            Some(trim(s))
        },
        None => None,
    }
}

/// The number that a header value spells, white space around it aside.
pub open spec fn value_number(raw: Seq<u8>, max: int) -> Option<int> {
    match trimmed_text(raw) {
        Some(t) => number_up_to(t, max),
        None => None,
    }
}

/// Whether a byte is ASCII white space.
pub open spec fn is_ascii_space(b: u8) -> bool {
    b == 32 || b == 9 || b == 10 || b == 12 || b == 13
}

/// A byte string without its leading ASCII white space.
pub open spec fn bytes_without_leading(s: Seq<u8>) -> Seq<u8>
    decreases s.len(),
{
    if s.len() > 0 && is_ascii_space(s[0]) {
        bytes_without_leading(s.skip(1))
    } else {
        s
    }
}

/// A byte string without its trailing ASCII white space.
pub open spec fn bytes_without_trailing(s: Seq<u8>) -> Seq<u8>
    decreases s.len(),
{
    if s.len() > 0 && is_ascii_space(s.last()) {
        bytes_without_trailing(s.drop_last())
    } else {
        s
    }
}

/// A byte string without the ASCII white space around it.
pub open spec fn trimmed_bytes(s: Seq<u8>) -> Seq<u8> {
    bytes_without_trailing(bytes_without_leading(s))
}

/// [`is_ascii_space`], computed.
fn byte_is_space(b: u8) -> (r: bool)
    ensures
        r == is_ascii_space(b),
{
    b == 32 || b == 9 || b == 10 || b == 12 || b == 13
}

/// A byte string without the ASCII white space around it.
pub fn trim_ascii<'a>(s: &'a [u8]) -> (r: &'a [u8])
    ensures
        r@ == trimmed_bytes(s@),
{
    let n: usize = s.len();
    let mut from: usize = 0;
    assert(s@.skip(0) =~= s@);
    while from < n && byte_is_space(s[from])
        invariant
            from <= n,
            n == s@.len(),
            bytes_without_leading(s@.skip(from as int)) == bytes_without_leading(s@),
        decreases n - from,
    {
        assert(s@.skip(from as int).skip(1) =~= s@.skip(from + 1));
        from = from + 1;
    }
    let ghost rest = bytes_without_leading(s@);
    assert(rest == s@.skip(from as int));
    let mut to: usize = n;
    assert(s@.subrange(from as int, n as int) =~= rest);
    while to > from && byte_is_space(s[to - 1])
        invariant
            from <= to <= n,
            n == s@.len(),
            bytes_without_trailing(s@.subrange(from as int, to as int)) == bytes_without_trailing(
                rest,
            ),
        decreases to,
    {
        assert(s@.subrange(from as int, to as int).drop_last() =~= s@.subrange(
            from as int,
            to - 1,
        ));
        to = to - 1;
    }
    slice_subrange(s, from, to)
}

/// The first position of a byte, or the length if there is none.
pub open spec fn byte_position(s: Seq<u8>, b: u8) -> int
    decreases s.len(),
{
    if s.len() == 0 || s[0] == b {
        0
    } else {
        1 + byte_position(s.skip(1), b)
    }
}

proof fn lemma_byte_position(s: Seq<u8>, b: u8, k: int)
    requires
        0 <= k <= s.len(),
        forall|i: int| 0 <= i < k ==> s[i] != b,
        k < s.len() ==> s[k] == b,
    ensures
        byte_position(s, b) == k,
    decreases s.len(),
{
    if s.len() > 0 && s[0] != b {
        assert forall|i: int| 0 <= i < k - 1 implies s.skip(1)[i] != b by {
            assert(s[i + 1] != b);
        }
        lemma_byte_position(s.skip(1), b, k - 1);
    }
}

/// [`byte_position`], computed.
pub fn index_of(s: &[u8], b: u8) -> (r: usize)
    ensures
        r == byte_position(s@, b),
        r <= s@.len(),
        r < s@.len() ==> s@[r as int] == b,
{
    match find_byte(b, s) {
        Some(k) => {
            proof {
                lemma_byte_position(s@, b, k as int);
            }
            k
        },
        None => {
            proof {
                assert forall|i: int| 0 <= i < s@.len() implies s@[i] != b by {
                    if s@[i] == b {
                        assert(s@.contains(b));
                    }
                }
                lemma_byte_position(s@, b, s@.len() as int);
            }
            s.len()
        },
    }
}

/// The pieces of a byte string between the occurrences of `sep`.
pub open spec fn byte_pieces(s: Seq<u8>, sep: u8) -> Seq<Seq<u8>>
    decreases s.len(),
{
    let k = byte_position(s, sep);
    if 0 <= k < s.len() {
        seq![s.take(k)] + byte_pieces(s.skip(k + 1), sep)
    } else {
        seq![s]
    }
}

/// What the byte strings of a list hold.
pub open spec fn byte_lists(list: Seq<Vec<u8>>) -> Seq<Seq<u8>> {
    Seq::new(list.len(), |i: int| list[i]@)
}

/// A copy of a byte string.
pub fn to_vec(s: &[u8]) -> (r: Vec<u8>)
    ensures
        r@ == s@,
{
    let mut out: Vec<u8> = Vec::new();
    out.extend_from_slice(s);
    assert(out@ =~= s@);
    out
}

/// The pieces of a byte string between the occurrences of `sep`.
pub fn split_bytes(s: &[u8], sep: u8) -> (out: Vec<Vec<u8>>)
    ensures
        byte_lists(out@) == byte_pieces(s@, sep),
{
    let n: usize = s.len();
    let mut out: Vec<Vec<u8>> = Vec::new();
    let mut from: usize = 0;
    assert(s@.skip(0) =~= s@);
    assert(byte_lists(out@) =~= Seq::empty());
    assert(Seq::<Seq<u8>>::empty() + byte_pieces(s@, sep) =~= byte_pieces(s@, sep));
    loop
        invariant_except_break
            byte_lists(out@) + byte_pieces(s@.skip(from as int), sep) == byte_pieces(s@, sep),
        invariant
            from <= n == s@.len(),
        ensures
            byte_lists(out@) == byte_pieces(s@, sep),
        decreases n - from,
    {
        let ghost before = out@;
        let rest = slice_subrange(s, from, n);
        assert(rest@ =~= s@.skip(from as int));
        let k: usize = index_of(rest, sep);
        let piece = to_vec(slice_subrange(rest, 0, k));
        assert(piece@ =~= rest@.take(k as int));
        out.push(piece);
        assert(byte_lists(out@) =~= byte_lists(before).push(rest@.take(k as int)));
        if k >= rest.len() {
            assert(rest@.take(k as int) =~= rest@);
            assert(byte_lists(before) + seq![rest@] =~= byte_lists(out@));
            break;
        }
        assert(rest@.skip(k + 1) =~= s@.skip(from + k + 1));
        assert(byte_lists(before) + byte_pieces(rest@, sep) =~= byte_lists(out@) + byte_pieces(
            s@.skip(from + k + 1),
            sep,
        ));
        from = from + k + 1;
    }
    out
}

/// Whether `needle` stands in `hay` at `k`.
pub open spec fn occurs_at(hay: Seq<u8>, needle: Seq<u8>, k: int) -> bool {
    0 <= k && k + needle.len() <= hay.len() && hay.subrange(k, k + needle.len()) == needle
}

/// The first position at which `needle` stands in `hay`.
#[verifier::opaque]
pub open spec fn first_occurrence(hay: Seq<u8>, needle: Seq<u8>) -> Option<int> {
    if exists|k: int| occurs_at(hay, needle, k) {
        Some(
            choose|k: int|
                occurs_at(hay, needle, k) && forall|j: int| 0 <= j < k ==> !occurs_at(
                    hay,
                    needle,
                    j,
                ),
        )
    } else {
        None
    }
}

/// `memchr::memmem::find` gives the first position at which a byte string stands
/// in another.
#[verifier::external_body]
fn memmem_find(hay: &[u8], needle: &[u8]) -> (r: Option<usize>)
    ensures
        r is None ==> forall|k: int| !occurs_at(hay@, needle@, k),
        r matches Some(k) ==> occurs_at(hay@, needle@, k as int) && forall|j: int|
            0 <= j < k ==> !occurs_at(hay@, needle@, j),
{
    memchr::memmem::find(hay, needle)
}

/// [`first_occurrence`], computed.
pub fn find_subslice(hay: &[u8], needle: &[u8]) -> (r: Option<usize>)
    ensures
        r is Some <==> first_occurrence(hay@, needle@) is Some,
        r matches Some(k) ==> first_occurrence(hay@, needle@) == Some(k as int) && occurs_at(
            hay@,
            needle@,
            k as int,
        ),
        r is None ==> forall|k: int| !occurs_at(hay@, needle@, k),
{
    let r = memmem_find(hay, needle);
    proof {
        reveal(first_occurrence);
        match r {
            Some(k) => {
                assert(occurs_at(hay@, needle@, k as int));
                let c = choose|c: int|
                    occurs_at(hay@, needle@, c) && forall|j: int| 0 <= j < c ==> !occurs_at(
                        hay@,
                        needle@,
                        j,
                    );
                assert(occurs_at(hay@, needle@, c));
                assert(c == k);
            },
            None => {},
        }
    }
    r
}

} // verus!
