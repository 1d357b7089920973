//! Strings as sequences of characters, and the operations on them that the rest
//! of the crate shares.

use vstd::prelude::*;
use vstd::string::*;

verus! {

/// `String::push` appends one character.
pub assume_specification[ String::push ](s: &mut String, c: char)
    ensures
        final(s)@ == old(s)@.push(c),
;

/// `==` on string slices compares their contents.
pub assume_specification[ <str as PartialEq>::eq ](a: &str, b: &str) -> (r: bool)
    ensures
        r == (a@ == b@),
;

/// What the strings of a list hold.
pub open spec fn texts(list: Seq<String>) -> Seq<Seq<char>> {
    Seq::new(list.len(), |i: int| list[i]@)
}

/// The ASCII lower-case form of a character.
pub open spec fn lower(c: char) -> char {
    if 'A' <= c <= 'Z' {
        (c as u8 + 32) as u8 as char
    } else {
        c
    }
}

/// The ASCII lower-case form of a text.
pub open spec fn lower_text(s: Seq<char>) -> Seq<char> {
    Seq::new(s.len(), |i: int| lower(s[i]))
}

/// Whether two texts differ at most in ASCII case.
pub open spec fn same_ignoring_case(a: Seq<char>, b: Seq<char>) -> bool {
    lower_text(a) == lower_text(b)
}

/// The Unicode `White_Space` property.
pub open spec fn is_space(c: char) -> bool {
    ||| 0x9 <= c as u32 <= 0xd
    ||| c as u32 == 0x20
    ||| c as u32 == 0x85
    ||| c as u32 == 0xa0
    ||| c as u32 == 0x1680
    ||| 0x2000 <= c as u32 <= 0x200a
    ||| c as u32 == 0x2028
    ||| c as u32 == 0x2029
    ||| c as u32 == 0x202f
    ||| c as u32 == 0x205f
    ||| c as u32 == 0x3000
}

/// A text without its leading white space.
pub open spec fn without_leading_space(s: Seq<char>) -> Seq<char>
    decreases s.len(),
{
    if s.len() > 0 && is_space(s[0]) {
        without_leading_space(s.skip(1))
    } else {
        s
    }
}

/// A text without its trailing white space.
pub open spec fn without_trailing_space(s: Seq<char>) -> Seq<char>
    decreases s.len(),
{
    if s.len() > 0 && is_space(s.last()) {
        without_trailing_space(s.drop_last())
    } else {
        s
    }
}

/// A text without the white space around it.
pub open spec fn trimmed(s: Seq<char>) -> Seq<char> {
    without_trailing_space(without_leading_space(s))
}

/// A text without the run of `c` at its end.
pub open spec fn without_trailing(s: Seq<char>, c: char) -> Seq<char>
    decreases s.len(),
{
    if s.len() > 0 && s.last() == c {
        without_trailing(s.drop_last(), c)
    } else {
        s
    }
}

/// The first position of `c` in `s`, or the length of `s` if it holds none.
pub open spec fn position_of(s: Seq<char>, c: char) -> int
    decreases s.len(),
{
    if s.len() == 0 || s[0] == c {
        0
    } else {
        1 + position_of(s.skip(1), c)
    }
}

/// The pieces of `s` between the occurrences of `sep`.
pub open spec fn pieces(s: Seq<char>, sep: char) -> Seq<Seq<char>>
    decreases s.len(),
{
    let k = position_of(s, sep);
    if 0 <= k < s.len() {
        seq![s.take(k)] + pieces(s.skip(k + 1), sep)
    } else {
        seq![s]
    }
}

/// Whether `s` begins with `prefix`.
pub open spec fn begins_with(s: Seq<char>, prefix: Seq<char>) -> bool {
    prefix.len() <= s.len() && s.take(prefix.len() as int) == prefix
}

/// Whether `s` ends with `suffix`.
pub open spec fn ends_with(s: Seq<char>, suffix: Seq<char>) -> bool {
    suffix.len() <= s.len() && s.skip(s.len() - suffix.len()) == suffix
}

/// The characters of `s`, in order.
pub fn chars_of(s: &str) -> (out: Vec<char>)
    ensures
        out@ == s@,
{
    let mut out: Vec<char> = Vec::new();
    for c in it: s.chars()
        invariant
            out@ == it.history(),
            it.seq() == s@,
    {
        out.push(c);
    }
    out
}

/// The characters of `chars` from `from` up to `to`, as a string.
pub fn string_of(chars: &Vec<char>, from: usize, to: usize) -> (out: String)
    requires
        from <= to <= chars@.len(),
    ensures
        out@ == chars@.subrange(from as int, to as int),
{
    let mut out = String::new();
    let mut i: usize = from;
    assert(chars@.subrange(from as int, from as int) =~= Seq::empty());
    while i < to
        invariant
            from <= i <= to <= chars@.len(),
            out@ == chars@.subrange(from as int, i as int),
        decreases to - i,
    {
        out.push(chars[i]);
        i = i + 1;
        assert(chars@.subrange(from as int, i as int) =~= chars@.subrange(
            from as int,
            i - 1,
        ).push(chars@[i - 1]));
    }
    out
}

/// `a` followed by `b`.
pub fn joined(a: &str, b: &str) -> (out: String)
    ensures
        out@ == a@ + b@,
{
    let mut out = a.to_owned();
    out.append(b);
    out
}

/// Texts one after another, with `sep` between two of them.
pub open spec fn join(list: Seq<Seq<char>>, sep: Seq<char>) -> Seq<char>
    decreases list.len(),
{
    if list.len() == 0 {
        Seq::empty()
    } else if list.len() == 1 {
        list[0]
    } else {
        join(list.drop_last(), sep) + sep + list.last()
    }
}

/// [`join`], computed.
pub fn join_texts(list: &Vec<String>, sep: &str) -> (out: String)
    ensures
        out@ == join(texts(list@), sep@),
{
    let mut out = String::new();
    let ghost all = texts(list@);
    let mut i: usize = 0;
    assert(all.take(0) =~= Seq::empty());
    assert(out@ =~= Seq::<char>::empty());
    while i < list.len()
        invariant
            i <= list@.len(),
            all == texts(list@),
            out@ == join(all.take(i as int), sep@),
        decreases list@.len() - i,
    {
        assert(all.take(i + 1).drop_last() =~= all.take(i as int));
        assert(all.take(i + 1).last() == list@[i as int]@);
        if i > 0 {
            out.append(sep);
        }
        out.append(list[i].as_str());
        assert(i == 0 ==> out@ =~= list@[0]@);
        i = i + 1;
    }
    assert(all.take(i as int) =~= all);
    out
}

/// A text inside two others.
pub fn around(before: &str, middle: &str, after: &str) -> (out: String)
    ensures
        out@ == before@ + middle@ + after@,
{
    let mut out = before.to_owned();
    out.append(middle);
    out.append(after);
    out
}

/// What a path and a relative name in it give.
pub open spec fn path_join(dir: Seq<char>, name: Seq<char>) -> Seq<char> {
    if dir.len() == 0 || dir.last() == '/' {
        dir + name
    } else {
        dir + "/"@ + name
    }
}

/// [`path_join`], computed.
pub fn join_path(dir: &str, name: &str) -> (out: String)
    ensures
        out@ == path_join(dir@, name@),
{
    let chars = chars_of(dir);
    if chars.len() == 0 || chars[chars.len() - 1] == '/' {
        joined(dir, name)
    } else {
        around(dir, "/", name)
    }
}

/// [`lower`], computed.
pub fn lower_char(c: char) -> (r: char)
    ensures
        r == lower(c),
{
    if 'A' <= c && c <= 'Z' {
        ((c as u8) + 32) as char
    } else {
        c
    }
}

/// The ASCII lower-case form of `s`.
pub fn to_lower(s: &str) -> (out: String)
    ensures
        out@ == lower_text(s@),
{
    let mut out = String::new();
    for c in it: s.chars()
        invariant
            out@ == lower_text(it.history()),
            it.seq() == s@,
    {
        out.push(lower_char(c));
        assert(out@ =~= lower_text(it.history().push(c)));
    }
    out
}

/// Whether two strings differ at most in ASCII case.
pub fn eq_ignore_case(a: &str, b: &str) -> (r: bool)
    ensures
        r == same_ignoring_case(a@, b@),
{
    to_lower(a) == to_lower(b)
}

/// [`is_space`], computed.
fn char_is_space(c: char) -> (r: bool)
    ensures
        r == is_space(c),
{
    let u: u32 = c as u32;
    (0x9 <= u && u <= 0xd) || u == 0x20 || u == 0x85 || u == 0xa0 || u == 0x1680 || (0x2000 <= u
        && u <= 0x200a) || u == 0x2028 || u == 0x2029 || u == 0x202f || u == 0x205f || u == 0x3000
}

/// `s` without the white space around it.
pub fn trim(s: &str) -> (out: String)
    ensures
        out@ == trimmed(s@),
{
    let chars = chars_of(s);
    let n: usize = chars.len();
    let mut from: usize = 0;
    assert(s@.skip(0) =~= s@);
    while from < n && char_is_space(chars[from])
        invariant
            from <= n,
            n == chars@.len(),
            chars@ == s@,
            without_leading_space(s@.skip(from as int)) == without_leading_space(s@),
        decreases n - from,
    {
        assert(s@.skip(from as int).skip(1) =~= s@.skip(from + 1));
        from = from + 1;
    }
    let ghost rest = without_leading_space(s@);
    assert(rest == s@.skip(from as int));
    let mut to: usize = n;
    assert(s@.subrange(from as int, n as int) =~= rest);
    while to > from && char_is_space(chars[to - 1])
        invariant
            from <= to <= n,
            n == chars@.len(),
            chars@ == s@,
            without_trailing_space(s@.subrange(from as int, to as int)) == without_trailing_space(
                rest,
            ),
        decreases to,
    {
        assert(s@.subrange(from as int, to as int).drop_last() =~= s@.subrange(
            from as int,
            to - 1,
        ));
        to = to - 1;
    }
    string_of(&chars, from, to)
}

/// `s` without the run of `c` at its end.
pub fn trim_end_matches(s: &str, c: char) -> (out: String)
    ensures
        out@ == without_trailing(s@, c),
{
    let chars = chars_of(s);
    let mut to: usize = chars.len();
    assert(s@.subrange(0, s@.len() as int) =~= s@);
    while to > 0 && chars[to - 1] == c
        invariant
            to <= chars@.len(),
            chars@ == s@,
            without_trailing(s@.subrange(0, to as int), c) == without_trailing(s@, c),
        decreases to,
    {
        assert(s@.subrange(0, to as int).drop_last() =~= s@.subrange(0, to - 1));
        to = to - 1;
    }
    string_of(&chars, 0, to)
}

/// [`position_of`] within the rest of `chars` from `from` on, computed.
pub fn find_char(chars: &Vec<char>, c: char, from: usize) -> (r: usize)
    requires
        from <= chars@.len(),
    ensures
        from <= r <= chars@.len(),
        r - from == position_of(chars@.skip(from as int), c),
{
    let mut i: usize = from;
    while i < chars.len() && chars[i] != c
        invariant
            from <= i <= chars@.len(),
            (i - from) + position_of(chars@.skip(i as int), c) == position_of(
                chars@.skip(from as int),
                c,
            ),
        decreases chars@.len() - i,
    {
        assert(chars@.skip(i as int).skip(1) =~= chars@.skip(i + 1));
        i = i + 1;
    }
    i
}

/// The pieces of `s` between the occurrences of `sep`.
pub fn split(s: &str, sep: char) -> (out: Vec<String>)
    ensures
        texts(out@) == pieces(s@, sep),
{
    let chars = chars_of(s);
    let mut out: Vec<String> = Vec::new();
    let mut from: usize = 0;
    assert(s@.skip(0) =~= s@);
    assert(texts(out@) =~= Seq::empty());
    assert(Seq::<Seq<char>>::empty() + pieces(s@, sep) =~= pieces(s@, sep));
    loop
        invariant_except_break
            texts(out@) + pieces(s@.skip(from as int), sep) == pieces(s@, sep),
        invariant
            from <= chars@.len(),
            chars@ == s@,
        ensures
            texts(out@) == pieces(s@, sep),
        decreases chars@.len() - from,
    {
        let ghost rest = s@.skip(from as int);
        let ghost before = out@;
        let k: usize = find_char(&chars, sep, from);
        let piece = string_of(&chars, from, k);
        assert(piece@ =~= rest.take(k - from));
        out.push(piece);
        assert(texts(out@) =~= texts(before).push(rest.take(k - from)));
        if k >= chars.len() {
            assert(rest.take(k - from) =~= rest);
            assert(texts(before) + seq![rest] =~= texts(out@));
            break;
        }
        assert(rest.skip(k - from + 1) =~= s@.skip(k + 1));
        assert(texts(before) + pieces(rest, sep) =~= texts(out@) + pieces(s@.skip(k + 1), sep));
        from = k + 1;
    }
    out
}

/// Whether `s` begins with `prefix`.
pub fn starts_with(s: &str, prefix: &str) -> (r: bool)
    ensures
        r == begins_with(s@, prefix@),
{
    let a = chars_of(s);
    let b = chars_of(prefix);
    if b.len() > a.len() {
        return false;
    }
    let mut i: usize = 0;
    while i < b.len()
        invariant
            i <= b@.len() <= a@.len(),
            a@ == s@,
            b@ == prefix@,
            forall|k: int| 0 <= k < i ==> a@[k] == b@[k],
        decreases b@.len() - i,
    {
        if a[i] != b[i] {
            assert(a@.take(b@.len() as int)[i as int] != b@[i as int]);
            return false;
        }
        i = i + 1;
    }
    assert(s@.take(prefix@.len() as int) =~= prefix@);
    true
}

/// What follows `prefix` in `s`, if `s` begins with it.
pub fn strip_prefix(s: &str, prefix: &str) -> (r: Option<String>)
    ensures
        r is Some <==> begins_with(s@, prefix@),
        r matches Some(rest) ==> rest@ == s@.skip(prefix@.len() as int),
{
    if !starts_with(s, prefix) {
        return None;
    }
    let a = chars_of(s);
    let n: usize = prefix.unicode_len();
    let rest = string_of(&a, n, a.len());
    assert(rest@ =~= s@.skip(n as int));
    Some(rest)
}

/// The character of a decimal digit.
pub open spec fn digit_char(d: int) -> char {
    if d == 0 {
        '0'
    } else if d == 1 {
        '1'
    } else if d == 2 {
        '2'
    } else if d == 3 {
        '3'
    } else if d == 4 {
        '4'
    } else if d == 5 {
        '5'
    } else if d == 6 {
        '6'
    } else if d == 7 {
        '7'
    } else if d == 8 {
        '8'
    } else {
        '9'
    }
}

/// A number in decimal.
pub open spec fn nat_text(n: nat) -> Seq<char>
    decreases n,
{
    if n < 10 {
        seq![digit_char(n as int)]
    } else {
        nat_text(n / 10).push(digit_char((n % 10) as int))
    }
}

/// A signed number in decimal.
pub open spec fn int_text(n: int) -> Seq<char> {
    if n < 0 {
        seq!['-'] + nat_text((-n) as nat)
    } else {
        nat_text(n as nat)
    }
}

/// A number in decimal.
pub fn decimal(n: u64) -> (r: String)
    ensures
        r@ == nat_text(n as nat),
    decreases n,
{
    let digit: u8 = (n % 10) as u8;
    let c: char = (48 + digit) as char;
    assert(c == digit_char(n as int % 10));
    if n < 10 {
        let mut out = String::new();
        out.push(c);
        assert(out@ =~= seq![digit_char(n as int)]);
        out
    } else {
        let mut out = decimal(n / 10);
        out.push(c);
        out
    }
}

/// A signed number in decimal.
pub fn signed_decimal(n: i64) -> (r: String)
    ensures
        r@ == int_text(n as int),
{
    if n < 0 {
        let mut out = String::new();
        out.push('-');
        let magnitude: u64 = (-(n as i128)) as u64;
        let digits = decimal(magnitude);
        out.append(digits.as_str());
        assert(out@ =~= int_text(n as int));
        out
    } else {
        decimal(n as u64)
    }
}

/// What precedes `suffix` in `s`, if `s` ends with it.
pub fn strip_suffix(s: &str, suffix: &str) -> (r: Option<String>)
    ensures
        r is Some <==> ends_with(s@, suffix@),
        r matches Some(rest) ==> rest@ == s@.take(s@.len() - suffix@.len()),
{
    let a = chars_of(s);
    let b = chars_of(suffix);
    if b.len() > a.len() {
        return None;
    }
    let n: usize = a.len() - b.len();
    let mut i: usize = 0;
    while i < b.len()
        invariant
            i <= b@.len() <= a@.len(),
            n + b.len() == a.len(),
            a@ == s@,
            b@ == suffix@,
            forall|k: int| 0 <= k < i ==> a@[n + k] == b@[k],
        decreases b@.len() - i,
    {
        if a[n + i] != b[i] {
            assert(s@.skip(n as int)[i as int] != suffix@[i as int]);
            return None;
        }
        i = i + 1;
    }
    assert(s@.skip(n as int) =~= suffix@);
    let rest = string_of(&a, 0, n);
    assert(rest@ =~= s@.take(n as int));
    Some(rest)
}

/// A line without the carriage return that may end it.
pub open spec fn without_return(line: Seq<char>) -> Seq<char> {
    if line.len() > 0 && line.last() == '\r' {
        line.drop_last()
    } else {
        line
    }
}

/// The lines of a text. A line feed ends a line, so one at the end of the text
/// begins no other; a carriage return in front of it belongs to neither.
pub open spec fn lines_of(s: Seq<char>) -> Seq<Seq<char>> {
    let all = pieces(s, '\n');
    let last = all.len() - 1;
    let ended = Seq::new(last as nat, |i: int| without_return(all[i]));
    if all[last].len() == 0 {
        ended
    } else {
        ended.push(all[last])
    }
}

/// [`lines_of`], computed.
pub fn lines(s: &str) -> (out: Vec<String>)
    ensures
        texts(out@) == lines_of(s@),
{
    let all = split(s, '\n');
    let ghost parts = texts(all@);
    proof {
        lemma_pieces_exist(s@, '\n');
    }
    let last: usize = all.len() - 1;
    let mut out: Vec<String> = Vec::new();
    let mut i: usize = 0;
    while i < last
        invariant
            i == out@.len() <= last,
            last + 1 == all@.len(),
            parts == texts(all@),
            forall|k: int| 0 <= k < i ==> (#[trigger] out@[k])@ == without_return(parts[k]),
        decreases last - i,
    {
        let chars = chars_of(all[i].as_str());
        assert(chars@ == parts[i as int]);
        let n: usize = if chars.len() > 0 && chars[chars.len() - 1] == '\r' {
            chars.len() - 1
        } else {
            chars.len()
        };
        let line = string_of(&chars, 0, n);
        assert(line@ =~= without_return(parts[i as int]));
        out.push(line);
        i = i + 1;
    }
    assert(parts[last as int] == all@[last as int]@);
    if all[last].as_str().unicode_len() > 0 {
        out.push(all[last].as_str().to_owned());
    }
    assert(texts(out@) =~= lines_of(s@));
    out
}

/// Splitting a text gives one piece at least.
pub proof fn lemma_pieces_exist(s: Seq<char>, sep: char)
    ensures
        pieces(s, sep).len() > 0,
{
}

/// Where the first white space of a text stands; its length, if it has none.
pub open spec fn first_space(s: Seq<char>) -> int
    decreases s.len(),
{
    if s.len() == 0 || is_space(s[0]) {
        0
    } else {
        1 + first_space(s.skip(1))
    }
}

/// The `n`-th word of a text, counted from nought: words are what white space parts.
pub open spec fn word(s: Seq<char>, n: nat) -> Option<Seq<char>>
    decreases n,
{
    let t = without_leading_space(s);
    if t.len() == 0 {
        None
    } else if n == 0 {
        Some(t.take(first_space(t)))
    } else {
        word(t.skip(first_space(t)), (n - 1) as nat)
    }
}

/// [`is_space`], computed.
pub fn space_char(c: char) -> (r: bool)
    ensures
        r == is_space(c),
{
    let u: u32 = c as u32;
    0x9 <= u && u <= 0xd || u == 0x20 || u == 0x85 || u == 0xa0 || u == 0x1680 || 0x2000 <= u && u
        <= 0x200a || u == 0x2028 || u == 0x2029 || u == 0x202f || u == 0x205f || u == 0x3000
}

/// [`word`], computed.
pub fn nth_word(s: &str, n: usize) -> (r: Option<String>)
    ensures
        r is Some <==> word(s@, n as nat) is Some,
        r matches Some(w) ==> Some(w@) == word(s@, n as nat),
{
    let chars = chars_of(s);
    let ghost all = chars@;
    let mut at: usize = 0;
    let mut left: usize = n;
    assert(all.skip(0) =~= all);
    loop
        invariant
            at <= chars@.len(),
            chars@ == all,
            all == s@,
            word(s@, n as nat) == word(all.skip(at as int), left as nat),
        decreases left,
    {
        let ghost rest = all.skip(at as int);
        while at < chars.len() && space_char(chars[at])
            invariant
                at <= chars@.len(),
                chars@ == all,
                without_leading_space(rest) == without_leading_space(all.skip(at as int)),
            decreases chars@.len() - at,
        {
            assert(all.skip(at as int).skip(1) =~= all.skip(at + 1));
            at = at + 1;
        }
        let ghost t = all.skip(at as int);
        assert(without_leading_space(rest) == t);
        if at == chars.len() {
            return None;
        }
        let mut end: usize = at;
        while end < chars.len() && !space_char(chars[end])
            invariant
                at <= end <= chars@.len(),
                chars@ == all,
                t == all.skip(at as int),
                first_space(t) == (end - at) + first_space(all.skip(end as int)),
            decreases chars@.len() - end,
        {
            assert(all.skip(end as int).skip(1) =~= all.skip(end + 1));
            end = end + 1;
        }
        if left == 0 {
            let w = string_of(&chars, at, end);
            assert(w@ =~= t.take(first_space(t)));
            return Some(w);
        }
        assert(t.skip(first_space(t)) =~= all.skip(end as int));
        at = end;
        left = left - 1;
    }
}

/// A text filled up with spaces behind it to a width.
pub open spec fn padded_right(s: Seq<char>, width: nat) -> Seq<char>
    decreases width - s.len(),
{
    if s.len() >= width {
        s
    } else {
        padded_right(s.push(' '), width)
    }
}

/// A text filled up with spaces in front of it to a width.
pub open spec fn padded_left(s: Seq<char>, width: nat) -> Seq<char>
    decreases width - s.len(),
{
    if s.len() >= width {
        s
    } else {
        padded_left(seq![' '] + s, width)
    }
}

/// [`padded_right`], computed.
pub fn pad_right(s: &str, width: usize) -> (out: String)
    ensures
        out@ == padded_right(s@, width as nat),
{
    let mut out = s.to_owned();
    let mut n: usize = s.unicode_len();
    while n < width
        invariant
            n == out@.len(),
            padded_right(out@, width as nat) == padded_right(s@, width as nat),
        decreases width - n,
    {
        out.push(' ');
        n = n + 1;
    }
    out
}

/// [`padded_left`], computed.
pub fn pad_left(s: &str, width: usize) -> (out: String)
    ensures
        out@ == padded_left(s@, width as nat),
{
    let mut out = s.to_owned();
    let mut n: usize = s.unicode_len();
    while n < width
        invariant
            n == out@.len(),
            padded_left(out@, width as nat) == padded_left(s@, width as nat),
        decreases width - n,
    {
        proof {
            reveal_strlit(" ");
            assert(" "@ =~= seq![' ']);
        }
        out = joined(" ", out.as_str());
        n = n + 1;
    }
    out
}

/// Different numbers have different texts.
pub proof fn lemma_nat_text_injective(a: nat, b: nat)
    requires
        nat_text(a) == nat_text(b),
    ensures
        a == b,
    decreases a,
{
    let x = nat_text(a);
    let y = nat_text(b);
    lemma_nat_text_len(a);
    lemma_nat_text_len(b);
    if a < 10 && b < 10 {
        assert(x[0] == digit_char(a as int));
        assert(y[0] == digit_char(b as int));
    } else if a >= 10 && b >= 10 {
        assert(x.drop_last() =~= nat_text(a / 10));
        assert(y.drop_last() =~= nat_text(b / 10));
        assert(x.last() == digit_char((a % 10) as int));
        assert(y.last() == digit_char((b % 10) as int));
        lemma_nat_text_injective(a / 10, b / 10);
    }
}

proof fn lemma_nat_text_len(n: nat)
    ensures
        nat_text(n).len() >= 1,
        nat_text(n).len() == 1 <==> n < 10,
    decreases n,
{
    if n >= 10 {
        lemma_nat_text_len(n / 10);
    }
}

/// A position that [`position_of`] gives is the first of its kind.
pub proof fn lemma_position(s: Seq<char>, c: char)
    ensures
        0 <= position_of(s, c) <= s.len(),
        position_of(s, c) < s.len() ==> s[position_of(s, c)] == c,
        forall|i: int| 0 <= i < position_of(s, c) ==> s[i] != c,
    decreases s.len(),
{
    if s.len() > 0 && s[0] != c {
        lemma_position(s.skip(1), c);
        assert forall|i: int| 0 <= i < position_of(s, c) implies s[i] != c by {
            if i > 0 {
                assert(s[i] == s.skip(1)[i - 1]);
            }
        }
    }
}

/// What a name given on a command line stands for: white space around it and ASCII
/// case do not matter.
pub open spec fn plain_name(s: Seq<char>) -> Seq<char> {
    lower_text(trimmed(s))
}

/// [`plain_name`], computed.
pub fn to_plain_name(s: &str) -> (r: String)
    ensures
        r@ == plain_name(s@),
{
    let t = trim(s);
    to_lower(t.as_str())
}

/// A lower-case name without white space around it stands for itself.
pub proof fn lemma_plain_name(s: Seq<char>)
    requires
        s.len() > 0,
        !is_space(s[0]),
        !is_space(s.last()),
        forall|i: int| 0 <= i < s.len() ==> lower(#[trigger] s[i]) == s[i],
    ensures
        plain_name(s) == s,
{
    assert(trimmed(s) == s);
    assert(lower_text(s) =~= s);
}

} // verus!
