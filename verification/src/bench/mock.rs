//! The mock backend: it serves a body whose size the caller selects with `?size=N`,
//! so that one backend covers the whole payload sweep without restarting.

use std::collections::HashMap;

use bytes::Bytes;
use vstd::prelude::*;

use crate::bench::payloads::{generate_payload, payload, share_bytes, shared_bytes};
use crate::text::{
    begins_with, chars_of, find_char, lemma_position, pieces, position_of, split, starts_with,
    string_of, texts,
};
use crate::wire::{all_digits, digits_value, is_digit, number_up_to, parse_usize, unsigned_part};

verus! {

/// Largest body the mock will synthesise, so a malformed `?size=` cannot make it
/// allocate unboundedly.
pub const MAX_BODY_SIZE: usize = 8 * 1024 * 1024;

/// The size that one query pair asks for: `size=N`.
pub open spec fn pair_size(pair: Seq<char>) -> Option<int> {
    let k = position_of(pair, '=');
    if k < pair.len() && pair.take(k) == "size"@ {
        number_up_to(pair.skip(k + 1), usize::MAX as int)
    } else {
        None
    }
}

/// The size that the first of a list of query pairs to ask for one asks for.
pub open spec fn first_size(pairs: Seq<Seq<char>>) -> Option<int>
    decreases pairs.len(),
{
    if pairs.len() == 0 {
        None
    } else {
        match pair_size(pairs[0]) {
            Some(n) => Some(n),
            None => first_size(pairs.skip(1)),
        }
    }
}

/// Extract `size=N` from a query string.
#[must_use]
pub fn parse_size_param(query: &str) -> (r: Option<usize>)
    ensures
        r is Some <==> first_size(pieces(query@, '&')) is Some,
        r matches Some(n) ==> Some(n as int) == first_size(pieces(query@, '&')),
{
    let pairs = split(query, '&');
    let ghost all = texts(pairs@);
    let mut i: usize = 0;
    assert(all.skip(0) =~= all);
    while i < pairs.len()
        invariant
            i <= pairs@.len(),
            all == texts(pairs@),
            all == pieces(query@, '&'),
            first_size(all.skip(i as int)) == first_size(all),
        decreases pairs@.len() - i,
    {
        let pair = pairs[i].as_str();
        assert(all.skip(i as int)[0] == pair@);
        assert(all.skip(i as int).skip(1) =~= all.skip(i + 1));
        let chars = chars_of(pair);
        proof {
            lemma_position(pair@, '=');
        }
        assert(pair@.skip(0) =~= pair@);
        let k: usize = find_char(&chars, '=', 0);
        if k < chars.len() {
            let key = string_of(&chars, 0, k);
            let value = string_of(&chars, k + 1, chars.len());
            assert(key@ =~= pair@.take(k as int));
            assert(value@ =~= pair@.skip(k + 1));
            if key.as_str().eq("size") {
                if let Some(n) = parse_usize(value.as_str()) {
                    return Some(n);
                }
            }
        }
        i = i + 1;
    }
    assert(all.skip(i as int) =~= Seq::empty());
    None
}

/// What the mock answers with.
#[derive(Debug, Clone, Copy, PartialEq, Eq, Structural)]
pub enum MockBody {
    /// The readiness probe's `ok`.
    Ready,
    /// A generated payload of this size.
    Payload(usize),
    /// What the request carried.
    Echo,
    /// The configured default.
    Standard,
}

/// The size that a query asks for.
pub open spec fn asked_size(query: Option<Seq<char>>) -> Option<int> {
    match query {
        Some(q) => first_size(pieces(q, '&')),
        None => None,
    }
}

/// What the mock answers a request with: the probe first, then a size that the
/// query asks for, up to the largest, then what `/echo` was sent.
pub open spec fn mock_answer(path: Seq<char>, query: Option<Seq<char>>, received: nat) -> MockBody {
    if path == "/healthz"@ {
        MockBody::Ready
    } else {
        match asked_size(query) {
            Some(n) => if n < MAX_BODY_SIZE {
                MockBody::Payload(n as usize)
            } else {
                MockBody::Payload(MAX_BODY_SIZE)
            },
            None => if begins_with(path, "/echo"@) && received > 0 {
                MockBody::Echo
            } else {
                MockBody::Standard
            },
        }
    }
}

/// The text of an optional string.
pub open spec fn query_text(query: Option<&str>) -> Option<Seq<char>> {
    match query {
        Some(q) => Some(q@),
        None => None,
    }
}

/// What the mock answers a request with that carried `received` bytes.
#[must_use]
pub fn mock_body(path: &str, query: Option<&str>, received: usize) -> (r: MockBody)
    ensures
        r == mock_answer(path@, query_text(query), received as nat),
{
    if path.eq("/healthz") {
        return MockBody::Ready;
    }
    let asked: Option<usize> = match query {
        Some(q) => parse_size_param(q),
        None => None,
    };
    match asked {
        Some(n) => if n < MAX_BODY_SIZE {
            MockBody::Payload(n)
        } else {
            MockBody::Payload(MAX_BODY_SIZE)
        },
        None => if starts_with(path, "/echo") && received > 0 {
            MockBody::Echo
        } else {
            MockBody::Standard
        },
    }
}

proof fn lemma_digits_count_up(s: Seq<char>)
    requires
        forall|i: int| 0 <= i < s.len() ==> is_digit(#[trigger] s[i]),
    ensures
        digits_value(s) >= 0,
    decreases s.len(),
{
    if s.len() > 0 {
        lemma_digits_count_up(s.drop_last());
    }
}

proof fn lemma_sizes_count_up(pairs: Seq<Seq<char>>)
    ensures
        first_size(pairs) matches Some(n) ==> n >= 0,
    decreases pairs.len(),
{
    if pairs.len() > 0 {
        let pair = pairs[0];
        let value = pair.skip(position_of(pair, '=') + 1);
        if all_digits(unsigned_part(value)) {
            lemma_digits_count_up(unsigned_part(value));
        }
        lemma_sizes_count_up(pairs.skip(1));
    }
}

/// The mock never synthesises more than its largest body.
pub proof fn lemma_mock_body_is_bounded(path: Seq<char>, query: Option<Seq<char>>, received: nat)
    ensures
        mock_answer(path, query, received) matches MockBody::Payload(n) ==> n <= MAX_BODY_SIZE,
{
    if let Some(q) = query {
        lemma_sizes_count_up(pieces(q, '&'));
    }
}

/// Bodies that were generated once, by size.
pub struct BodyCache {
    bodies: HashMap<usize, Bytes>,
}

impl BodyCache {
    /// Every body kept is the payload of its size.
    pub closed spec fn wf(self) -> bool {
        forall|size: usize| #[trigger]
            self.bodies@.contains_key(size) ==> shared_bytes(self.bodies@[size]) == payload(
                size as nat,
            )
    }

    /// The sizes whose bodies are kept.
    pub closed spec fn sizes(self) -> Set<usize> {
        self.bodies@.dom()
    }

    /// A cache that keeps nothing yet.
    pub fn new() -> (r: Self)
        ensures
            r.wf(),
            r.sizes() == Set::<usize>::empty(),
    {
        let r = BodyCache { bodies: HashMap::new() };
        assert(r.sizes() =~= Set::<usize>::empty());
        r
    }

    /// Fetch (or build once) a body of `size` bytes.
    pub fn get(&mut self, size: usize) -> (r: Bytes)
        requires
            old(self).wf(),
        ensures
            final(self).wf(),
            shared_bytes(r) == payload(size as nat),
            final(self).sizes() == old(self).sizes().insert(size),
    {
        broadcast use vstd::std_specs::hash::group_hash_axioms;

        if let Some(body) = self.bodies.get(&size) {
            let body = share_bytes(body);
            assert(self.sizes().insert(size) =~= self.sizes());
            return body;
        }
        let body = generate_payload(size);
        let kept = share_bytes(&body);
        self.bodies.insert(size, kept);
        assert(self.sizes() =~= old(self).sizes().insert(size));
        body
    }
}

} // verus!
