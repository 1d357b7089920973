//! Standardised benchmark payloads.

use bytes::Bytes;
use vstd::prelude::*;

use crate::text::{lemma_plain_name, plain_name, to_plain_name};

verus! {

/// `bytes::Bytes`, taken as it is; [`shared_bytes`] names what one holds.
#[verifier::external_type_specification]
#[verifier::external_body]
pub struct ExBytes(Bytes);

/// The bytes that a shared buffer holds.
pub uninterp spec fn shared_bytes(buffer: Bytes) -> Seq<u8>;

/// `Bytes::from(Vec<u8>)` takes the bytes over.
#[verifier::external_body]
fn into_shared(data: Vec<u8>) -> (r: Bytes)
    ensures
        shared_bytes(r) == data@,
{
    Bytes::from(data)
}

/// `Bytes::clone` shares the same bytes.
#[verifier::external_body]
pub(crate) fn share_bytes(buffer: &Bytes) -> (r: Bytes)
    ensures
        shared_bytes(r) == shared_bytes(*buffer),
{
    buffer.clone()
}

/// The text that payloads are made of, over and over: one JSON-shaped line.
pub open spec fn payload_line() -> Seq<u8> {
    vstd::utf8::encode_utf8(
        "{\"key\":\"value\",\"data\":\"benchmark-payload-chunk-0123456789\"}\n"@,
    )
}

/// A payload of the given size.
pub open spec fn payload(size: nat) -> Seq<u8> {
    Seq::new(size, |i: int| payload_line()[i % (payload_line().len() as int)])
}

/// Build a deterministic payload of exactly `size_bytes`.
///
/// Content is JSON-shaped rather than a repeated single byte, so that a proxy or
/// upstream that compresses or de-duplicates cannot get an unrealistic win.
#[must_use]
pub fn generate_payload(size_bytes: usize) -> (r: Bytes)
    ensures
        shared_bytes(r) == payload(size_bytes as nat),
{
    let line = "{\"key\":\"value\",\"data\":\"benchmark-payload-chunk-0123456789\"}\n".as_bytes();
    proof {
        lemma_payload_line();
    }
    let mut data: Vec<u8> = Vec::new();
    let mut at: usize = 0;
    while data.len() < size_bytes
        invariant
            data@.len() <= size_bytes,
            line@ == payload_line(),
            line@.len() > 0,
            at < line@.len(),
            at == data@.len() as int % (line@.len() as int),
            forall|k: int|
                0 <= k < data@.len() ==> #[trigger] data@[k] == payload_line()[k % (
                line@.len() as int)],
        decreases size_bytes - data@.len(),
    {
        let ghost n = data@.len() as int;
        let ghost m = line@.len() as int;
        data.push(line[at]);
        proof {
            if at + 1 == m {
                vstd::arithmetic::div_mod::lemma_fundamental_div_mod(n, m);
                assert(n + 1 == m * (n / m + 1)) by (nonlinear_arith)
                    requires
                        n == m * (n / m) + (m - 1),
                ;
                vstd::arithmetic::div_mod::lemma_mod_multiples_basic(n / m + 1, m);
                assert(m * (n / m + 1) == (n / m + 1) * m) by (nonlinear_arith);
            } else {
                vstd::arithmetic::div_mod::lemma_fundamental_div_mod(n, m);
                vstd::arithmetic::div_mod::lemma_fundamental_div_mod_converse(
                    n + 1,
                    m,
                    n / m,
                    at + 1,
                );
            }
        }
        at = if at + 1 < line.len() {
            at + 1
        } else {
            0
        };
    }
    assert(data@ =~= payload(size_bytes as nat));
    into_shared(data)
}

proof fn lemma_payload_line()
    ensures
        payload_line().len() > 0,
{
    reveal_strlit(
        "{\"key\":\"value\",\"data\":\"benchmark-payload-chunk-0123456789\"}\n",
    );
    let s = "{\"key\":\"value\",\"data\":\"benchmark-payload-chunk-0123456789\"}\n"@;
    vstd::utf8::encode_utf8_first_scalar(s);
}

/// A payload has exactly the size that was asked for, and a shorter one is the
/// beginning of a longer one.
pub proof fn lemma_payloads_are_exact(m: nat, n: nat)
    requires
        m <= n,
    ensures
        payload(n).len() == n,
        payload(n).take(m as int) == payload(m),
{
    assert(payload(n).take(m as int) =~= payload(m));
}

/// The three sizes that are swept over.
#[derive(Debug, Clone, Copy, PartialEq, Eq, Structural)]
pub enum PayloadSize {
    Small1Kb,
    Medium64Kb,
    Large1Mb,
}

impl PayloadSize {
    /// Byte count.
    pub open spec fn size_of(self) -> usize {
        match self {
            PayloadSize::Small1Kb => 1024,
            PayloadSize::Medium64Kb => 65_536,
            PayloadSize::Large1Mb => 1_048_576,
        }
    }

    /// Short label used in reports and CLI flags.
    pub open spec fn label_of(self) -> Seq<char> {
        match self {
            PayloadSize::Small1Kb => "1k"@,
            PayloadSize::Medium64Kb => "64k"@,
            PayloadSize::Large1Mb => "1m"@,
        }
    }

    /// The size that a label stands for.
    pub open spec fn named(label: Seq<char>) -> Option<Self> {
        let n = plain_name(label);
        if n == "1k"@ || n == "1kb"@ || n == "1024"@ {
            Some(PayloadSize::Small1Kb)
        } else if n == "64k"@ || n == "64kb"@ {
            Some(PayloadSize::Medium64Kb)
        } else if n == "1m"@ || n == "1mb"@ {
            Some(PayloadSize::Large1Mb)
        } else {
            None
        }
    }

    /// Byte count.
    #[must_use]
    pub fn bytes(self) -> (r: usize)
        ensures
            r == self.size_of(),
    {
        match self {
            PayloadSize::Small1Kb => 1024,
            PayloadSize::Medium64Kb => 65_536,
            PayloadSize::Large1Mb => 1_048_576,
        }
    }

    /// Short label used in reports and CLI flags.
    #[must_use]
    pub fn label(self) -> (r: &'static str)
        ensures
            r@ == self.label_of(),
    {
        match self {
            PayloadSize::Small1Kb => "1k",
            PayloadSize::Medium64Kb => "64k",
            PayloadSize::Large1Mb => "1m",
        }
    }

    /// Every size, in sweep order.
    #[must_use]
    pub fn all() -> (r: [PayloadSize; 3])
        ensures
            r@ == seq![
                PayloadSize::Small1Kb,
                PayloadSize::Medium64Kb,
                PayloadSize::Large1Mb,
            ],
    {
        let r = [PayloadSize::Small1Kb, PayloadSize::Medium64Kb, PayloadSize::Large1Mb];
        assert(r@ =~= seq![
            PayloadSize::Small1Kb,
            PayloadSize::Medium64Kb,
            PayloadSize::Large1Mb,
        ]);
        r
    }

    /// Parse a CLI label such as `1k`, `64k`, `1m`.
    #[must_use]
    pub fn parse(label: &str) -> (r: Option<Self>)
        ensures
            r == Self::named(label@),
    {
        let n = to_plain_name(label);
        let n = n.as_str();
        if n.eq("1k") || n.eq("1kb") || n.eq("1024") {
            Some(PayloadSize::Small1Kb)
        } else if n.eq("64k") || n.eq("64kb") {
            Some(PayloadSize::Medium64Kb)
        } else if n.eq("1m") || n.eq("1mb") {
            Some(PayloadSize::Large1Mb)
        } else {
            None
        }
    }
}

/// Every label stands for its size.
pub proof fn lemma_payload_labels_round_trip(size: PayloadSize)
    ensures
        PayloadSize::named(size.label_of()) == Some(size),
{
    reveal_strlit("1k");
    reveal_strlit("1kb");
    reveal_strlit("1024");
    reveal_strlit("64k");
    reveal_strlit("64kb");
    reveal_strlit("1m");
    reveal_strlit("1mb");
    lemma_plain_name(size.label_of());
    assert("64k"@ != "1k"@ && "64k"@ != "1kb"@ && "64k"@ != "1024"@) by {
        assert("64k"@[0] == '6' && "1k"@[0] == '1' && "1kb"@[0] == '1' && "1024"@[0] == '1');
    }
    assert("1m"@ != "1k"@ && "1m"@ != "1kb"@ && "1m"@ != "1024"@) by {
        assert("1m"@[1] == 'm' && "1k"@[1] == 'k' && "1kb"@[1] == 'k' && "1024"@[1] == '0');
    }
    assert("1m"@ != "64k"@ && "1m"@ != "64kb"@) by {
        assert("1m"@[0] == '1' && "64k"@[0] == '6' && "64kb"@[0] == '6');
    }
}

/// The standard payload buffers, built once and shared.
///
/// `Bytes` is refcounted, so handing the same 1 MB payload to 10 000 concurrent
/// workers costs one allocation, not ten thousand.
pub struct StandardPayloads {
    small: Bytes,
    medium: Bytes,
    large: Bytes,
}

impl StandardPayloads {
    /// Every buffer holds the payload of its size.
    #[verifier::type_invariant]
    spec fn built(self) -> bool {
        &&& shared_bytes(self.small) == payload(1024)
        &&& shared_bytes(self.medium) == payload(65_536)
        &&& shared_bytes(self.large) == payload(1_048_576)
    }

    /// What the buffer of a size holds.
    pub closed spec fn held(self, size: PayloadSize) -> Seq<u8> {
        match size {
            PayloadSize::Small1Kb => shared_bytes(self.small),
            PayloadSize::Medium64Kb => shared_bytes(self.medium),
            PayloadSize::Large1Mb => shared_bytes(self.large),
        }
    }

    /// Build the three buffers.
    #[must_use]
    pub fn new() -> (r: Self)
        ensures
            forall|size: PayloadSize| #[trigger] r.held(size) == payload(size.size_of() as nat),
    {
        Self {
            small: generate_payload(1024),
            medium: generate_payload(65_536),
            large: generate_payload(1_048_576),
        }
    }

    /// 1 KiB micro-API payload.
    #[must_use]
    pub fn small_1kb(&self) -> (r: Bytes)
        ensures
            shared_bytes(r) == payload(1024),
    {
        proof {
            use_type_invariant(self);
        }
        share_bytes(&self.small)
    }

    /// 64 KiB document payload.
    #[must_use]
    pub fn medium_64kb(&self) -> (r: Bytes)
        ensures
            shared_bytes(r) == payload(65_536),
    {
        proof {
            use_type_invariant(self);
        }
        share_bytes(&self.medium)
    }

    /// 1 MiB streaming payload.
    #[must_use]
    pub fn large_1mb(&self) -> (r: Bytes)
        ensures
            shared_bytes(r) == payload(1_048_576),
    {
        proof {
            use_type_invariant(self);
        }
        share_bytes(&self.large)
    }

    /// Fetch by size.
    #[must_use]
    pub fn get(&self, size: PayloadSize) -> (r: Bytes)
        ensures
            shared_bytes(r) == payload(size.size_of() as nat),
    {
        match size {
            PayloadSize::Small1Kb => self.small_1kb(),
            PayloadSize::Medium64Kb => self.medium_64kb(),
            PayloadSize::Large1Mb => self.large_1mb(),
        }
    }
}

/// Which HTTP version the generator should speak to the proxy.
#[derive(Debug, Clone, Copy, PartialEq, Eq, Structural)]
pub enum HttpVersion {
    /// HTTP/1.1 with keep-alive.
    Http11,
    /// HTTP/2 over cleartext, prior knowledge (no upgrade dance).
    Http2,
}

impl HttpVersion {
    /// Label used in reports.
    pub open spec fn label_of(self) -> Seq<char> {
        match self {
            HttpVersion::Http11 => "HTTP/1.1"@,
            HttpVersion::Http2 => "HTTP/2"@,
        }
    }

    /// The version that a CLI value stands for.
    pub open spec fn named(value: Seq<char>) -> Option<Self> {
        let n = plain_name(value);
        if n == "h1"@ || n == "http1"@ || n == "http1.1"@ || n == "1.1"@ {
            Some(HttpVersion::Http11)
        } else if n == "h2"@ || n == "http2"@ || n == "2"@ {
            Some(HttpVersion::Http2)
        } else {
            None
        }
    }

    /// Label used in reports.
    #[must_use]
    pub fn label(self) -> (r: &'static str)
        ensures
            r@ == self.label_of(),
    {
        match self {
            HttpVersion::Http11 => "HTTP/1.1",
            HttpVersion::Http2 => "HTTP/2",
        }
    }

    /// Parse a CLI value such as `h1`, `http1`, `h2`.
    #[must_use]
    pub fn parse(s: &str) -> (r: Option<Self>)
        ensures
            r == Self::named(s@),
    {
        let n = to_plain_name(s);
        let n = n.as_str();
        if n.eq("h1") || n.eq("http1") || n.eq("http1.1") || n.eq("1.1") {
            Some(HttpVersion::Http11)
        } else if n.eq("h2") || n.eq("http2") || n.eq("2") {
            Some(HttpVersion::Http2)
        } else {
            None
        }
    }
}

} // verus!
