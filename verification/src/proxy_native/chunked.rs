//! Framing of a chunked body as its bytes stream past.
//!
//! The proxy forwards chunked bodies verbatim, but it still has to know where
//! the body ends: without that, a keep-alive connection would treat the next
//! response's head as body and desynchronise. Looking for the literal
//! `0\r\n\r\n` is not enough, because those bytes can occur inside chunk data,
//! so real chunk sizes are tracked.

use vstd::prelude::*;

verus! {

/// Where in the framing the scanner stands.
#[derive(Debug, Clone, Copy, PartialEq, Eq, Structural)]
pub enum ChunkState {
    /// Reading hex chunk-size digits.
    Size,
    /// Skipping a chunk extension up to the CRLF.
    Extension,
    /// Expecting the LF that ends the size line.
    SizeLf,
    /// Passing through `remaining` bytes of chunk data.
    Data,
    /// Expecting the CR that follows chunk data.
    DataCr,
    /// Expecting the LF that follows chunk data.
    DataLf,
    /// After the zero-size chunk: consuming trailers to the final blank line.
    Trailer,
    /// The terminal chunk and its trailers have gone past.
    Done,
    /// The bytes are not a chunked body.
    Failed,
}

/// Incremental chunked-body scanner.
#[derive(Debug, Clone, Copy, PartialEq, Eq, Structural)]
pub struct ChunkedScan {
    pub state: ChunkState,
    /// Bytes of the current chunk that are still to come, or its size so far
    /// while the size line is being read.
    pub remaining: u64,
    /// Digits of the current size line read so far.
    pub size_digits: u32,
    /// Consecutive line ends seen while scanning trailers, the one that ends
    /// the zero-size line among them.
    pub trailer_crlf: u8,
}

/// Whether `b` is a hexadecimal digit.
pub open spec fn is_hex(b: u8) -> bool {
    (48 <= b <= 57) || (97 <= b <= 102) || (65 <= b <= 70)
}

/// The value of a hexadecimal digit.
pub open spec fn hex_value(b: u8) -> int {
    if 48 <= b <= 57 {
        b - 48
    } else if 97 <= b <= 102 {
        b - 87
    } else {
        b - 55
    }
}

/// The size after one more digit, in 64-bit arithmetic.
pub open spec fn grown_size(size: u64, b: u8) -> u64 {
    ((size * 16) % 0x1_0000_0000_0000_0000 + hex_value(b)) as u64
}

/// Whether the framing is over, successfully or not.
pub open spec fn finished(s: ChunkedScan) -> bool {
    s.state is Done || s.state is Failed
}

/// The scanner after the byte `b`.
pub open spec fn advance(s: ChunkedScan, b: u8) -> ChunkedScan {
    let failed = ChunkedScan { state: ChunkState::Failed, ..s };
    match s.state {
        ChunkState::Done | ChunkState::Failed => s,
        ChunkState::Size => if is_hex(b) {
            if s.size_digits >= 16 {
                failed
            } else {
                ChunkedScan {
                    remaining: grown_size(s.remaining, b),
                    size_digits: (s.size_digits + 1) as u32,
                    ..s
                }
            }
        } else if b == 59 {
            ChunkedScan { state: ChunkState::Extension, ..s }
        } else if b == 13 {
            ChunkedScan { state: ChunkState::SizeLf, ..s }
        } else {
            failed
        },
        ChunkState::Extension => if b == 13 {
            ChunkedScan { state: ChunkState::SizeLf, ..s }
        } else {
            s
        },
        ChunkState::SizeLf => if b != 10 {
            failed
        } else if s.remaining == 0 {
            ChunkedScan { state: ChunkState::Trailer, size_digits: 0, trailer_crlf: 1, ..s }
        } else {
            ChunkedScan { state: ChunkState::Data, size_digits: 0, ..s }
        },
        ChunkState::Data => if s.remaining == 0 {
            if b == 13 {
                ChunkedScan { state: ChunkState::DataLf, ..s }
            } else {
                failed
            }
        } else if s.remaining == 1 {
            ChunkedScan { state: ChunkState::DataCr, remaining: 0, ..s }
        } else {
            ChunkedScan { remaining: (s.remaining - 1) as u64, ..s }
        },
        ChunkState::DataCr => if b == 13 {
            ChunkedScan { state: ChunkState::DataLf, ..s }
        } else {
            failed
        },
        ChunkState::DataLf => if b == 10 {
            ChunkedScan { state: ChunkState::Size, remaining: 0, ..s }
        } else {
            failed
        },
        ChunkState::Trailer => if b == 10 {
            if s.trailer_crlf >= 1 {
                ChunkedScan { state: ChunkState::Done, ..s }
            } else {
                ChunkedScan { trailer_crlf: 1, ..s }
            }
        } else if b == 13 {
            s
        } else {
            ChunkedScan { trailer_crlf: 0, ..s }
        },
    }
}

/// The scanner after all of `bytes`.
pub open spec fn scanned(s: ChunkedScan, bytes: Seq<u8>) -> ChunkedScan
    decreases bytes.len(),
{
    if bytes.len() == 0 {
        s
    } else {
        advance(scanned(s, bytes.drop_last()), bytes.last())
    }
}

/// The scanner at the start of a body.
pub open spec fn fresh() -> ChunkedScan {
    ChunkedScan { state: ChunkState::Size, remaining: 0, size_digits: 0, trailer_crlf: 0 }
}

/// The number that a string of hexadecimal digits spells.
pub open spec fn hex_number(digits: Seq<u8>) -> int
    decreases digits.len(),
{
    if digits.len() == 0 {
        0
    } else {
        hex_number(digits.drop_last()) * 16 + hex_value(digits.last())
    }
}

/// Whether `digits` spells a size that fits the scanner's counter.
pub open spec fn size_line(digits: Seq<u8>) -> bool {
    &&& 1 <= digits.len() <= 16
    &&& forall|i: int| 0 <= i < digits.len() ==> is_hex(#[trigger] digits[i])
}

/// CR LF.
pub open spec fn crlf() -> Seq<u8> {
    seq![13u8, 10u8]
}

/// Whether a chunk extension may stand behind a size: nothing, or a semicolon and
/// whatever follows it on the line.
pub open spec fn extension_ok(extension: Seq<u8>) -> bool {
    extension.len() == 0 || extension[0] == 59 && forall|i: int|
        0 <= i < extension.len() ==> #[trigger] extension[i] != 13
}

/// The parts of a chunk.
pub ghost struct Chunk {
    /// The size, in hexadecimal.
    pub digits: Seq<u8>,
    pub extension: Seq<u8>,
    pub data: Seq<u8>,
}

/// One chunk, as it is sent.
pub open spec fn chunk(c: Chunk) -> Seq<u8> {
    c.digits + c.extension + crlf() + c.data + crlf()
}

/// Whether a chunk's digits are the size of its data, of which there is some.
pub open spec fn chunk_ok(c: Chunk) -> bool {
    &&& size_line(c.digits)
    &&& extension_ok(c.extension)
    &&& hex_number(c.digits) == c.data.len()
    &&& c.data.len() > 0
}

/// A run of chunks.
pub open spec fn chunks(list: Seq<Chunk>) -> Seq<u8>
    decreases list.len(),
{
    if list.len() == 0 {
        Seq::empty()
    } else {
        chunks(list.drop_last()) + chunk(list.last())
    }
}

/// A trailer line: some content without a line feed that does not consist of
/// carriage returns alone.
pub open spec fn trailer_ok(line: Seq<u8>) -> bool {
    &&& forall|i: int| 0 <= i < line.len() ==> #[trigger] line[i] != 10
    &&& exists|i: int| 0 <= i < line.len() && #[trigger] line[i] != 13
}

/// Trailer lines, each ended by CR LF.
pub open spec fn trailers(lines: Seq<Seq<u8>>) -> Seq<u8>
    decreases lines.len(),
{
    if lines.len() == 0 {
        Seq::empty()
    } else {
        trailers(lines.drop_last()) + lines.last() + crlf()
    }
}

/// A whole chunked body: chunks, a zero-size chunk, trailers and a blank line.
pub open spec fn chunked_body(
    list: Seq<Chunk>,
    zero: Seq<u8>,
    extension: Seq<u8>,
    lines: Seq<Seq<u8>>,
) -> Seq<u8> {
    chunks(list) + zero + extension + crlf() + trailers(lines) + crlf()
}

impl Default for ChunkedScan {
    fn default() -> (r: Self)
        ensures
            r == fresh(),
    {
        Self::new()
    }
}

impl ChunkedScan {
    /// A scanner at the start of a body.
    #[must_use]
    pub fn new() -> (r: Self)
        ensures
            r == fresh(),
    {
        Self { state: ChunkState::Size, remaining: 0, size_digits: 0, trailer_crlf: 0 }
    }

    /// Whether the terminal chunk and its trailers have gone past. A body that
    /// turned out malformed is over too.
    #[must_use]
    pub fn is_complete(&self) -> (r: bool)
        ensures
            r == finished(*self),
    {
        matches!(self.state, ChunkState::Done | ChunkState::Failed)
    }

    /// Feed the next bytes of the body.
    pub fn consume(&mut self, bytes: &[u8])
        ensures
            *final(self) == scanned(*old(self), bytes@),
    {
        let mut i: usize = 0;
        assert(bytes@.skip(0) =~= bytes@);
        while i < bytes.len()
            invariant
                i <= bytes@.len(),
                scanned(*self, bytes@.skip(i as int)) == scanned(*old(self), bytes@),
            decreases bytes@.len() - i, (if self.state is Data { 1int } else { 0int }),
        {
            proof {
                lemma_scan_first(*self, bytes@.skip(i as int));
                assert(bytes@.skip(i as int).drop_first() =~= bytes@.skip(i + 1));
                assert(bytes@.skip(i as int)[0] == bytes@[i as int]);
            }
            match self.state {
                ChunkState::Done | ChunkState::Failed => {
                    proof {
                        lemma_finished_stays(*self, bytes@.skip(i as int));
                    }
                    return ;
                },
                ChunkState::Data => {
                    let left: u64 = (bytes.len() - i) as u64;
                    let take: usize = if self.remaining < left {
                        self.remaining as usize
                    } else {
                        bytes.len() - i
                    };
                    proof {
                        let rest = bytes@.skip(i as int);
                        if take > 0 {
                            lemma_data_run(*self, rest.take(take as int));
                        } else {
                            assert(rest.take(0) =~= Seq::empty());
                            let at_cr = ChunkedScan { state: ChunkState::DataCr, ..*self };
                            lemma_scan_first(at_cr, rest);
                        }
                        lemma_scan_split(*self, rest.take(take as int), rest.skip(take as int));
                        assert(rest.take(take as int) + rest.skip(take as int) =~= rest);
                        assert(rest.skip(take as int) =~= bytes@.skip(i + take));
                    }
                    i = i + take;
                    self.remaining = self.remaining - take as u64;
                    if self.remaining == 0 {
                        self.state = ChunkState::DataCr;
                    }
                },
                ChunkState::Size => {
                    let b = bytes[i];
                    match hex_digit(b) {
                        Some(digit) => {
                            // A size this long is malformed, not a huge chunk.
                            if self.size_digits >= 16 {
                                self.state = ChunkState::Failed;
                                proof {
                                    lemma_finished_stays(*self, bytes@.skip(i + 1));
                                }
                                return ;
                            }
                            self.remaining = self.remaining.wrapping_mul(16) + digit;
                            self.size_digits = self.size_digits + 1;
                            i = i + 1;
                        },
                        None => {
                            if b == 59 {
                                self.state = ChunkState::Extension;
                                i = i + 1;
                            } else if b == 13 {
                                self.state = ChunkState::SizeLf;
                                i = i + 1;
                            } else {
                                self.state = ChunkState::Failed;
                                proof {
                                    lemma_finished_stays(*self, bytes@.skip(i + 1));
                                }
                                return ;
                            }
                        },
                    }
                },
                ChunkState::Extension => {
                    if bytes[i] == 13 {
                        self.state = ChunkState::SizeLf;
                    }
                    i = i + 1;
                },
                ChunkState::SizeLf => {
                    if bytes[i] != 10 {
                        self.state = ChunkState::Failed;
                        proof {
                            lemma_finished_stays(*self, bytes@.skip(i + 1));
                        }
                        return ;
                    }
                    i = i + 1;
                    self.size_digits = 0;
                    if self.remaining == 0 {
                        // Zero-size chunk: trailers, then a blank line.
                        self.state = ChunkState::Trailer;
                        self.trailer_crlf = 1;
                    } else {
                        self.state = ChunkState::Data;
                    }
                },
                ChunkState::DataCr => {
                    if bytes[i] != 13 {
                        self.state = ChunkState::Failed;
                        proof {
                            lemma_finished_stays(*self, bytes@.skip(i + 1));
                        }
                        return ;
                    }
                    i = i + 1;
                    self.state = ChunkState::DataLf;
                },
                ChunkState::DataLf => {
                    if bytes[i] != 10 {
                        self.state = ChunkState::Failed;
                        proof {
                            lemma_finished_stays(*self, bytes@.skip(i + 1));
                        }
                        return ;
                    }
                    i = i + 1;
                    self.state = ChunkState::Size;
                    self.remaining = 0;
                },
                ChunkState::Trailer => {
                    // The body ends at the first empty line, which is a CRLF
                    // arriving with no trailer content between it and the last.
                    if bytes[i] == 10 {
                        if self.trailer_crlf >= 1 {
                            self.state = ChunkState::Done;
                            proof {
                                lemma_finished_stays(*self, bytes@.skip(i + 1));
                            }
                            return ;
                        }
                        self.trailer_crlf = 1;
                    } else if bytes[i] != 13 {
                        self.trailer_crlf = 0;
                    }
                    i = i + 1;
                },
            }
        }
        assert(bytes@.skip(i as int) =~= Seq::empty());
    }
}

/// The value of a hexadecimal digit, if `b` is one.
fn hex_digit(b: u8) -> (r: Option<u64>)
    ensures
        r is Some <==> is_hex(b),
        r matches Some(d) ==> d == hex_value(b),
{
    if 48 <= b && b <= 57 {
        Some((b - 48) as u64)
    } else if 97 <= b && b <= 102 {
        Some((b - 87) as u64)
    } else if 65 <= b && b <= 70 {
        Some((b - 55) as u64)
    } else {
        None
    }
}

/// Scanning takes the first byte first.
proof fn lemma_scan_first(s: ChunkedScan, bytes: Seq<u8>)
    requires
        bytes.len() > 0,
    ensures
        scanned(s, bytes) == scanned(advance(s, bytes[0]), bytes.drop_first()),
    decreases bytes.len(),
{
    if bytes.len() == 1 {
        assert(bytes.drop_last() =~= Seq::empty());
        assert(bytes.drop_first() =~= Seq::empty());
    } else {
        lemma_scan_first(s, bytes.drop_last());
        assert(bytes.drop_last().drop_first() =~= bytes.drop_first().drop_last());
        assert(bytes.drop_first().last() == bytes.last());
    }
}

/// The framing does not depend on read boundaries: scanning `a` and then `b` is
/// scanning `a` followed by `b`.
pub proof fn lemma_scan_split(s: ChunkedScan, a: Seq<u8>, b: Seq<u8>)
    ensures
        scanned(scanned(s, a), b) == scanned(s, a + b),
    decreases b.len(),
{
    if b.len() == 0 {
        assert(a + b =~= a);
    } else {
        lemma_scan_split(s, a, b.drop_last());
        assert((a + b).drop_last() =~= a + b.drop_last());
        assert((a + b).last() == b.last());
    }
}

/// Once the framing is over, no further byte changes it.
pub proof fn lemma_finished_stays(s: ChunkedScan, bytes: Seq<u8>)
    requires
        finished(s),
    ensures
        scanned(s, bytes) == s,
    decreases bytes.len(),
{
    if bytes.len() > 0 {
        lemma_finished_stays(s, bytes.drop_last());
    }
}

/// A run of data bytes only counts `remaining` down.
proof fn lemma_data_run(s: ChunkedScan, data: Seq<u8>)
    requires
        s.state is Data,
        0 < data.len() <= s.remaining,
    ensures
        scanned(s, data) == (if data.len() == s.remaining {
            ChunkedScan { state: ChunkState::DataCr, remaining: 0, ..s }
        } else {
            ChunkedScan { remaining: (s.remaining - data.len()) as u64, ..s }
        }),
    decreases data.len(),
{
    let before = scanned(s, data.drop_last());
    if data.len() > 1 {
        lemma_data_run(s, data.drop_last());
        assert(before.remaining == s.remaining - data.len() + 1);
    } else {
        assert(data.drop_last() =~= Seq::empty());
        assert(before == s);
    }
    assert(before.state is Data && before.remaining >= 1);
}

/// Sixteen to the power `n`.
spec fn sixteens(n: nat) -> int
    decreases n,
{
    if n == 0 {
        1
    } else {
        16 * sixteens((n - 1) as nat)
    }
}

proof fn lemma_sixteens_grows(m: nat, n: nat)
    requires
        m <= n,
    ensures
        1 <= sixteens(m) <= sixteens(n),
    decreases n,
{
    if n > 0 {
        if m < n {
            lemma_sixteens_grows(m, (n - 1) as nat);
        } else {
            lemma_sixteens_grows((n - 1) as nat, (n - 1) as nat);
        }
    }
}

proof fn lemma_hex_bound(digits: Seq<u8>)
    requires
        forall|i: int| 0 <= i < digits.len() ==> is_hex(#[trigger] digits[i]),
    ensures
        0 <= hex_number(digits) < sixteens(digits.len()),
    decreases digits.len(),
{
    if digits.len() > 0 {
        lemma_hex_bound(digits.drop_last());
        assert(is_hex(digits.last()));
    }
}

/// Reading a size line accumulates the number that it spells.
proof fn lemma_size_digits(digits: Seq<u8>)
    requires
        digits.len() <= 16,
        forall|i: int| 0 <= i < digits.len() ==> is_hex(#[trigger] digits[i]),
    ensures
        scanned(fresh(), digits) == (ChunkedScan {
            remaining: hex_number(digits) as u64,
            size_digits: digits.len() as u32,
            ..fresh()
        }),
        0 <= hex_number(digits) <= u64::MAX,
    decreases digits.len(),
{
    lemma_hex_bound(digits);
    assert(sixteens(16) == 0x1_0000_0000_0000_0000) by {
        reveal_with_fuel(sixteens, 17);
    }
    lemma_sixteens_grows(digits.len(), 16);
    if digits.len() > 0 {
        let init = digits.drop_last();
        lemma_size_digits(init);
        assert(is_hex(digits.last()));
        assert(hex_number(digits) == hex_number(init) * 16 + hex_value(digits.last()));
    }
}

/// A size of more than sixteen digits is malformed, not a huge chunk.
pub proof fn lemma_long_size_is_malformed(digits: Seq<u8>)
    requires
        digits.len() > 16,
        forall|i: int| 0 <= i < digits.len() ==> is_hex(#[trigger] digits[i]),
    ensures
        scanned(fresh(), digits).state is Failed,
{
    let first = digits.take(16);
    assert forall|i: int| 0 <= i < first.len() implies is_hex(#[trigger] first[i]) by {
        assert(first[i] == digits[i]);
    }
    lemma_size_digits(first);
    let one = digits.take(17);
    assert(one.drop_last() =~= first);
    assert(is_hex(digits[16]));
    assert(finished(scanned(fresh(), one)));
    lemma_scan_split(fresh(), one, digits.skip(17));
    lemma_finished_stays(scanned(fresh(), one), digits.skip(17));
    assert(one + digits.skip(17) =~= digits);
}

/// An extension changes nothing but what the scanner waits for.
proof fn lemma_extension(s: ChunkedScan, extension: Seq<u8>)
    requires
        s.state is Size,
        extension_ok(extension),
    ensures
        scanned(s, extension) == (if extension.len() == 0 {
            s
        } else {
            ChunkedScan { state: ChunkState::Extension, ..s }
        }),
    decreases extension.len(),
{
    if extension.len() > 0 {
        let init = extension.drop_last();
        assert forall|i: int| 0 <= i < init.len() implies #[trigger] init[i] != 13 by {
            assert(extension[i] != 13);
        }
        assert(extension[extension.len() - 1] != 13);
        lemma_extension(s, init);
    }
}

/// A whole chunk brings the scanner back to where it started.
pub proof fn lemma_chunk_is_passed(c: Chunk)
    requires
        chunk_ok(c),
    ensures
        scanned(fresh(), chunk(c)) == fresh(),
{
    lemma_size_digits(c.digits);
    let s0 = scanned(fresh(), c.digits);
    lemma_scan_split(fresh(), c.digits, c.extension);
    lemma_extension(s0, c.extension);
    let s1 = scanned(s0, c.extension);
    let line = c.digits + c.extension;
    lemma_scan_split(fresh(), line, crlf());
    lemma_two(s1, 13, 10);
    let s2 = scanned(s1, crlf());
    lemma_scan_split(fresh(), line + crlf(), c.data);
    lemma_data_run(s2, c.data);
    let s3 = scanned(s2, c.data);
    lemma_scan_split(fresh(), line + crlf() + c.data, crlf());
    lemma_two(s3, 13, 10);
}

proof fn lemma_two(s: ChunkedScan, a: u8, b: u8)
    ensures
        scanned(s, seq![a, b]) == advance(advance(s, a), b),
{
    let both = seq![a, b];
    assert(both.drop_last() =~= seq![a]);
    assert(seq![a].drop_last() =~= Seq::empty());
    assert(scanned(s, Seq::empty()) == s);
    assert(scanned(s, seq![a]) == advance(s, a));
}

/// So does a run of chunks.
pub proof fn lemma_chunks_are_passed(list: Seq<Chunk>)
    requires
        forall|i: int| 0 <= i < list.len() ==> chunk_ok(#[trigger] list[i]),
    ensures
        scanned(fresh(), chunks(list)) == fresh(),
    decreases list.len(),
{
    if list.len() > 0 {
        lemma_chunks_are_passed(list.drop_last());
        assert(chunk_ok(list[list.len() - 1]));
        lemma_chunk_is_passed(list.last());
        lemma_scan_split(fresh(), chunks(list.drop_last()), chunk(list.last()));
    }
}

/// Reading trailers, with `ends` line ends since the last content.
spec fn in_trailers(ends: u8) -> ChunkedScan {
    ChunkedScan { state: ChunkState::Trailer, trailer_crlf: ends, ..fresh() }
}

proof fn lemma_trailer_content(line: Seq<u8>)
    requires
        forall|i: int| 0 <= i < line.len() ==> #[trigger] line[i] != 10,
    ensures
        (exists|i: int| 0 <= i < line.len() && #[trigger] line[i] != 13) ==> scanned(
            in_trailers(1),
            line,
        ) == in_trailers(0),
        !(exists|i: int| 0 <= i < line.len() && #[trigger] line[i] != 13) ==> scanned(
            in_trailers(1),
            line,
        ) == in_trailers(1),
    decreases line.len(),
{
    if line.len() > 0 {
        let init = line.drop_last();
        assert forall|i: int| 0 <= i < init.len() implies #[trigger] init[i] != 10 by {
            assert(init[i] == line[i]);
        }
        lemma_trailer_content(init);
        assert(line[line.len() - 1] != 10);
        if exists|i: int| 0 <= i < line.len() && #[trigger] line[i] != 13 {
            let i = choose|i: int| 0 <= i < line.len() && #[trigger] line[i] != 13;
            if i < init.len() {
                assert(init[i] != 13);
            }
        } else {
            assert forall|i: int| 0 <= i < init.len() implies #[trigger] init[i] == 13 by {
                assert(init[i] == line[i]);
            }
            assert(line[line.len() - 1] == 13);
        }
    }
}

proof fn lemma_trailers_are_passed(lines: Seq<Seq<u8>>)
    requires
        forall|i: int| 0 <= i < lines.len() ==> trailer_ok(#[trigger] lines[i]),
    ensures
        scanned(in_trailers(1), trailers(lines)) == in_trailers(1),
    decreases lines.len(),
{
    if lines.len() > 0 {
        let before = trailers(lines.drop_last());
        lemma_trailers_are_passed(lines.drop_last());
        assert(trailer_ok(lines.last()));
        lemma_trailer_content(lines.last());
        lemma_scan_split(in_trailers(1), before, lines.last());
        lemma_scan_split(in_trailers(1), before + lines.last(), crlf());
        lemma_two(in_trailers(0), 13, 10);
    }
}

/// A chunked body is complete at its last byte and not before, whatever its
/// chunks, their extensions and its trailers hold.
pub proof fn lemma_body_ends_at_its_blank_line(
    list: Seq<Chunk>,
    zero: Seq<u8>,
    extension: Seq<u8>,
    lines: Seq<Seq<u8>>,
)
    requires
        forall|i: int| 0 <= i < list.len() ==> chunk_ok(#[trigger] list[i]),
        size_line(zero),
        extension_ok(extension),
        hex_number(zero) == 0,
        forall|i: int| 0 <= i < lines.len() ==> trailer_ok(#[trigger] lines[i]),
    ensures
        scanned(fresh(), chunked_body(list, zero, extension, lines)).state is Done,
        forall|k: int|
            0 <= k < chunked_body(list, zero, extension, lines).len() ==> !finished(
                #[trigger] scanned(fresh(), chunked_body(list, zero, extension, lines).take(k)),
            ),
{
    let body = chunked_body(list, zero, extension, lines);
    lemma_chunks_are_passed(list);
    lemma_size_digits(zero);
    lemma_scan_split(fresh(), chunks(list), zero);
    lemma_scan_split(fresh(), chunks(list) + zero, extension);
    lemma_extension(scanned(fresh(), zero), extension);
    let line = chunks(list) + zero + extension;
    lemma_scan_split(fresh(), line, crlf());
    lemma_two(scanned(scanned(fresh(), zero), extension), 13, 10);
    assert(scanned(fresh(), line + crlf()) == in_trailers(1));
    lemma_trailers_are_passed(lines);
    lemma_scan_split(fresh(), line + crlf(), trailers(lines));
    let last = line + crlf() + trailers(lines);
    lemma_scan_split(fresh(), last, crlf());
    lemma_two(in_trailers(1), 13, 10);
    lemma_scan_split(fresh(), last, seq![13u8]);
    assert(seq![13u8].drop_last() =~= Seq::empty());
    assert(scanned(in_trailers(1), Seq::empty()) == in_trailers(1));
    assert(scanned(in_trailers(1), seq![13u8]) == in_trailers(1));
    let short = last + seq![13u8];
    assert(short =~= body.drop_last());
    assert forall|k: int| 0 <= k < body.len() implies !finished(
        #[trigger] scanned(fresh(), body.take(k)),
    ) by {
        let here = scanned(fresh(), body.take(k));
        let rest = short.skip(k);
        assert(body.take(k) + rest =~= short);
        lemma_scan_split(fresh(), body.take(k), rest);
        if finished(here) {
            lemma_finished_stays(here, rest);
        }
    }
}

} // verus!
