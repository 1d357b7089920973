//! A fast, non-cryptographic hasher for the routing hot path.
//!
//! This is the FxHash construction used by rustc: multiply-and-rotate over
//! 64-bit words. It is not DoS-resistant, which is why route tables are built
//! only from operator-supplied hostnames, never from request data.

use std::hash::{BuildHasherDefault, Hasher};

use vstd::prelude::*;

verus! {

/// 64-bit FxHash seed (fractional part of the golden ratio).
const SEED: u64 = 0x51_7c_c1_b7_27_22_0a_95;

/// `HashMap`/`HashSet` hasher builder. Use via [`FxHashMap`].
pub type FxBuildHasher = BuildHasherDefault<FxHasher>;

/// A `HashMap` keyed with [`FxHasher`].
pub type FxHashMap<K, V> = std::collections::HashMap<K, V, FxBuildHasher>;

/// Non-cryptographic multiply-rotate hasher.
///
/// Seeded with a non-zero constant and mixing the input length, so that the
/// all-zero inputs FxHash otherwise collapses together (`""`, `"\0"`, `"\0\0"`
/// all hash to 0 with a zero seed) stay distinct.
#[derive(Debug, Clone, Copy)]
pub struct FxHasher {
    hash: u64,
}

/// The state after one more word.
pub open spec fn mixed(hash: u64, word: u64) -> u64 {
    (((((hash << 5u64) | (hash >> 59u64)) ^ word) * 0x517c_c1b7_2722_0a95)
        % 0x1_0000_0000_0000_0000) as u64
}

/// The number that bytes spell, least significant first.
pub open spec fn le_number(bytes: Seq<u8>) -> int
    decreases bytes.len(),
{
    if bytes.len() == 0 {
        0
    } else {
        bytes[0] + 256 * le_number(bytes.skip(1))
    }
}

/// The state after the bytes, taken eight at a time while there are eight, and
/// then four, two and one.
pub open spec fn mixed_bytes(hash: u64, bytes: Seq<u8>) -> u64
    decreases bytes.len(),
{
    let take: int = if bytes.len() >= 8 {
        8
    } else if bytes.len() >= 4 {
        4
    } else if bytes.len() >= 2 {
        2
    } else {
        1
    };
    if bytes.len() == 0 {
        hash
    } else {
        mixed_bytes(mixed(hash, le_number(bytes.take(take)) as u64), bytes.skip(take))
    }
}

/// The state after a byte string: its length first, then its bytes. Without the
/// length, `[0]` and `[0, 0]` would fold to the same value.
pub open spec fn after_write(hash: u64, bytes: Seq<u8>) -> u64 {
    mixed_bytes(mixed(hash, bytes.len() as u64), bytes)
}

impl View for FxHasher {
    type V = u64;

    closed spec fn view(&self) -> u64 {
        self.hash
    }
}

impl Default for FxHasher {
    fn default() -> (r: Self)
        ensures
            r@ == 0x517c_c1b7_2722_0a95,
    {
        Self { hash: SEED }
    }
}

/// The first `n` bytes from `from` on, as a number, least significant first.
fn read_le(bytes: &[u8], from: usize, n: usize) -> (r: u64)
    requires
        n <= 8,
        from + n <= bytes@.len(),
    ensures
        r == le_number(bytes@.subrange(from as int, from + n)),
{
    let len: usize = bytes.len();
    let mut r: u64 = 0;
    let mut k: usize = n;
    let ghost word = bytes@.subrange(from as int, from + n);
    assert(word.skip(n as int) =~= Seq::empty());
    proof {
        assert(pow256(0) == 1);
        assert(pow256(8) == 0x1_0000_0000_0000_0000) by {
            reveal_with_fuel(pow256, 9);
        }
    }
    while k > 0
        invariant
            k <= n <= 8,
            from + n <= len == bytes@.len(),
            word == bytes@.subrange(from as int, from + n),
            r == le_number(word.skip(k as int)),
            r < pow256((n - k) as nat),
            pow256(8) == 0x1_0000_0000_0000_0000,
        decreases k,
    {
        k = k - 1;
        proof {
            assert(word.skip(k as int).skip(1) =~= word.skip(k + 1));
            lemma_pow256_grows((n - k) as nat, 8);
        }
        r = bytes[from + k] as u64 + 256 * r;
    }
    assert(word.skip(0) =~= word);
    r
}

spec fn pow256(n: nat) -> int
    decreases n,
{
    if n == 0 {
        1
    } else {
        256 * pow256((n - 1) as nat)
    }
}

proof fn lemma_pow256_grows(m: nat, n: nat)
    requires
        m <= n,
    ensures
        1 <= pow256(m) <= pow256(n),
    decreases n,
{
    if n > 0 {
        if m < n {
            lemma_pow256_grows(m, (n - 1) as nat);
        } else {
            lemma_pow256_grows((n - 1) as nat, (n - 1) as nat);
        }
    }
}

impl FxHasher {
    fn add_to_hash(&mut self, word: u64)
        ensures
            final(self)@ == mixed(old(self)@, word),
    {
        let turned: u64 = (self.hash << 5u64) | (self.hash >> 59u64);
        self.hash = (turned ^ word).wrapping_mul(SEED);
    }
}

impl Hasher for FxHasher {
    fn write(&mut self, bytes: &[u8])
        ensures
            final(self)@ == after_write(old(self)@, bytes@),
    {
        self.add_to_hash(bytes.len() as u64);
        let mut from: usize = 0;
        assert(bytes@.skip(0) =~= bytes@);
        while from < bytes.len()
            invariant
                from <= bytes@.len(),
                mixed_bytes(self@, bytes@.skip(from as int)) == after_write(old(self)@, bytes@),
            decreases bytes@.len() - from,
        {
            let left: usize = bytes.len() - from;
            let take: usize = if left >= 8 {
                8
            } else if left >= 4 {
                4
            } else if left >= 2 {
                2
            } else {
                1
            };
            assert(bytes@.skip(from as int).take(take as int) =~= bytes@.subrange(
                from as int,
                from + take,
            ));
            assert(bytes@.skip(from as int).skip(take as int) =~= bytes@.skip(from + take));
            self.add_to_hash(read_le(bytes, from, take));
            from = from + take;
        }
        assert(bytes@.skip(from as int) =~= Seq::empty());
    }

    fn write_u8(&mut self, i: u8)
        ensures
            final(self)@ == mixed(old(self)@, i as u64),
    {
        self.add_to_hash(i as u64);
    }

    fn write_u64(&mut self, i: u64)
        ensures
            final(self)@ == mixed(old(self)@, i),
    {
        self.add_to_hash(i);
    }

    fn write_usize(&mut self, i: usize)
        ensures
            final(self)@ == mixed(old(self)@, i as u64),
    {
        self.add_to_hash(i as u64);
    }

    fn finish(&self) -> (r: u64)
        ensures
            r == self@,
    {
        self.hash
    }
}

} // verus!
