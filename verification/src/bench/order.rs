//! The order in which results and files are listed.

use vstd::prelude::*;
use vstd::string::*;

use crate::text::chars_of;

verus! {

/// Whether a text comes before another, or is the same: character by character.
pub open spec fn text_le(a: Seq<char>, b: Seq<char>) -> bool
    decreases a.len(),
{
    if a.len() == 0 {
        true
    } else if b.len() == 0 {
        false
    } else if a[0] != b[0] {
        (a[0] as u32) < (b[0] as u32)
    } else {
        text_le(a.skip(1), b.skip(1))
    }
}

/// What an entry is sorted by: its name, then its number.
pub struct SortKey {
    pub name: String,
    pub number: usize,
}

/// Whether a key may stand before another.
pub open spec fn key_le(a: SortKey, b: SortKey) -> bool {
    if a.name@ == b.name@ {
        a.number <= b.number
    } else {
        text_le(a.name@, b.name@)
    }
}

proof fn lemma_char_number(a: char, b: char)
    ensures
        a as u32 == b as u32 ==> a == b,
{
}

proof fn lemma_text_total(a: Seq<char>, b: Seq<char>)
    ensures
        text_le(a, b) || text_le(b, a),
        text_le(a, b) && text_le(b, a) ==> a == b,
    decreases a.len(),
{
    if a.len() > 0 && b.len() > 0 {
        if a[0] == b[0] {
            lemma_text_total(a.skip(1), b.skip(1));
            if text_le(a, b) && text_le(b, a) {
                assert(a.skip(1) == b.skip(1));
                assert(a =~= seq![a[0]] + a.skip(1));
                assert(b =~= seq![b[0]] + b.skip(1));
            }
        } else {
            lemma_char_number(a[0], b[0]);
        }
    } else if a.len() == 0 && b.len() == 0 {
        assert(a =~= b);
    }
}

proof fn lemma_text_transitive(a: Seq<char>, b: Seq<char>, c: Seq<char>)
    requires
        text_le(a, b),
        text_le(b, c),
    ensures
        text_le(a, c),
    decreases a.len(),
{
    if a.len() > 0 && b.len() > 0 && c.len() > 0 && a[0] == b[0] && b[0] == c[0] {
        lemma_text_transitive(a.skip(1), b.skip(1), c.skip(1));
    }
}

/// Of any two keys one may stand before the other, and both only where they are the
/// same.
pub proof fn lemma_keys_are_ordered(a: SortKey, b: SortKey)
    ensures
        key_le(a, b) || key_le(b, a),
        key_le(a, b) && key_le(b, a) ==> a.name@ == b.name@ && a.number == b.number,
{
    lemma_text_total(a.name@, b.name@);
}

/// What may stand before a key may stand before everything behind it.
pub proof fn lemma_order_is_transitive(a: SortKey, b: SortKey, c: SortKey)
    requires
        key_le(a, b),
        key_le(b, c),
    ensures
        key_le(a, c),
{
    lemma_text_total(a.name@, b.name@);
    lemma_text_total(b.name@, c.name@);
    lemma_text_total(a.name@, c.name@);
    if a.name@ == b.name@ || b.name@ == c.name@ {
    } else {
        lemma_text_transitive(a.name@, b.name@, c.name@);
        if a.name@ == c.name@ {
            assert(text_le(c.name@, b.name@));
        }
    }
}

/// [`text_le`], computed.
fn text_not_after(a: &str, b: &str) -> (r: bool)
    ensures
        r == text_le(a@, b@),
{
    let x = chars_of(a);
    let y = chars_of(b);
    let mut i: usize = 0;
    assert(a@.skip(0) =~= a@);
    assert(b@.skip(0) =~= b@);
    loop
        invariant
            x@ == a@,
            y@ == b@,
            i <= x@.len(),
            i <= y@.len(),
            text_le(a@, b@) == text_le(a@.skip(i as int), b@.skip(i as int)),
        decreases x@.len() - i,
    {
        if i == x.len() {
            return true;
        }
        if i == y.len() {
            return false;
        }
        if x[i] != y[i] {
            let p: u32 = x[i] as u32;
            let q: u32 = y[i] as u32;
            return p < q;
        }
        assert(a@.skip(i as int).skip(1) =~= a@.skip(i + 1));
        assert(b@.skip(i as int).skip(1) =~= b@.skip(i + 1));
        i = i + 1;
    }
}

/// [`key_le`], computed.
fn key_not_after(a: &SortKey, b: &SortKey) -> (r: bool)
    ensures
        r == key_le(*a, *b),
{
    if a.name.as_str().eq(b.name.as_str()) {
        a.number <= b.number
    } else {
        text_not_after(a.name.as_str(), b.name.as_str())
    }
}

/// Whether places list entries in order: by key and, where keys are the same, as
/// they came.
pub open spec fn in_order(keys: Seq<SortKey>, order: Seq<usize>) -> bool {
    forall|i: int, j: int|
        0 <= i < j < order.len() ==> #[trigger] before(keys, order[i] as int, order[j] as int)
}

/// Whether the entry at one place stands before that at another.
pub open spec fn before(keys: Seq<SortKey>, p: int, q: int) -> bool {
    key_le(keys[p], keys[q]) && (key_le(keys[q], keys[p]) ==> p < q)
}

/// Whether every one of the first `n` places is listed once.
pub open spec fn lists_all(order: Seq<usize>, n: int) -> bool {
    &&& order.len() == n
    &&& forall|i: int| 0 <= i < order.len() ==> (#[trigger] order[i]) < n
    &&& forall|i: int, j: int|
        0 <= i < j < order.len() ==> #[trigger] order[i] != #[trigger] order[j]
}

/// The order of entries by their keys: each is listed once, and those of equal keys
/// stay as they came.
#[must_use]
pub fn sorted_order(keys: &Vec<SortKey>) -> (r: Vec<usize>)
    ensures
        lists_all(r@, keys@.len() as int),
        in_order(keys@, r@),
{
    let mut order: Vec<usize> = Vec::new();
    let mut n: usize = 0;
    while n < keys.len()
        invariant
            n <= keys@.len(),
            lists_all(order@, n as int),
            in_order(keys@, order@),
        decreases keys@.len() - n,
    {
        // The new entry goes behind everything that may stand before it.
        let mut at: usize = order.len();
        while at > 0 && !key_not_after(&keys[order[at - 1]], &keys[n])
            invariant
                at <= order@.len(),
                n < keys@.len(),
                lists_all(order@, n as int),
                in_order(keys@, order@),
                forall|k: int|
                    at <= k < order@.len() ==> !key_le(
                        keys@[#[trigger] order@[k] as int],
                        keys@[n as int],
                    ),
            decreases at,
        {
            at = at - 1;
        }
        let ghost old_order = order@;
        proof {
            assert forall|k: int| 0 <= k < at implies key_le(
                keys@[#[trigger] old_order[k] as int],
                keys@[n as int],
            ) by {
                if k < at - 1 {
                    assert(before(keys@, old_order[k] as int, old_order[at - 1] as int));
                    lemma_order_is_transitive(
                        keys@[old_order[k] as int],
                        keys@[old_order[at - 1] as int],
                        keys@[n as int],
                    );
                }
            }
        }
        order.insert(at, n);
        proof {
            let new_order = order@;
            assert(new_order =~= old_order.insert(at as int, n));
            assert forall|i: int, j: int|
                0 <= i < j < new_order.len() implies #[trigger] before(
                keys@,
                new_order[i] as int,
                new_order[j] as int,
            ) by {
                if i == at {
                    let q = old_order[j - 1];
                    lemma_keys_are_ordered(keys@[q as int], keys@[n as int]);
                } else if j == at {
                    assert(key_le(keys@[old_order[i] as int], keys@[n as int]));
                } else {
                    let a = if i < at {
                        i
                    } else {
                        i - 1
                    };
                    let b = if j < at {
                        j
                    } else {
                        j - 1
                    };
                    assert(before(keys@, old_order[a] as int, old_order[b] as int));
                }
            }
            assert forall|i: int, j: int|
                0 <= i < j < new_order.len() implies #[trigger] new_order[i]
                != #[trigger] new_order[j] by {
                let a = if i < at {
                    i
                } else {
                    i - 1
                };
                let b = if j < at {
                    j
                } else {
                    j - 1
                };
                if i != at && j != at {
                    assert(old_order[a] != old_order[b]);
                } else if i == at {
                    assert(old_order[b] < n);
                } else {
                    assert(old_order[a] < n);
                }
            }
        }
        n = n + 1;
    }
    order
}

} // verus!
