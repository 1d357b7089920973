//! What the pool of idle connections promises of each of them, and what tells the two
//! protocols apart.

use vstd::prelude::*;

use crate::proxy_monoio::http2::{is_h2, H2_PREFACE};
use crate::proxy_monoio::pool::{
    evicted, fresh_ones, parked, stack_position, taken, total, Stack,
};

verus! {

/// Whether a connection has been idle for less than 45 seconds.
pub open spec fn lives(entry_at: u64, now: u64) -> bool {
    now - entry_at < 45_000_000_000
}

proof fn lemma_position<T>(stacks: Seq<Stack<T>>, address: Seq<char>)
    ensures
        ({
            let k = stack_position(stacks, address);
            &&& 0 <= k <= stacks.len()
            &&& k < stacks.len() ==> stacks[k].address == address
            &&& forall|j: int| 0 <= j < k ==> (#[trigger] stacks[j]).address != address
        }),
    decreases stacks.len(),
{
    if stacks.len() > 0 && stacks[0].address != address {
        lemma_position(stacks.skip(1), address);
        let k = stack_position(stacks, address);
        assert forall|j: int| 0 <= j < k implies (#[trigger] stacks[j]).address != address by {
            if j > 0 {
                assert(stacks.skip(1)[j - 1] == stacks[j]);
            }
        }
    }
}

/// What is parked for an address is on top of that address's stack, unless 8192 are there
/// already; and no other address is touched.
pub proof fn lemma_parking_touches_one_address<T>(
    stacks: Seq<Stack<T>>,
    address: Seq<char>,
    stream: T,
    now: u64,
)
    ensures
        ({
            let after = parked(stacks, address, stream, now);
            let k = stack_position(stacks, address);
            &&& after.len() >= stacks.len()
            &&& forall|j: int|
                0 <= j < stacks.len() && (#[trigger] stacks[j]).address != address ==> after[j]
                    == stacks[j]
            &&& k < stacks.len() && stacks[k].idle.len() >= 8192 ==> after == stacks
            &&& k >= stacks.len() || stacks[k].idle.len() < 8192 ==> {
                &&& k < after.len()
                &&& after[k].address == address
                &&& after[k].idle.last() == (stream, now)
                &&& total(after) == total(stacks) + 1
            }
            &&& k >= stacks.len() ==> after.len() == stacks.len() + 1 && after[k].idle.len() == 1
            &&& k < stacks.len() && stacks[k].idle.len() < 8192 ==> after.len() == stacks.len()
                && after[k].idle.drop_last() == stacks[k].idle
        }),
{
    lemma_position(stacks, address);
    let after = parked(stacks, address, stream, now);
    let k = stack_position(stacks, address);
    if k >= stacks.len() {
        assert(after.drop_last() =~= stacks);
    } else if stacks[k].idle.len() < 8192 {
        assert(after[k].idle.drop_last() =~= stacks[k].idle);
        lemma_total_of_update(stacks, k, after[k]);
    }
}

proof fn lemma_total_of_update<T>(stacks: Seq<Stack<T>>, k: int, s: Stack<T>)
    requires
        0 <= k < stacks.len(),
    ensures
        total(stacks.update(k, s)) == total(stacks) - stacks[k].idle.len() + s.idle.len(),
    decreases stacks.len(),
{
    let after = stacks.update(k, s);
    if k == stacks.len() - 1 {
        assert(after.drop_last() =~= stacks.drop_last());
    } else {
        lemma_total_of_update(stacks.drop_last(), k, s);
        assert(after.drop_last() =~= stacks.drop_last().update(k, s));
    }
}

/// The connection that is taken is the last one that is still fresh; the stale ones above
/// it are dropped, and those below it stay. Where none is fresh nothing is left.
pub proof fn lemma_last_fresh_one_is_taken<T>(idle: Seq<(T, u64)>, now: u64, i: int)
    requires
        -1 <= i < idle.len(),
        i >= 0 ==> lives(idle[i].1, now),
        forall|j: int| i < j < idle.len() ==> !lives((#[trigger] idle[j]).1, now),
    ensures
        i >= 0 ==> taken(idle, now) == (Some(idle[i].0), idle.take(i)),
        i < 0 ==> taken(idle, now).0 is None && taken(idle, now).1.len() == 0,
    decreases idle.len(),
{
    if idle.len() > 0 {
        if i == idle.len() - 1 {
            assert(idle.drop_last() =~= idle.take(i));
        } else {
            let less = idle.drop_last();
            assert(!lives(idle[idle.len() - 1].1, now));
            assert forall|j: int| i < j < less.len() implies !lives((#[trigger] less[j]).1, now) by {
                assert(idle[j] == less[j]);
            }
            lemma_last_fresh_one_is_taken(less, now, i);
            if i >= 0 {
                assert(less.take(i) =~= idle.take(i));
            }
        }
    }
}

/// Sweeping keeps of every stack exactly what is still fresh, in its order.
pub proof fn lemma_sweeping_keeps_what_is_fresh<T>(idle: Seq<(T, u64)>, now: u64)
    ensures
        fresh_ones(idle, now) == idle.filter(|entry: (T, u64)| lives(entry.1, now)),
    decreases idle.len(),
{
    reveal(Seq::filter);
    if idle.len() > 0 {
        lemma_sweeping_keeps_what_is_fresh(idle.drop_last(), now);
    }
}

/// Sweeping treats every stack by itself: one that has a fresh connection stays, behind
/// those before it, with its address and what is fresh in it; one that has none is gone.
pub proof fn lemma_sweeping_goes_stack_by_stack<T>(
    stacks: Seq<Stack<T>>,
    s: Stack<T>,
    now: u64,
)
    ensures
        evicted(Seq::<Stack<T>>::empty(), now).len() == 0,
        ({
            let kept = s.idle.filter(|entry: (T, u64)| lives(entry.1, now));
            evicted(stacks.push(s), now) == (if kept.len() == 0 {
                evicted(stacks, now)
            } else {
                evicted(stacks, now).push(Stack { address: s.address, idle: kept })
            })
        }),
{
    lemma_sweeping_keeps_what_is_fresh(s.idle, now);
    assert(stacks.push(s).drop_last() =~= stacks);
}

/// Bytes are taken for HTTP/2 if and only if they begin with the whole preface, are
/// waited for while they are the beginning of it, and are HTTP/1 as soon as one of them
/// differs.
pub proof fn lemma_preface_decides(rest: Seq<u8>, n: int, buf: Seq<u8>, i: int)
    requires
        0 <= n < 24,
        0 <= i < buf.len(),
        i < 24,
    ensures
        is_h2(H2_PREFACE@ + rest) == Some(true),
        is_h2(H2_PREFACE@.take(n)) is None,
        buf[i] != H2_PREFACE@[i] ==> is_h2(buf) == Some(false),
{
    assert((H2_PREFACE@ + rest).take(24) =~= H2_PREFACE@.take(24));
    assert(H2_PREFACE@.take(n).take(n) =~= H2_PREFACE@.take(n));
    let m: int = if buf.len() < 24 {
        buf.len() as int
    } else {
        24
    };
    if buf[i] != H2_PREFACE@[i] {
        assert(buf.take(m)[i] != H2_PREFACE@.take(m)[i]);
    }
}

} // verus!
