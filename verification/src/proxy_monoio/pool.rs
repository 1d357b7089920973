//! Per-core upstream connection pool.
//!
//! Without it, every request pays a TCP handshake to the upstream, and a benchmark
//! would measure connection setup rather than the runtime. The pool is not shared
//! between workers, so it needs no locks and no atomics.

use vstd::prelude::*;

verus! {

/// Idle connections retained per upstream address (per core).
pub const MAX_IDLE_PER_HOST: usize = 8192;

/// Idle connections at least this old, in nanoseconds, are discarded; the
/// upstream may have closed them.
pub const MAX_IDLE_AGE_NANOS: u64 = 45_000_000_000;

/// An idle connection and when it was parked, in nanoseconds of a monotonic clock.
#[derive(Debug)]
struct Pooled<T> {
    stream: T,
    parked_at: u64,
}

#[derive(Debug)]
struct HostPool<T> {
    address: String,
    idle: Vec<Pooled<T>>,
}

/// A thread-local pool of upstream connections.
#[derive(Debug)]
pub struct ConnectionPool<T> {
    hosts: Vec<HostPool<T>>,
}

/// The idle connections of one address, the most recently parked last.
pub struct Stack<T> {
    pub address: Seq<char>,
    pub idle: Seq<(T, u64)>,
}

/// Whether a connection parked at `parked` is still fresh.
pub open spec fn is_fresh(parked: u64, now: u64) -> bool {
    now - parked < MAX_IDLE_AGE_NANOS
}

/// The position of an address among stacks, or their number if there is none.
pub open spec fn stack_position<T>(stacks: Seq<Stack<T>>, address: Seq<char>) -> int
    decreases stacks.len(),
{
    if stacks.len() == 0 || stacks[0].address == address {
        0
    } else {
        1 + stack_position(stacks.skip(1), address)
    }
}

/// What is left of a stack once its last fresh connection has been taken, and that
/// connection. Stale ones above it are dropped.
pub open spec fn taken<T>(idle: Seq<(T, u64)>, now: u64) -> (Option<T>, Seq<(T, u64)>)
    decreases idle.len(),
{
    if idle.len() == 0 {
        (None, idle)
    } else if is_fresh(idle.last().1, now) {
        (Some(idle.last().0), idle.drop_last())
    } else {
        taken(idle.drop_last(), now)
    }
}

/// The connections of a stack that are fresh.
pub open spec fn fresh_ones<T>(idle: Seq<(T, u64)>, now: u64) -> Seq<(T, u64)>
    decreases idle.len(),
{
    if idle.len() == 0 {
        idle
    } else if is_fresh(idle.last().1, now) {
        fresh_ones(idle.drop_last(), now).push(idle.last())
    } else {
        fresh_ones(idle.drop_last(), now)
    }
}

/// The stacks without their stale connections, and without the stacks that are
/// then empty.
pub open spec fn evicted<T>(stacks: Seq<Stack<T>>, now: u64) -> Seq<Stack<T>>
    decreases stacks.len(),
{
    if stacks.len() == 0 {
        stacks
    } else {
        let before = evicted(stacks.drop_last(), now);
        let idle = fresh_ones(stacks.last().idle, now);
        if idle.len() == 0 {
            before
        } else {
            before.push(Stack { address: stacks.last().address, idle })
        }
    }
}

/// The number of idle connections in all stacks.
pub open spec fn total<T>(stacks: Seq<Stack<T>>) -> nat
    decreases stacks.len(),
{
    if stacks.len() == 0 {
        0
    } else {
        total(stacks.drop_last()) + stacks.last().idle.len()
    }
}

/// The stacks after a connection has been returned. At capacity it is dropped,
/// which closes it.
pub open spec fn parked<T>(
    stacks: Seq<Stack<T>>,
    address: Seq<char>,
    stream: T,
    now: u64,
) -> Seq<Stack<T>> {
    let k = stack_position(stacks, address);
    if k >= stacks.len() {
        stacks.push(Stack { address, idle: seq![(stream, now)] })
    } else if stacks[k].idle.len() < MAX_IDLE_PER_HOST {
        stacks.update(k, Stack { address, idle: stacks[k].idle.push((stream, now)) })
    } else {
        stacks
    }
}

spec fn idle_of<T>(list: Seq<Pooled<T>>) -> Seq<(T, u64)> {
    Seq::new(list.len(), |i: int| (list[i].stream, list[i].parked_at))
}

spec fn stacks_of<T>(hosts: Seq<HostPool<T>>) -> Seq<Stack<T>> {
    Seq::new(
        hosts.len(),
        |i: int| Stack { address: hosts[i].address@, idle: idle_of(hosts[i].idle@) },
    )
}

proof fn lemma_stack_position<T>(stacks: Seq<Stack<T>>, address: Seq<char>)
    ensures
        ({
            let k = stack_position(stacks, address);
            &&& 0 <= k <= stacks.len()
            &&& k < stacks.len() ==> stacks[k].address == address
        }),
    decreases stacks.len(),
{
    if stacks.len() > 0 && stacks[0].address != address {
        lemma_stack_position(stacks.skip(1), address);
    }
}

/// Whether a connection parked at `parked` is still fresh at `now`.
fn fresh(parked: u64, now: u64) -> (r: bool)
    ensures
        r == is_fresh(parked, now),
{
    now < parked || now - parked < MAX_IDLE_AGE_NANOS
}

impl<T> ConnectionPool<T> {
    /// The idle connections of every address.
    pub closed spec fn stacks(&self) -> Seq<Stack<T>> {
        stacks_of(self.hosts@)
    }

    /// An empty pool.
    #[must_use]
    pub fn new() -> (r: Self)
        ensures
            r.stacks() == Seq::<Stack<T>>::empty(),
    {
        let r = Self { hosts: Vec::new() };
        assert(r.stacks() =~= Seq::<Stack<T>>::empty());
        r
    }

    fn find(&self, address: &str) -> (r: usize)
        ensures
            r == stack_position(self.stacks(), address@),
    {
        let ghost all = self.stacks();
        let mut i: usize = 0;
        assert(all.skip(0) =~= all);
        while i < self.hosts.len()
            invariant
                i <= self.hosts@.len(),
                all == self.stacks(),
                i + stack_position(all.skip(i as int), address@) == stack_position(all, address@),
            decreases self.hosts@.len() - i,
        {
            if self.hosts[i].address.as_str().eq(address) {
                return i;
            }
            assert(all.skip(i as int).skip(1) =~= all.skip(i + 1));
            i = i + 1;
        }
        i
    }

    /// Take an idle connection for `address`, if one is still fresh.
    ///
    /// LIFO: the most recently returned connection is the most likely to still be
    /// open and to have a warm congestion window.
    pub fn take(&mut self, address: &str, now: u64) -> (r: Option<T>)
        ensures
            ({
                let before = old(self).stacks();
                let k = stack_position(before, address@);
                if k >= before.len() {
                    r is None && final(self).stacks() == before
                } else {
                    &&& r == taken(before[k].idle, now).0
                    &&& final(self).stacks() == before.update(
                        k,
                        Stack { address: address@, idle: taken(before[k].idle, now).1 },
                    )
                }
            }),
    {
        let ghost before = self.stacks();
        proof {
            lemma_stack_position(before, address@);
        }
        let k: usize = self.find(address);
        if k >= self.hosts.len() {
            return None;
        }
        let ghost all = before[k as int].idle;
        let host = &mut self.hosts[k];
        let ghost name = host.address;
        let mut result: Option<T> = None;
        loop
            invariant_except_break
                taken(idle_of(host.idle@), now) == taken(all, now),
                result is None,
            invariant
                host.address == name,
            ensures
                result == taken(all, now).0,
                idle_of(host.idle@) == taken(all, now).1,
            decreases host.idle@.len(),
        {
            let ghost idle = idle_of(host.idle@);
            match host.idle.pop() {
                Some(entry) => {
                    assert(idle_of(host.idle@) =~= idle.drop_last());
                    if fresh(entry.parked_at, now) {
                        result = Some(entry.stream);
                        break;
                    }
                    // Older than the idle window: drop it and try the next one.
                },
                None => {
                    assert(idle.len() == 0);
                    break;
                },
            }
        }
        assert(self.stacks() =~= before.update(
            k as int,
            Stack { address: address@, idle: taken(all, now).1 },
        ));
        result
    }

    /// Return a connection to the pool for reuse.
    pub fn put(&mut self, address: &str, stream: T, now: u64)
        ensures
            final(self).stacks() == parked(old(self).stacks(), address@, stream, now),
    {
        let ghost before = self.stacks();
        proof {
            lemma_stack_position(before, address@);
        }
        let k: usize = self.find(address);
        if k >= self.hosts.len() {
            let mut idle: Vec<Pooled<T>> = Vec::new();
            idle.push(Pooled { stream, parked_at: now });
            assert(idle_of(idle@) =~= seq![(stream, now)]);
            self.hosts.push(HostPool { address: address.to_owned(), idle });
            assert(self.stacks() =~= parked(before, address@, stream, now));
        } else if self.hosts[k].idle.len() < MAX_IDLE_PER_HOST {
            let ghost was = self.hosts@[k as int].idle@;
            let host = &mut self.hosts[k];
            host.idle.push(Pooled { stream, parked_at: now });
            proof {
                assert(idle_of(self.hosts@[k as int].idle@) =~= idle_of(was).push((stream, now)));
                assert(self.stacks() =~= parked(before, address@, stream, now));
            }
        }
    }

    /// Number of idle connections currently held, across all hosts.
    #[must_use]
    pub fn idle_count(&self) -> (r: usize)
        requires
            total(self.stacks()) <= usize::MAX,
        ensures
            r == total(self.stacks()),
    {
        let ghost all = self.stacks();
        let mut n: usize = 0;
        let mut i: usize = 0;
        assert(all.take(0) =~= Seq::empty());
        while i < self.hosts.len()
            invariant
                i <= self.hosts@.len(),
                all == self.stacks(),
                n == total(all.take(i as int)),
                total(all) <= usize::MAX,
            decreases self.hosts@.len() - i,
        {
            proof {
                assert(all.take(i + 1).drop_last() =~= all.take(i as int));
                lemma_total_grows(all, i + 1);
            }
            n = n + self.hosts[i].idle.len();
            i = i + 1;
        }
        assert(all.take(i as int) =~= all);
        n
    }

    /// Drop every idle connection whose age exceeds the idle window.
    pub fn evict_expired(&mut self, now: u64)
        ensures
            final(self).stacks() == evicted(old(self).stacks(), now),
    {
        let ghost before = self.stacks();
        let mut hosts: Vec<HostPool<T>> = Vec::new();
        let mut out: Vec<HostPool<T>> = Vec::new();
        hosts.append(&mut self.hosts);
        let ghost n = hosts@.len();
        assert(stacks_of(hosts@) =~= before);
        // Take the stacks from the last to the first, and put them back in order.
        let mut rev: Vec<HostPool<T>> = Vec::new();
        while hosts.len() > 0
            invariant
                hosts@.len() + rev@.len() == n,
                n == before.len(),
                stacks_of(hosts@) == before.take(hosts@.len() as int),
                forall|k: int|
                    0 <= k < rev@.len() ==> stacks_of(rev@)[k] == #[trigger] before[n - 1 - k],
            decreases hosts@.len(),
        {
            let ghost was = hosts@;
            if let Some(h) = hosts.pop() {
                assert(stacks_of(hosts@) =~= stacks_of(was).drop_last());
                assert(stacks_of(hosts@) =~= before.take(hosts@.len() as int));
                rev.push(h);
                assert(stacks_of(was).last() == before[hosts@.len() as int]);
                assert forall|k: int| 0 <= k < rev@.len() implies stacks_of(rev@)[k]
                    == #[trigger] before[n - 1 - k] by {}
            }
        }
        assert(before.take(0) =~= Seq::empty());
        assert(stacks_of(out@) =~= Seq::empty());
        while rev.len() > 0
            invariant
                rev@.len() <= n,
                n == before.len(),
                forall|k: int|
                    0 <= k < rev@.len() ==> stacks_of(rev@)[k] == #[trigger] before[n - 1 - k],
                stacks_of(out@) == evicted(before.take(n - rev@.len()), now),
            decreases rev@.len(),
        {
            let ghost was = rev@;
            let ghost done = out@;
            if let Some(h) = rev.pop() {
                let ghost at = n - was.len();
                assert(before.take(at + 1).drop_last() =~= before.take(at));
                assert(stacks_of(was)[was.len() - 1] == before[n - 1 - (was.len() - 1)]);
                assert(before.take(at + 1).last() == stacks_of(was)[was.len() - 1]);
                let idle = retain_fresh(h.idle, now);
                assert(idle_of(idle@).len() == idle@.len());
                if idle.len() > 0 {
                    out.push(HostPool { address: h.address, idle });
                    assert(stacks_of(out@) =~= stacks_of(done).push(
                        Stack { address: h.address@, idle: idle_of(idle@) },
                    ));
                }
                assert forall|k: int| 0 <= k < rev@.len() implies stacks_of(rev@)[k]
                    == #[trigger] before[n - 1 - k] by {
                    assert(stacks_of(was)[k] == before[n - 1 - k]);
                }
            }
        }
        assert(before.take(n as int) =~= before);
        self.hosts = out;
    }
}

proof fn lemma_total_grows<T>(stacks: Seq<Stack<T>>, n: int)
    requires
        0 <= n <= stacks.len(),
    ensures
        total(stacks.take(n)) <= total(stacks),
    decreases stacks.len(),
{
    if n == stacks.len() {
        assert(stacks.take(n) =~= stacks);
    } else {
        lemma_total_grows(stacks.drop_last(), n);
        assert(stacks.drop_last().take(n) =~= stacks.take(n));
    }
}

/// The fresh ones of a stack, in order.
fn retain_fresh<T>(idle: Vec<Pooled<T>>, now: u64) -> (r: Vec<Pooled<T>>)
    ensures
        idle_of(r@) == fresh_ones(idle_of(idle@), now),
{
    let ghost all = idle_of(idle@);
    let ghost n = idle@.len();
    let mut source = idle;
    let mut rev: Vec<Pooled<T>> = Vec::new();
    assert(all.take(n as int) =~= all);
    while source.len() > 0
        invariant
            source@.len() + rev@.len() == n,
            n == all.len(),
            idle_of(source@) == all.take(source@.len() as int),
            forall|k: int| 0 <= k < rev@.len() ==> idle_of(rev@)[k] == #[trigger] all[n - 1 - k],
        decreases source@.len(),
    {
        let ghost was = source@;
        if let Some(p) = source.pop() {
            assert(idle_of(source@) =~= idle_of(was).drop_last());
            assert(idle_of(source@) =~= all.take(source@.len() as int));
            rev.push(p);
            assert(idle_of(was).last() == all[source@.len() as int]);
            assert forall|k: int| 0 <= k < rev@.len() implies idle_of(rev@)[k] == #[trigger] all[n
                - 1 - k] by {}
        }
    }
    let mut out: Vec<Pooled<T>> = Vec::new();
    assert(all.take(0) =~= Seq::empty());
    assert(idle_of(out@) =~= Seq::empty());
    while rev.len() > 0
        invariant
            rev@.len() <= n,
            n == all.len(),
            forall|k: int| 0 <= k < rev@.len() ==> idle_of(rev@)[k] == #[trigger] all[n - 1 - k],
            idle_of(out@) == fresh_ones(all.take(n - rev@.len()), now),
        decreases rev@.len(),
    {
        let ghost was = rev@;
        let ghost done = out@;
        if let Some(p) = rev.pop() {
            let ghost at = n - was.len();
            assert(all.take(at + 1).drop_last() =~= all.take(at));
            assert(idle_of(was)[was.len() - 1] == all[n - 1 - (was.len() - 1)]);
            assert(all.take(at + 1).last() == idle_of(was)[was.len() - 1]);
            if fresh(p.parked_at, now) {
                out.push(p);
                assert(idle_of(out@) =~= idle_of(done).push((p.stream, p.parked_at)));
            }
            assert forall|k: int| 0 <= k < rev@.len() implies idle_of(rev@)[k] == #[trigger] all[n
                - 1 - k] by {
                assert(idle_of(was)[k] == all[n - 1 - k]);
            }
        }
    }
    assert(all.take(n as int) =~= all);
    out
}

/// The pool is last in, first out: what was just returned is what is taken next,
/// while it is fresh.
pub proof fn lemma_last_in_first_out<T>(idle: Seq<(T, u64)>, stream: T, at: u64, now: u64)
    requires
        is_fresh(at, now),
    ensures
        taken(idle.push((stream, at)), now) == (Some(stream), idle),
{
    assert(idle.push((stream, at)).drop_last() =~= idle);
}

/// A stale connection is never handed out.
pub proof fn lemma_only_fresh_ones_are_taken<T>(idle: Seq<(T, u64)>, now: u64)
    ensures
        taken(idle, now).0 matches Some(stream) ==> exists|i: int|
            0 <= i < idle.len() && (#[trigger] idle[i]).0 == stream && is_fresh(idle[i].1, now),
        taken(idle, now).0 is None ==> fresh_ones(idle, now).len() == 0,
    decreases idle.len(),
{
    if idle.len() > 0 {
        if is_fresh(idle.last().1, now) {
            assert(idle[idle.len() - 1].0 == idle.last().0);
        } else {
            lemma_only_fresh_ones_are_taken(idle.drop_last(), now);
            if taken(idle, now).0 is Some {
                let i = choose|i: int|
                    0 <= i < idle.drop_last().len() && (#[trigger] idle.drop_last()[i]).0 == taken(
                        idle,
                        now,
                    ).0->0 && is_fresh(idle.drop_last()[i].1, now);
                assert(idle[i] == idle.drop_last()[i]);
            }
        }
    }
}

} // verus!
