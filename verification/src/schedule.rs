//! Scheduling decisions: round-robin endpoint assignment and the bounded
//! admission gate that both the upload and the retrieval paths share.

use vstd::prelude::*;

verus! {

/// The endpoint a chunk is assigned to under round-robin distribution:
/// chunk `index` goes to endpoint `index mod pool_size`.
pub open spec fn spec_endpoint_for(index: nat, pool_size: nat) -> nat
    recommends
        pool_size > 0,
{
    index % pool_size
}

/// Round-robin assignment of a chunk to one of `pool_size` endpoints.
pub fn endpoint_for(index: usize, pool_size: usize) -> (e: usize)
    requires
        pool_size > 0,
    ensures
        e == spec_endpoint_for(index as nat, pool_size as nat),
        e < pool_size,
{
    index % pool_size
}

/// Endpoint distribution law: under round-robin assignment, endpoint `e`
/// receives exactly the chunks whose index is congruent to `e` modulo the
/// pool size — chunk `i` lands on endpoint `e` if and only if `i % n == e`.
pub proof fn lemma_endpoint_distribution(n: nat, e: nat)
    requires
        n > 0,
        e < n,
    ensures
        forall|i: nat| spec_endpoint_for(i, n) == e <==> i % n == e,
{
}

/// How many transfers a flag sequence marks as running.
pub open spec fn count_active(s: Seq<bool>) -> int
    decreases s.len(),
{
    if s.len() == 0 {
        0
    } else {
        count_active(s.drop_last()) + if s.last() {
            1int
        } else {
            0int
        }
    }
}

proof fn lemma_count_active_all_clear(s: Seq<bool>)
    requires
        forall|i: int| 0 <= i < s.len() ==> !s[i],
    ensures
        count_active(s) == 0,
    decreases s.len(),
{
    if s.len() > 0 {
        lemma_count_active_all_clear(s.drop_last());
    }
}

proof fn lemma_count_active_update(s: Seq<bool>, i: int, v: bool)
    requires
        0 <= i < s.len(),
    ensures
        count_active(s.update(i, v)) == count_active(s) - (if s[i] {
            1int
        } else {
            0int
        }) + (if v {
            1int
        } else {
            0int
        }),
    decreases s.len(),
{
    let t = s.update(i, v);
    if i == s.len() - 1 {
        assert(t.drop_last() =~= s.drop_last());
    } else {
        assert(t.drop_last() =~= s.drop_last().update(i, v));
        lemma_count_active_update(s.drop_last(), i, v);
    }
}

proof fn lemma_count_active_nonneg(s: Seq<bool>)
    ensures
        count_active(s) >= 0,
    decreases s.len(),
{
    if s.len() > 0 {
        lemma_count_active_nonneg(s.drop_last());
    }
}

proof fn lemma_count_active_pos(s: Seq<bool>, i: int)
    requires
        0 <= i < s.len(),
        s[i],
    ensures
        count_active(s) >= 1,
    decreases s.len(),
{
    lemma_count_active_nonneg(s.drop_last());
    if i < s.len() - 1 {
        assert(s.drop_last()[i]);
        lemma_count_active_pos(s.drop_last(), i);
    }
}

/// The dispatcher both schedulers run on: it admits one chunk transfer at a
/// time, never more than `limit` in flight at once, hands each chunk its
/// round-robin endpoint, and collects which chunks were reported failed.
///
/// The surrounding application owns the transports: it asks `try_dispatch`
/// whether a transfer may start, performs the transfer, and reports the
/// outcome back through `complete`. No dispatch is granted before the
/// application has confirmed, through `note_entry_created`, that the
/// object's ledger entry exists.
pub struct TransferScheduler {
    /// The concurrency limit `C`: the most transfers in flight at once.
    pub limit: usize,
    /// The number of endpoints chunks are spread over.
    pub pool_size: usize,
    /// How many chunks the operation has in all.
    pub chunk_count: usize,
    /// How many chunks have been admitted so far; chunks are admitted in
    /// index order, so these are exactly the indices below `dispatched`.
    pub dispatched: usize,
    /// How many transfers are in flight right now.
    pub in_flight: usize,
    /// Whether the object's ledger entry has been created; nothing is
    /// dispatched before it has.
    pub entry_created: bool,
    /// For each chunk index, whether its transfer is in flight.
    pub active: Vec<bool>,
    /// The indices whose transfers were reported failed, in report order.
    pub failures: Vec<usize>,
}

impl TransferScheduler {
    /// The scheduler's invariant: it holds in every reachable state, and
    /// bounds the transfers in flight by the concurrency limit.
    pub open spec fn wf(&self) -> bool {
        &&& self.limit >= 1
        &&& self.pool_size >= 1
        &&& self.active@.len() == self.chunk_count
        &&& self.dispatched <= self.chunk_count
        &&& self.in_flight == count_active(self.active@)
        &&& self.in_flight <= self.limit
        &&& forall|i: int| self.dispatched <= i < self.chunk_count ==> !self.active@[i]
        &&& forall|j: int| 0 <= j < self.failures@.len() ==> self.failures@[j] < self.dispatched
    }

    /// A fresh scheduler for an operation of `chunk_count` chunks under
    /// concurrency limit `limit` over `pool_size` endpoints: nothing
    /// dispatched, nothing in flight, no failures, the ledger entry not yet
    /// created.
    pub fn new(chunk_count: usize, limit: usize, pool_size: usize) -> (s: Self)
        requires
            limit >= 1,
            pool_size >= 1,
        ensures
            s.wf(),
            s.limit == limit,
            s.pool_size == pool_size,
            s.chunk_count == chunk_count,
            s.dispatched == 0,
            s.in_flight == 0,
            !s.entry_created,
            s.failures@.len() == 0,
            forall|i: int| 0 <= i < chunk_count ==> !s.active@[i],
    {
        let active = vec![false; chunk_count];
        proof {
            lemma_count_active_all_clear(active@);
        }
        TransferScheduler {
            limit,
            pool_size,
            chunk_count,
            dispatched: 0,
            in_flight: 0,
            entry_created: false,
            active,
            failures: Vec::new(),
        }
    }

    /// Records that the object's ledger entry now exists. Dispatching is
    /// gated on this: the entry is created before the first chunk goes out.
    pub fn note_entry_created(&mut self)
        requires
            old(self).wf(),
        ensures
            final(self).wf(),
            final(self).entry_created,
            *final(self) == (TransferScheduler { entry_created: true, ..*old(self) }),
    {
        self.entry_created = true;
    }

    /// Admits the next chunk if the ledger entry exists, chunks remain, and
    /// a concurrency slot is free: then the answer carries the chunk's
    /// index and its round-robin endpoint, the index is marked in flight,
    /// and the bound `in_flight <= limit` still holds. Otherwise nothing
    /// changes.
    pub fn try_dispatch(&mut self) -> (r: Option<(usize, usize)>)
        requires
            old(self).wf(),
        ensures
            final(self).wf(),
            r is Some <==> (old(self).entry_created && old(self).dispatched < old(
                self,
            ).chunk_count && old(self).in_flight < old(self).limit),
            r matches Some((index, endpoint)) ==> {
                &&& index == old(self).dispatched
                &&& endpoint == spec_endpoint_for(index as nat, old(self).pool_size as nat)
                &&& endpoint < old(self).pool_size
                &&& *final(self) == (TransferScheduler {
                    dispatched: (index + 1) as usize,
                    in_flight: (old(self).in_flight + 1) as usize,
                    active: final(self).active,
                    ..*old(self)
                })
                &&& final(self).active@ == old(self).active@.update(index as int, true)
            },
            r is None ==> *final(self) == *old(self),
    {
        if !self.entry_created {
            return None;
        }
        if self.dispatched >= self.chunk_count {
            return None;
        }
        if self.in_flight >= self.limit {
            return None;
        }
        let index = self.dispatched;
        proof {
            lemma_count_active_update(self.active@, index as int, true);
        }
        self.active.set(index, true);
        self.dispatched = index + 1;
        self.in_flight = self.in_flight + 1;
        let endpoint = endpoint_for(index, self.pool_size);
        Some((index, endpoint))
    }

    /// Takes the report that chunk `index`'s transfer has resolved: the
    /// concurrency slot is freed at once, and a failed outcome adds the
    /// index to the failure list — siblings keep running either way.
    pub fn complete(&mut self, index: usize, ok: bool)
        requires
            old(self).wf(),
            index < old(self).chunk_count,
            old(self).active@[index as int],
        ensures
            final(self).wf(),
            final(self).active@ == old(self).active@.update(index as int, false),
            final(self).in_flight == old(self).in_flight - 1,
            final(self).failures@ == if ok {
                old(self).failures@
            } else {
                old(self).failures@.push(index)
            },
            final(self).dispatched == old(self).dispatched,
            final(self).chunk_count == old(self).chunk_count,
            final(self).limit == old(self).limit,
            final(self).pool_size == old(self).pool_size,
            final(self).entry_created == old(self).entry_created,
    {
        proof {
            lemma_count_active_pos(self.active@, index as int);
            lemma_count_active_update(self.active@, index as int, false);
        }
        self.active.set(index, false);
        self.in_flight = self.in_flight - 1;
        if !ok {
            self.failures.push(index);
        }
    }

    /// Whether the operation has reached its join point: every chunk
    /// admitted and every admitted transfer resolved.
    pub fn is_done(&self) -> (b: bool)
        ensures
            b == (self.dispatched == self.chunk_count && self.in_flight == 0),
    {
        self.dispatched == self.chunk_count && self.in_flight == 0
    }

    /// Whether the whole operation succeeded: done, with no failed chunk.
    pub fn all_succeeded(&self) -> (b: bool)
        ensures
            b == (self.dispatched == self.chunk_count && self.in_flight == 0
                && self.failures@.len() == 0),
    {
        self.dispatched == self.chunk_count && self.in_flight == 0 && self.failures.len() == 0
    }
}

/// Concurrency bound law: in every reachable scheduler state — `new`
/// establishes the invariant and every transition keeps it — the transfers
/// marked in flight never exceed the concurrency limit.
pub proof fn lemma_concurrency_bound(s: &TransferScheduler)
    requires
        s.wf(),
    ensures
        s.in_flight <= s.limit,
        count_active(s.active@) <= s.limit,
{
}

} // verus!
