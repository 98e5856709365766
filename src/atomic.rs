use vstd::prelude::*;

use core::marker::PhantomData;

use crate::access::Access;
use crate::execution::{objects_wf, Execution};
use crate::failure::Failure;
use crate::object::{branchable, Action, Entry, Ref};
use crate::synchronize::{acquires, after_acquire, is_seq_cst, releases, seq_cst_effect, Ordering, Synchronize};
use crate::thread::{same_but_clocks, Thread, ThreadSet};
use crate::vv::{lemma_join_least_upper_bound, lemma_le_transitive, vv_inc, vv_join, vv_le, VersionVec};

verus! {

/// The kind of operation a thread is about to perform on an atomic.
#[derive(Clone, Copy, Debug, PartialEq, Eq, Structural)]
pub enum AtomicAction {
    Load,
    Store,
    Rmw,
}

/// For each thread, its own clock when it first saw a store.
pub struct FirstSeen(pub Vec<Option<u64>>);

/// One store in an atomic's history.
pub struct StoreRecord {
    /// Causality released by the store.
    pub sync: Synchronize,
    /// When each thread first saw the stored value.
    pub first_seen: FirstSeen,
    /// True when the store was done with `SeqCst` ordering.
    pub seq_cst: bool,
    /// Causality of the storing thread at the store, whatever its ordering: an
    /// unsynchronized access is checked against it.
    pub writer: VersionVec,
}

/// The state of one atomic location: its store history, oldest first.
pub struct AtomicState {
    pub last_access: Option<Access>,
    pub stores: Vec<StoreRecord>,
}

/// Some thread that `causality` covers saw the store at or before that thread's clock.
pub open spec fn seen_by(first_seen: Seq<Option<u64>>, causality: Seq<u64>) -> bool {
    exists|t: int|
        0 <= t < first_seen.len() && t < causality.len() && (#[trigger] first_seen[t]) is Some
            && first_seen[t]->Some_0 <= causality[t]
}

/// The thread saw the store itself, no later than its last yield.
pub open spec fn seen_before_yield(first_seen: Seq<Option<u64>>, th: Thread) -> bool {
    &&& th.last_yield is Some
    &&& th.id < first_seen.len()
    &&& first_seen[th.id as int] is Some
    &&& first_seen[th.id as int]->Some_0 <= th.last_yield->Some_0
}

/// The store is ordered before a load by `th` with `order`: the thread's causality covers
/// it, or both the store and the load are sequentially consistent.
pub open spec fn ordered_before(rec: StoreRecord, th: Thread, order: Ordering) -> bool {
    seen_by(rec.first_seen.0@, th.causality@) || (order == Ordering::SeqCst && rec.seq_cst)
}

/// The stores that a load may read, walking the first `k` stores from the newest down:
/// every store not ordered before the loader, up to and including the newest one that is.
/// A store that the loader itself saw before its last yield ends the walk; it is a
/// candidate only when it is the newest store of all.
pub open spec fn walk(stores: Seq<StoreRecord>, k: int, th: Thread, order: Ordering) -> Seq<usize>
    decreases k,
{
    if k <= 0 || k > stores.len() {
        Seq::empty()
    } else if seen_before_yield(stores[k - 1].first_seen.0@, th) {
        if k == stores.len() {
            seq![(k - 1) as usize]
        } else {
            Seq::empty()
        }
    } else if ordered_before(stores[k - 1], th, order) {
        seq![(k - 1) as usize]
    } else {
        seq![(k - 1) as usize] + walk(stores, k - 1, th, order)
    }
}

/// The indices, newest first, of the stores that a load by `th` with `order` may read.
pub open spec fn load_candidates(stores: Seq<StoreRecord>, th: Thread, order: Ordering) -> Seq<
    usize,
> {
    walk(stores, stores.len() as int, th, order)
}

/// `first_seen` after thread `a`, whose own clock is `clock`, has seen the store.
pub open spec fn touched(first_seen: Seq<Option<u64>>, a: int, clock: u64) -> Seq<Option<u64>> {
    if first_seen[a] is None {
        first_seen.update(a, Some(clock))
    } else {
        first_seen
    }
}

/// The store a read-modify-write read keeps its released causality, its ordering and its
/// writer; only who has seen it may change.
pub open spec fn read_store_kept(old: StoreRecord, new: StoreRecord) -> bool {
    &&& new.sync == old.sync
    &&& new.seq_cst == old.seq_cst
    &&& new.writer == old.writer
}

/// The store a successful read-modify-write appends, having read a store that released
/// `read`, by a thread whose causality was `c0` before and `c` after: it carries on what
/// the read store released (a release sequence), and under a releasing order what the
/// writer had seen as well; its writer clock lies between the two.
pub open spec fn rmw_write(read: Seq<u64>, c0: Seq<u64>, c: Seq<u64>, success: Ordering, new: StoreRecord) -> bool {
    &&& rmw_appended(read, c0, c, success, new)
    &&& (releases(success) && success != Ordering::SeqCst) ==> new.sync.happens_before@ == vv_join(read, c)
    &&& success != Ordering::SeqCst ==> c == after_acquire(c0, read, success)
}

/// What a successful read-modify-write appends, as seen from a causality `c` that covers
/// the writer's after the write.
pub open spec fn rmw_appended(read: Seq<u64>, c0: Seq<u64>, c: Seq<u64>, success: Ordering, new: StoreRecord) -> bool {
    &&& new.seq_cst == (success == Ordering::SeqCst)
    &&& vv_le(read, new.sync.happens_before@)
    &&& releases(success) ==> vv_le(c0, new.sync.happens_before@)
    &&& !releases(success) ==> new.sync.happens_before@ == read
    &&& vv_le(after_acquire(c0, read, success), c)
    &&& vv_le(c0, new.writer@)
    &&& vv_le(new.writer@, c)
}

/// The thread's causality grew from `c0` to `c`, and its own slot `a` moved forward (unless
/// it had reached the top of `u64`).
pub open spec fn advanced_own_clock(c0: Seq<u64>, c: Seq<u64>, a: int) -> bool {
    &&& vv_le(c0, c)
    &&& c0[a] < u64::MAX ==> c[a] > c0[a]
}

impl StoreRecord {
    pub open spec fn wf(&self, max_threads: nat) -> bool {
        &&& self.sync.wf(max_threads)
        &&& self.first_seen.0@.len() == max_threads
        &&& self.writer@.len() == max_threads
    }
}

impl AtomicState {
    pub open spec fn wf(&self, max_threads: nat) -> bool {
        &&& self.stores@.len() >= 1
        &&& forall|i: int| 0 <= i < self.stores@.len() ==> (#[trigger] self.stores@[i]).wf(max_threads)
    }

    /// A new atomic, holding its initial store, made by the active thread.
    pub fn new(threads: &ThreadSet) -> (r: AtomicState)
        requires
            threads.has_active(),
        ensures
            r.wf(threads.max_threads as nat),
            r.last_access is None,
            r.stores@.len() == 1,
            r.stores@[0].sync.happens_before@ == Seq::new(threads.max_threads as nat, |i: int| 0u64),
            r.stores@[0].first_seen.0@ == touched(
                Seq::new(threads.max_threads as nat, |i: int| None::<u64>),
                threads.active_index(),
                threads.active_thread().causality@[threads.active_index()],
            ),
            !r.stores@[0].seq_cst,
            r.stores@[0].writer@ == threads.active_thread().causality@,
    {
        let mut stores: Vec<StoreRecord> = Vec::new();
        let a = threads.active.unwrap();
        stores.push(
            StoreRecord {
                sync: Synchronize::new(threads.max()),
                first_seen: FirstSeen::new(threads),
                seq_cst: false,
                writer: threads.threads[a].causality.snapshot(),
            },
        );
        AtomicState { last_access: None, stores }
    }

    pub fn last_dependent_access(&self) -> (r: &Option<Access>)
        ensures
            *r == self.last_access,
    {
        &self.last_access
    }

    pub fn set_last_access(&mut self, path_id: usize, version: &VersionVec)
        ensures
            final(self).stores == old(self).stores,
            final(self).last_access is Some,
            final(self).last_access->Some_0.path_id == path_id,
            final(self).last_access->Some_0.dpor_vv@ == version@,
    {
        Access::set_or_create(&mut self.last_access, path_id, version);
    }

    /// The stores that a load by the active thread with `order` may read, newest first.
    pub fn candidates(&self, threads: &ThreadSet, order: Ordering) -> (r: Vec<usize>)
        requires
            threads.has_active(),
            self.wf(threads.max_threads as nat),
        ensures
            r@ == load_candidates(self.stores@, threads.active_thread(), order),
            self.stores@.len() <= usize::MAX,
    {
        let ghost th = threads.active_thread();
        let ghost all = load_candidates(self.stores@, th, order);
        let n = self.stores.len();
        let sc = is_seq_cst(order);
        let mut out: Vec<usize> = Vec::new();
        let mut k: usize = n;
        while k > 0
            invariant
                threads.has_active(),
                th == threads.active_thread(),
                n == self.stores@.len(),
                k <= n,
                self.wf(threads.max_threads as nat),
                all == walk(self.stores@, n as int, th, order),
                sc == (order == Ordering::SeqCst),
                out@ + walk(self.stores@, k as int, th, order) == all,
            decreases k,
        {
            let i = k - 1;
            let rec = &self.stores[i];
            assert(*rec == self.stores@[i as int]);
            if rec.first_seen.is_seen_before_yield(threads) {
                if k == n {
                    assert(walk(self.stores@, k as int, th, order) == seq![i]);
                    out.push(i);
                } else {
                    assert(walk(self.stores@, k as int, th, order) == Seq::<usize>::empty());
                }
                assert(out@ =~= all);
                return out;
            }
            let seen = rec.first_seen.is_seen_by_current(threads);
            assert(seen == seen_by(self.stores@[i as int].first_seen.0@, th.causality@));
            assert(sc == (order == Ordering::SeqCst));
            assert(rec.seq_cst == self.stores@[i as int].seq_cst);
            if seen || (sc && rec.seq_cst) {
                assert(ordered_before(self.stores@[i as int], th, order));
                assert(walk(self.stores@, k as int, th, order) == seq![i]);
                out.push(i);
                assert(out@ =~= all);
                return out;
            }
            assert(walk(self.stores@, k as int, th, order) == seq![i] + walk(
                self.stores@,
                i as int,
                th,
                order,
            ));
            out.push(i);
            assert(out@ + walk(self.stores@, i as int, th, order) =~= all);
            k = i;
        }
        assert(out@ =~= all);
        out
    }

    /// Records that the active thread read store `index`, and applies the load's ordering.
    pub fn observe(&mut self, index: usize, threads: &mut ThreadSet, order: Ordering)
        requires
            old(threads).has_active(),
            old(self).wf(old(threads).max_threads as nat),
            index < old(self).stores@.len(),
        ensures
            final(threads).has_active(),
            final(self).wf(final(threads).max_threads as nat),
            final(self).last_access == old(self).last_access,
            final(self).stores@.len() == old(self).stores@.len(),
            forall|j: int|
                0 <= j < old(self).stores@.len() && j != index ==> final(self).stores@[j]
                    == old(self).stores@[j],
            final(self).stores@[index as int].sync == old(self).stores@[index as int].sync,
            final(self).stores@[index as int].seq_cst == old(self).stores@[index as int].seq_cst,
            final(self).stores@[index as int].first_seen.0@ == touched(
                old(self).stores@[index as int].first_seen.0@,
                old(threads).active_index(),
                old(threads).active_thread().causality@[old(threads).active_index()],
            ),
            ThreadSet::same_table_but(*old(threads), *final(threads), old(threads).active_index()),
            same_but_clocks(final(threads).active_thread(), old(threads).active_thread()),
            final(threads).active_thread().dpor_vv == old(threads).active_thread().dpor_vv,
            seq_cst_effect(
                *old(threads),
                *final(threads),
                after_acquire(
                    old(threads).active_thread().causality@,
                    old(self).stores@[index as int].sync.happens_before@,
                    order,
                ),
                order,
            ),
            vv_le(old(threads).seq_cst_causality@, final(threads).seq_cst_causality@),
    {
        self.stores[index].first_seen.touch(threads);
        self.stores[index].sync.sync_load(threads, order);
    }

    /// A store by the active thread with `order`: a new entry at the end of the history.
    pub fn store(&mut self, threads: &mut ThreadSet, order: Ordering)
        requires
            old(threads).has_active(),
            old(self).wf(old(threads).max_threads as nat),
        ensures
            final(threads).has_active(),
            final(self).wf(final(threads).max_threads as nat),
            final(self).last_access == old(self).last_access,
            final(self).stores@.len() == old(self).stores@.len() + 1,
            final(self).stores@.drop_last() == old(self).stores@,
            final(self).stores@.last().seq_cst == (order == Ordering::SeqCst),
            final(self).stores@.last().sync.happens_before@ == if releases(order) {
                old(threads).active_thread().causality@
            } else {
                Seq::new(old(threads).max_threads as nat, |i: int| 0u64)
            },
            final(self).stores@.last().first_seen.0@ == touched(
                Seq::new(old(threads).max_threads as nat, |i: int| None::<u64>),
                old(threads).active_index(),
                old(threads).active_thread().causality@[old(threads).active_index()],
            ),
            final(self).stores@.last().writer@ == old(threads).active_thread().causality@,
            ThreadSet::same_table_but(*old(threads), *final(threads), old(threads).active_index()),
            same_but_clocks(final(threads).active_thread(), old(threads).active_thread()),
            final(threads).active_thread().dpor_vv == old(threads).active_thread().dpor_vv,
            seq_cst_effect(
                *old(threads),
                *final(threads),
                old(threads).active_thread().causality@,
                order,
            ),
            vv_le(old(threads).seq_cst_causality@, final(threads).seq_cst_causality@),
    {
        let a = threads.active.unwrap();
        let mut rec = StoreRecord {
            sync: Synchronize::new(threads.max()),
            first_seen: FirstSeen::new(threads),
            seq_cst: is_seq_cst(order),
            writer: threads.threads[a].causality.snapshot(),
        };
        rec.sync.sync_store(threads, order);
        proof {
            let c = old(threads).active_thread().causality@;
            if releases(order) {
                assert(vv_join(Seq::new(old(threads).max_threads as nat, |i: int| 0u64), c) =~= c);
            }
        }
        self.stores.push(rec);
        assert(self.stores@.drop_last() =~= old(self).stores@);
    }

    /// A read-modify-write by the active thread. It always reads the newest store; `f`
    /// is given that store's index and decides whether the write happens. On failure the
    /// `failure` ordering applies and nothing is written; on success the `success`
    /// ordering applies and a new store is appended that carries on the causality of the
    /// one it read (a release sequence).
    pub fn rmw<F, E>(
        &mut self,
        f: F,
        threads: &mut ThreadSet,
        success: Ordering,
        failure: Ordering,
    ) -> (r: Result<usize, E>)
        where
            F: FnOnce(usize) -> Result<(), E>,
        requires
            old(threads).has_active(),
            old(self).wf(old(threads).max_threads as nat),
            f.requires(((old(self).stores@.len() - 1) as usize,)),
        ensures
            final(threads).has_active(),
            final(self).wf(final(threads).max_threads as nat),
            final(self).last_access == old(self).last_access,
            r is Ok ==> f.ensures(((old(self).stores@.len() - 1) as usize,), Ok::<(), E>(())),
            r is Err ==> f.ensures(((old(self).stores@.len() - 1) as usize,), Err::<(), E>(r->Err_0)),
            r is Ok ==> r->Ok_0 == old(self).stores@.len() - 1,
            r is Ok ==> final(self).stores@.len() == old(self).stores@.len() + 1,
            r is Ok ==> final(self).stores@.last().seq_cst == (success == Ordering::SeqCst),
            r is Err ==> final(self).stores@.len() == old(self).stores@.len(),
            forall|j: int|
                0 <= j < old(self).stores@.len() - 1 ==> final(self).stores@[j] == old(self).stores@[j],
            read_store_kept(old(self).stores@.last(), final(self).stores@[old(self).stores@.len() - 1]),
            r is Err ==> seq_cst_effect(
                *old(threads),
                *final(threads),
                after_acquire(
                    old(threads).active_thread().causality@,
                    old(self).stores@.last().sync.happens_before@,
                    failure,
                ),
                failure,
            ),
            r is Ok ==> rmw_write(
                old(self).stores@.last().sync.happens_before@,
                old(threads).active_thread().causality@,
                final(threads).active_thread().causality@,
                success,
                final(self).stores@.last(),
            ),
            ThreadSet::same_table_but(*old(threads), *final(threads), old(threads).active_index()),
            same_but_clocks(final(threads).active_thread(), old(threads).active_thread()),
            final(threads).active_thread().dpor_vv == old(threads).active_thread().dpor_vv,
            vv_le(old(threads).seq_cst_causality@, final(threads).seq_cst_causality@),
    {
        let index = self.stores.len() - 1;
        self.stores[index].first_seen.touch(threads);
        let res = f(index);
        match res {
            Err(e) => {
                self.stores[index].sync.sync_load(threads, failure);
                Err(e)
            },
            Ok(u) => {
                assert(u == ());
                assert(res == Ok::<(), E>(()));
                self.stores[index].sync.sync_load(threads, success);
                let ghost c1 = threads.active_thread().causality@;
                let a = threads.active.unwrap();
                let mut rec = StoreRecord {
                    sync: self.stores[index].sync.clone_sync(),
                    first_seen: FirstSeen::new(threads),
                    seq_cst: is_seq_cst(success),
                    writer: threads.threads[a].causality.snapshot(),
                };
                rec.sync.sync_store(threads, success);
                self.stores.push(rec);
                proof {
                    let c0 = old(threads).active_thread().causality@;
                    let hb = old(self).stores@.last().sync.happens_before@;
                    let sc0 = old(threads).seq_cst_causality@;
                    let ca = after_acquire(c0, hb, success);
                    lemma_join_least_upper_bound(c0, hb, c0);
                    lemma_join_least_upper_bound(ca, sc0, ca);
                    lemma_join_least_upper_bound(hb, c1, hb);
                    lemma_join_least_upper_bound(c1, threads.seq_cst_causality@, c1);
                    assert(vv_le(c0, ca));
                    assert(vv_le(ca, c1));
                    lemma_le_transitive(c0, ca, c1);
                    let mid_sc = if success == Ordering::SeqCst { vv_join(ca, sc0) } else { sc0 };
                    lemma_join_least_upper_bound(c1, mid_sc, c1);
                    assert(vv_le(c1, threads.active_thread().causality@));
                    if releases(success) {
                        lemma_le_transitive(c0, c1, vv_join(hb, c1));
                    }
                    lemma_join_least_upper_bound(sc0, ca, sc0);
                    crate::vv::lemma_le_transitive(
                        old(threads).seq_cst_causality@,
                        mid_sc,
                        threads.seq_cst_causality@,
                    );
                }
                Ok(index)
            },
        }
    }

    /// True when every store of the history, whatever its ordering, happens before a
    /// thread whose causality is `vv`: only then may the location be accessed without
    /// synchronization.
    pub fn happens_before(&self, vv: &VersionVec) -> (r: bool)
        ensures
            r == forall|i: int|
                0 <= i < self.stores@.len() ==> vv_le((#[trigger] self.stores@[i]).writer@, vv@),
    {
        let n = self.stores.len();
        let mut k: usize = 0;
        while k < n
            invariant
                n == self.stores@.len(),
                k <= n,
                forall|i: int| 0 <= i < k ==> vv_le((#[trigger] self.stores@[i]).writer@, vv@),
            decreases n - k,
        {
            if !self.stores[k].writer.le(vv) {
                return false;
            }
            k = k + 1;
        }
        true
    }
}

impl FirstSeen {
    /// Nobody has seen the store but the active thread, which sees it now.
    pub fn new(threads: &ThreadSet) -> (r: FirstSeen)
        requires
            threads.has_active(),
        ensures
            r.0@ == touched(
                Seq::new(threads.max_threads as nat, |i: int| None::<u64>),
                threads.active_index(),
                threads.active_thread().causality@[threads.active_index()],
            ),
    {
        let n = threads.max();
        let mut seen: Vec<Option<u64>> = Vec::with_capacity(n);
        let mut k: usize = 0;
        while k < n
            invariant
                k <= n,
                seen@ == Seq::new(k as nat, |i: int| None::<u64>),
            decreases n - k,
        {
            seen.push(None);
            k = k + 1;
            assert(seen@ =~= Seq::new(k as nat, |i: int| None::<u64>));
        }
        let mut first_seen = FirstSeen(seen);
        first_seen.touch(threads);
        first_seen
    }

    /// The active thread sees the store; the first time, its own clock is recorded.
    pub fn touch(&mut self, threads: &ThreadSet)
        requires
            threads.has_active(),
            old(self).0@.len() == threads.max_threads,
        ensures
            final(self).0@ == touched(
                old(self).0@,
                threads.active_index(),
                threads.active_thread().causality@[threads.active_index()],
            ),
    {
        let a = threads.active.unwrap();
        if self.0[a].is_none() {
            let v = threads.active_atomic_version();
            self.0.set(a, Some(v));
        }
    }

    /// True when the active thread's causality covers the store.
    pub fn is_seen_by_current(&self, threads: &ThreadSet) -> (r: bool)
        requires
            threads.has_active(),
        ensures
            r == seen_by(self.0@, threads.active_thread().causality@),
    {
        let a = threads.active.unwrap();
        let c = &threads.threads[a].causality;
        let n = c.len();
        let mut t: usize = 0;
        while t < n
            invariant
                n == c@.len(),
                *c == threads.active_thread().causality,
                threads.has_active(),
                t <= n,
                forall|j: int|
                    0 <= j < t && j < self.0@.len() ==> !((#[trigger] self.0@[j]) is Some
                        && self.0@[j]->Some_0 <= c@[j]),
            decreases n - t,
        {
            if t < self.0.len() {
                match self.0[t] {
                    Some(v) => {
                        if v <= c.get(t) {
                            return true;
                        }
                    },
                    None => {},
                }
            }
            t = t + 1;
        }
        false
    }

    /// True when the active thread saw the store itself, no later than its last yield.
    pub fn is_seen_before_yield(&self, threads: &ThreadSet) -> (r: bool)
        requires
            threads.has_active(),
        ensures
            r == seen_before_yield(self.0@, threads.active_thread()),
    {
        let th = threads.active();
        let last_yield = match th.last_yield {
            Some(v) => v,
            None => return false,
        };
        if th.id >= self.0.len() {
            return false;
        }
        match self.0[th.id] {
            None => false,
            Some(v) => v <= last_yield,
        }
    }
}

/// A store that ends the walk of a load by `th` with `order`.
pub open spec fn stops_walk(rec: StoreRecord, th: Thread, order: Ordering) -> bool {
    seen_before_yield(rec.first_seen.0@, th) || ordered_before(rec, th, order)
}

/// Store `i` may be read by a load by `th` with `order`: no newer store is ordered before
/// the load or was seen by the loader before it last yielded, and `i` itself, when the
/// loader saw it before its last yield, is the newest store.
pub open spec fn admissible(stores: Seq<StoreRecord>, i: int, th: Thread, order: Ordering) -> bool {
    &&& 0 <= i < stores.len()
    &&& forall|m: int| i < m < stores.len() ==> !stops_walk(#[trigger] stores[m], th, order)
    &&& seen_before_yield(stores[i].first_seen.0@, th) ==> i == stores.len() - 1
}

proof fn lemma_walk_contains(stores: Seq<StoreRecord>, k: int, th: Thread, order: Ordering, i: usize)
    requires
        0 <= k <= stores.len(),
        stores.len() <= usize::MAX,
    ensures
        walk(stores, k, th, order).contains(i) <==> {
            &&& i < k
            &&& forall|m: int| i < m < k ==> !stops_walk(#[trigger] stores[m], th, order)
            &&& seen_before_yield(stores[i as int].first_seen.0@, th) ==> i == stores.len() - 1
        },
    decreases k,
{
    let w = walk(stores, k, th, order);
    if k == 0 {
        assert(!w.contains(i));
    } else {
        let j = k - 1;
        if seen_before_yield(stores[j].first_seen.0@, th) {
            if k == stores.len() {
                if w.contains(i) {
                    let x = choose|x: int| 0 <= x < w.len() && w[x] == i;
                    assert(w[x] == j as usize);
                }
                if i == j {
                    assert(w[0] == j as usize);
                }
                if i < j {
                    assert(stops_walk(stores[j], th, order));
                }
            } else {
                assert(!w.contains(i));
                if i < j {
                    assert(stops_walk(stores[j], th, order));
                }
            }
        } else if ordered_before(stores[j], th, order) {
            if w.contains(i) {
                let x = choose|x: int| 0 <= x < w.len() && w[x] == i;
                assert(w[x] == j as usize);
            }
            if i == j {
                assert(w[0] == j as usize);
            }
            if i < j {
                assert(stops_walk(stores[j], th, order));
            }
        } else {
            lemma_walk_contains(stores, j, th, order, i);
            let rest = walk(stores, j, th, order);
            assert(w == seq![j as usize] + rest);
            if w.contains(i) {
                let x = choose|x: int| 0 <= x < w.len() && w[x] == i;
                if x > 0 {
                    assert(rest[x - 1] == i);
                    assert(rest.contains(i));
                }
            }
            if i == j {
                assert(w[0] == j as usize);
            } else if i < j && rest.contains(i) {
                let x = choose|x: int| 0 <= x < rest.len() && rest[x] == i;
                assert(w[x + 1] == i);
            }
        }
    }
}

/// The values a load may observe are exactly the admissible stores: it never reads a
/// store hidden by a newer one already in its causality, and it may read every store that
/// no such store hides. The newest store is always among them, and comes first.
pub proof fn lemma_load_candidates_exact(stores: Seq<StoreRecord>, th: Thread, order: Ordering)
    requires
        stores.len() >= 1,
        stores.len() <= usize::MAX,
    ensures
        forall|i: usize|
            #![trigger load_candidates(stores, th, order).contains(i)]
            load_candidates(stores, th, order).contains(i) <==> admissible(
                stores,
                i as int,
                th,
                order,
            ),
        load_candidates(stores, th, order).len() >= 1,
        load_candidates(stores, th, order)[0] == stores.len() - 1,
{
    assert forall|i: usize|
        #![trigger load_candidates(stores, th, order).contains(i)]
        load_candidates(stores, th, order).contains(i) <==> admissible(
            stores,
            i as int,
            th,
            order,
        ) by {
        lemma_walk_contains(stores, stores.len() as int, th, order, i);
    }
}

/// A modeled atomic location: a reference to its state in the object store.
pub struct Atomic {
    pub obj: Ref<AtomicState>,
}

impl Clone for Atomic {
    fn clone(&self) -> (r: Atomic)
        ensures
            r.obj.index == self.obj.index,
    {
        Atomic { obj: Ref { index: self.obj.index, kind: PhantomData } }
    }
}

impl Copy for Atomic {

}

/// The atomic state that `a` refers to in `e`.
pub open spec fn state_of(e: Execution, a: Atomic) -> AtomicState {
    e.objects.entries@[a.obj.index as int]->Atomic_0
}

impl Atomic {
    /// `a` refers to an atomic of `e`.
    pub open spec fn valid(&self, e: Execution) -> bool {
        &&& self.obj.index < e.objects.entries@.len()
        &&& e.objects.entries@[self.obj.index as int] is Atomic
    }

    /// True when this refers to an atomic of `e`.
    pub fn is_valid(&self, e: &Execution) -> (r: bool)
        ensures
            r == self.valid(*e),
    {
        self.obj.index < e.objects.entries.len() && match &e.objects.entries[self.obj.index] {
            Entry::Atomic(_) => true,
            _ => false,
        }
    }

    /// A new atomic, initialized by the active thread with a first store at index 0.
    pub fn new(e: &mut Execution) -> (r: Atomic)
        requires
            old(e).wf(),
            old(e).threads.active is Some,
        ensures
            final(e).wf(),
            r.valid(*final(e)),
            r.obj.index == old(e).objects.entries@.len(),
            final(e).objects.entries@.len() == old(e).objects.entries@.len() + 1,
            final(e).objects.entries@.drop_last() == old(e).objects.entries@,
            state_of(*final(e), r).stores@.len() == 1,
            state_of(*final(e), r).last_access is None,
            !state_of(*final(e), r).stores@[0].seq_cst,
            state_of(*final(e), r).stores@[0].sync.happens_before@ == Seq::new(
                old(e).max_threads as nat,
                |i: int| 0u64,
            ),
            state_of(*final(e), r).stores@[0].first_seen.0@ == touched(
                Seq::new(old(e).max_threads as nat, |i: int| None::<u64>),
                old(e).threads.active_index(),
                old(e).threads.active_thread().causality@[old(e).threads.active_index()],
            ),
            state_of(*final(e), r).stores@[0].writer@ == old(e).threads.active_thread().causality@,
            final(e).threads == old(e).threads,
            final(e).path == old(e).path,
    {
        let state = AtomicState::new(&e.threads);
        let obj = e.objects.insert_atomic(state);
        proof {
            assert(final(e).objects.entries@.drop_last() =~= old(e).objects.entries@) by {
                assert(e.objects.entries@.drop_last() =~= old(e).objects.entries@);
            }
            assert forall|t: int|
                0 <= t < e.threads.threads@.len() && (
                #[trigger] e.threads.threads@[t]).operation is Some implies {
                &&& e.threads.threads@[t].operation->Some_0.obj < e.objects.entries@.len()
                &&& crate::object::branchable(
                    e.objects.entries@[e.threads.threads@[t].operation->Some_0.obj as int],
                )
            } by {
                let o = e.threads.threads@[t].operation->Some_0.obj as int;
                assert(e.objects.entries@[o] == old(e).objects.entries@[o]);
            }
            assert(objects_wf(e.objects.entries@, e.max_threads as nat)) by {
                assert forall|i: int| 0 <= i < e.objects.entries@.len() - 1 implies #[trigger] e.objects.entries@[i] == old(e).objects.entries@[i] by {}
            }
        }
        Atomic { obj }
    }

    /// A scheduling point before an operation on this atomic: the active thread is about
    /// to perform `action`. True when another thread was chosen to run first.
    pub fn branch(self, e: &mut Execution, action: AtomicAction) -> (r: Result<bool, Failure>)
        requires
            old(e).wf(),
            old(e).threads.active is Some,
            self.valid(*old(e)),
        ensures
            final(e).wf(),
            self.valid(*final(e)),
            final(e).threads.threads@.len() == old(e).threads.threads@.len(),
            final(e).objects.entries@.len() == old(e).objects.entries@.len(),
            state_of(*final(e), self).stores == state_of(*old(e), self).stores,
            r is Ok ==> r->Ok_0 == (final(e).threads.active != old(e).threads.active),
    {
        crate::rt::branch_action(e, self.obj.erase(), Action::Atomic(action))
    }

    /// A load by the active thread with `order`: the path picks the store it reads among
    /// `load_candidates`, newest first, and the load synchronizes with that store as
    /// `order` asks. Returns the index of the store read.
    pub fn load(self, e: &mut Execution, order: Ordering) -> (r: Result<usize, Failure>)
        requires
            old(e).wf(),
            old(e).threads.active is Some,
            self.valid(*old(e)),
        ensures
            final(e).wf(),
            self.valid(*final(e)),
            final(e).threads.active == old(e).threads.active,
            final(e).threads.threads@.len() == old(e).threads.threads@.len(),
            final(e).objects.entries@.len() == old(e).objects.entries@.len(),
            state_of(*final(e), self).stores@.len() == state_of(*old(e), self).stores@.len(),
            r is Ok ==> load_candidates(
                state_of(*old(e), self).stores@,
                old(e).threads.active_thread(),
                order,
            ).contains(r->Ok_0),
            r is Ok ==> vv_le(
                after_acquire(
                    old(e).threads.active_thread().causality@,
                    state_of(*old(e), self).stores@[r->Ok_0 as int].sync.happens_before@,
                    order,
                ),
                final(e).threads.active_thread().causality@,
            ),
            r is Ok ==> advanced_own_clock(
                old(e).threads.active_thread().causality@,
                final(e).threads.active_thread().causality@,
                old(e).threads.active_index(),
            ),
            vv_le(old(e).threads.seq_cst_causality@, final(e).threads.seq_cst_causality@),
            old(e).path.pos == old(e).path.branches@.len() && old(e).path.branches@.len() < old(
                e,
            ).path.max_branches ==> r == Ok::<usize, Failure>(
                (state_of(*old(e), self).stores@.len() - 1) as usize,
            ),
    {
        let i = self.obj.index;
        let cands = match &e.objects.entries[i] {
            Entry::Atomic(s) => s.candidates(&e.threads, order),
            _ => Vec::new(),
        };
        proof {
            let st = state_of(*old(e), self);
            assert(old(e).objects.entries@[i as int] is Atomic);
            assert(st.wf(old(e).max_threads as nat));
            lemma_load_candidates_exact(st.stores@, old(e).threads.active_thread(), order);
        }
        let index = match e.path.branch_write(cands) {
            Ok(index) => index,
            Err(f) => return Err(f),
        };
        let ghost mid = *e;
        match &mut e.objects.entries[i] {
            Entry::Atomic(s) => {
                s.observe(index, &mut e.threads, order);
            },
            _ => {},
        }
        let ghost c1 = e.threads.active_thread().causality@;
        e.threads.active_causality_inc();
        proof {
            let a = old(e).threads.active_index();
            let c0 = old(e).threads.active_thread().causality@;
            let hb = state_of(*old(e), self).stores@[index as int].sync.happens_before@;
            let ca = after_acquire(c0, hb, order);
            lemma_join_least_upper_bound(c0, hb, c0);
            lemma_join_least_upper_bound(ca, old(e).threads.seq_cst_causality@, ca);
            assert(vv_le(ca, c1));
            assert(vv_le(c1, vv_inc(c1, a)));
            lemma_le_transitive(ca, c1, vv_inc(c1, a));
            lemma_le_transitive(c0, ca, c1);
            lemma_le_transitive(c0, c1, vv_inc(c1, a));
            lemma_execution_entry_updated(mid, *e, i as int);
        }
        Ok(index)
    }

    /// A store by the active thread with `order`: one new entry at the end of the history.
    pub fn store(self, e: &mut Execution, order: Ordering)
        requires
            old(e).wf(),
            old(e).threads.active is Some,
            self.valid(*old(e)),
        ensures
            final(e).wf(),
            self.valid(*final(e)),
            final(e).threads.active == old(e).threads.active,
            final(e).threads.threads@.len() == old(e).threads.threads@.len(),
            final(e).objects.entries@.len() == old(e).objects.entries@.len(),
            final(e).path == old(e).path,
            state_of(*final(e), self).stores@.len() == state_of(*old(e), self).stores@.len() + 1,
            state_of(*final(e), self).stores@.drop_last() == state_of(*old(e), self).stores@,
            state_of(*final(e), self).stores@.last().seq_cst == (order == Ordering::SeqCst),
            state_of(*final(e), self).stores@.last().sync.happens_before@ == if releases(order) {
                old(e).threads.active_thread().causality@
            } else {
                Seq::new(old(e).max_threads as nat, |i: int| 0u64)
            },
            state_of(*final(e), self).stores@.last().writer@ == old(
                e,
            ).threads.active_thread().causality@,
            advanced_own_clock(
                old(e).threads.active_thread().causality@,
                final(e).threads.active_thread().causality@,
                old(e).threads.active_index(),
            ),
            vv_le(old(e).threads.seq_cst_causality@, final(e).threads.seq_cst_causality@),
    {
        let i = self.obj.index;
        let ghost mid = *e;
        match &mut e.objects.entries[i] {
            Entry::Atomic(s) => {
                s.store(&mut e.threads, order);
            },
            _ => {},
        }
        let ghost c1 = e.threads.active_thread().causality@;
        e.threads.active_causality_inc();
        proof {
            let a = old(e).threads.active_index();
            let c0 = old(e).threads.active_thread().causality@;
            lemma_join_least_upper_bound(c0, old(e).threads.seq_cst_causality@, c0);
            assert(vv_le(c0, c1));
            assert(vv_le(c1, vv_inc(c1, a)));
            lemma_le_transitive(c0, c1, vv_inc(c1, a));
            lemma_execution_entry_updated(mid, *e, i as int);
        }
    }

    /// A read-modify-write by the active thread. It reads the newest store, whose index
    /// `f` is given; `f` decides whether the write happens. On failure (`f`'s error is
    /// returned) nothing is appended and `failure` orders the read; on success exactly one
    /// store is appended, which carries on the causality of the store read, and `success`
    /// orders both the read and the write.
    pub fn rmw<F, E>(self, e: &mut Execution, f: F, success: Ordering, failure: Ordering) -> (r:
        Result<usize, E>)
        where
            F: FnOnce(usize) -> Result<(), E>,
        requires
            old(e).wf(),
            old(e).threads.active is Some,
            self.valid(*old(e)),
            f.requires(((state_of(*old(e), self).stores@.len() - 1) as usize,)),
        ensures
            final(e).wf(),
            self.valid(*final(e)),
            final(e).threads.active == old(e).threads.active,
            final(e).path == old(e).path,
            r is Ok ==> r->Ok_0 == state_of(*old(e), self).stores@.len() - 1,
            r is Ok ==> f.ensures(
                ((state_of(*old(e), self).stores@.len() - 1) as usize,),
                Ok::<(), E>(()),
            ),
            r is Err ==> f.ensures(
                ((state_of(*old(e), self).stores@.len() - 1) as usize,),
                Err::<(), E>(r->Err_0),
            ),
            r is Ok ==> state_of(*final(e), self).stores@.len() == state_of(*old(e), self).stores@.len()
                + 1,
            r is Ok ==> state_of(*final(e), self).stores@.last().seq_cst == (success
                == Ordering::SeqCst),
            r is Err ==> state_of(*final(e), self).stores@.len() == state_of(
                *old(e),
                self,
            ).stores@.len(),
            read_store_kept(
                state_of(*old(e), self).stores@.last(),
                state_of(*final(e), self).stores@[state_of(*old(e), self).stores@.len() - 1],
            ),
            r is Err ==> vv_le(
                after_acquire(
                    old(e).threads.active_thread().causality@,
                    state_of(*old(e), self).stores@.last().sync.happens_before@,
                    failure,
                ),
                final(e).threads.active_thread().causality@,
            ),
            r is Err && failure == Ordering::Relaxed ==> final(e).threads.active_thread().causality@
                == vv_inc(old(e).threads.active_thread().causality@, old(e).threads.active_index())
                && final(e).threads.seq_cst_causality == old(e).threads.seq_cst_causality,
            r is Ok ==> rmw_appended(
                state_of(*old(e), self).stores@.last().sync.happens_before@,
                old(e).threads.active_thread().causality@,
                final(e).threads.active_thread().causality@,
                success,
                state_of(*final(e), self).stores@.last(),
            ),
            advanced_own_clock(
                old(e).threads.active_thread().causality@,
                final(e).threads.active_thread().causality@,
                old(e).threads.active_index(),
            ),
            vv_le(old(e).threads.seq_cst_causality@, final(e).threads.seq_cst_causality@),
    {
        let i = self.obj.index;
        let ghost mid = *e;
        let r = match &mut e.objects.entries[i] {
            Entry::Atomic(s) => s.rmw(f, &mut e.threads, success, failure),
            _ => {
                assert(false);
                match f(0) {
                    Ok(()) => Ok(0),
                    Err(err) => Err(err),
                }
            },
        };
        let ghost cm = e.threads.active_thread().causality@;
        e.threads.active_causality_inc();
        proof {
            lemma_execution_entry_updated(mid, *e, i as int);
            let a = old(e).threads.active_index();
            let c0 = old(e).threads.active_thread().causality@;
            let cf = e.threads.active_thread().causality@;
            let hb = state_of(*old(e), self).stores@.last().sync.happens_before@;
            assert(vv_le(cm, cf));
            if r is Ok {
                let ca = after_acquire(c0, hb, success);
                let w = state_of(*e, self).stores@.last().writer@;
                lemma_le_transitive(ca, cm, cf);
                lemma_le_transitive(w, cm, cf);
                lemma_le_transitive(c0, w, cm);
                assert(vv_le(c0, cm));
            } else {
                let ca = after_acquire(c0, hb, failure);
                lemma_join_least_upper_bound(c0, hb, c0);
                lemma_join_least_upper_bound(ca, mid.threads.seq_cst_causality@, ca);
                lemma_le_transitive(ca, cm, cf);
                lemma_le_transitive(c0, ca, cm);
            }
            lemma_le_transitive(c0, cm, cf);
        }
        r
    }

    /// Checks that every store of this atomic, whatever its ordering, happens before the
    /// active thread, which may then access it without synchronization; fails with
    /// `UnsyncAccess` when some store is concurrent with it.
    pub fn get_mut(self, e: &Execution) -> (r: Result<(), Failure>)
        requires
            e.wf(),
            e.threads.active is Some,
            self.valid(*e),
        ensures
            r is Ok <==> forall|i: int|
                0 <= i < state_of(*e, self).stores@.len() ==> vv_le(
                    (#[trigger] state_of(*e, self).stores@[i]).writer@,
                    e.threads.active_thread().causality@,
                ),
            r is Err ==> r == Err::<(), Failure>(Failure::UnsyncAccess),
    {
        let ok = match &e.objects.entries[self.obj.index] {
            Entry::Atomic(s) => s.happens_before(&e.threads.active().causality),
            _ => false,
        };
        if ok {
            Ok(())
        } else {
            Err(Failure::UnsyncAccess)
        }
    }
}

/// An acquire fence by the active thread: it synchronizes with every store, of every
/// atomic, that the thread has already seen. Other orderings fail with `UnsupportedFence`.
pub fn fence(e: &mut Execution, order: Ordering) -> (r: Result<(), Failure>)
    requires
        old(e).wf(),
        old(e).threads.active is Some,
    ensures
        final(e).wf(),
        final(e).objects == old(e).objects,
        final(e).path == old(e).path,
        final(e).threads.active == old(e).threads.active,
        ThreadSet::same_table_but(old(e).threads, final(e).threads, old(e).threads.active_index()),
        r is Ok <==> order == Ordering::Acquire,
        r is Err ==> r == Err::<(), Failure>(Failure::UnsupportedFence) && *final(e) == *old(e),
        vv_le(
            old(e).threads.active_thread().causality@,
            final(e).threads.active_thread().causality@,
        ),
        r is Ok ==> forall|i: int, j: int|
            0 <= i < old(e).objects.entries@.len() && old(e).objects.entries@[i] is Atomic && 0 <= j
                < old(e).objects.entries@[i]->Atomic_0.stores@.len() && seen_by(
                old(e).objects.entries@[i]->Atomic_0.stores@[j].first_seen.0@,
                old(e).threads.active_thread().causality@,
            ) ==> vv_le(
                #[trigger] old(e).objects.entries@[i]->Atomic_0.stores@[j].sync.happens_before@,
                final(e).threads.active_thread().causality@,
            ),
{
    if order != Ordering::Acquire {
        return Err(Failure::UnsupportedFence);
    }
    assert(order == Ordering::Acquire);
    let ghost c0 = e.threads.active_thread().causality@;
    let n = e.objects.entries.len();
    let mut i: usize = 0;
    while i < n
        invariant
            e.wf(),
            e.threads.active is Some,
            e.objects == old(e).objects,
            e.path == old(e).path,
            e.id == old(e).id,
            e.max_threads == old(e).max_threads,
            e.threads.active == old(e).threads.active,
            n == e.objects.entries@.len(),
            i <= n,
            c0 == old(e).threads.active_thread().causality@,
            order == Ordering::Acquire,
            ThreadSet::same_table_but(old(e).threads, e.threads, old(e).threads.active_index()),
            vv_le(c0, e.threads.active_thread().causality@),
            forall|x: int, j: int|
                0 <= x < i && e.objects.entries@[x] is Atomic && 0 <= j
                    < e.objects.entries@[x]->Atomic_0.stores@.len() && seen_by(
                    e.objects.entries@[x]->Atomic_0.stores@[j].first_seen.0@,
                    c0,
                ) ==> vv_le(
                    #[trigger] e.objects.entries@[x]->Atomic_0.stores@[j].sync.happens_before@,
                    e.threads.active_thread().causality@,
                ),
        decreases n - i,
    {
        if let Entry::Atomic(s) = &e.objects.entries[i] {
            let m = s.stores.len();
            let mut j: usize = 0;
            while j < m
                invariant
                    e.wf(),
                    e.threads.active is Some,
                    e.objects == old(e).objects,
                    e.path == old(e).path,
                    e.id == old(e).id,
                    e.max_threads == old(e).max_threads,
                    e.threads.active == old(e).threads.active,
                    n == e.objects.entries@.len(),
                    i < n,
                    e.objects.entries@[i as int] is Atomic,
                    *s == e.objects.entries@[i as int]->Atomic_0,
                    m == s.stores@.len(),
                    j <= m,
                    c0 == old(e).threads.active_thread().causality@,
                    order == Ordering::Acquire,
                    ThreadSet::same_table_but(old(e).threads, e.threads, old(e).threads.active_index()),
                    vv_le(c0, e.threads.active_thread().causality@),
                    forall|x: int, k: int|
                        0 <= x < i && e.objects.entries@[x] is Atomic && 0 <= k
                            < e.objects.entries@[x]->Atomic_0.stores@.len() && seen_by(
                            e.objects.entries@[x]->Atomic_0.stores@[k].first_seen.0@,
                            c0,
                        ) ==> vv_le(
                            #[trigger] e.objects.entries@[x]->Atomic_0.stores@[k].sync.happens_before@,
                            e.threads.active_thread().causality@,
                        ),
                    forall|k: int|
                        0 <= k < j && seen_by(s.stores@[k].first_seen.0@, c0) ==> vv_le(
                            #[trigger] s.stores@[k].sync.happens_before@,
                            e.threads.active_thread().causality@,
                        ),
                decreases m - j,
            {
                let ghost before = e.threads.active_thread().causality@;
                proof {
                    lemma_seen_by_monotone(s.stores@[j as int].first_seen.0@, c0, before);
                }
                if s.stores[j].first_seen.is_seen_by_current(&e.threads) {
                    proof {
                        assert(s.stores@[j as int].wf(e.max_threads as nat));
                    }
                    s.stores[j].sync.sync_load(&mut e.threads, order);
                    proof {
                        let after = e.threads.active_thread().causality@;
                        let hb = s.stores@[j as int].sync.happens_before@;
                        lemma_join_least_upper_bound(before, hb, before);
                        assert(after == vv_join(before, hb));
                        lemma_le_transitive(c0, before, after);
                        assert forall|x: int, k: int|
                            0 <= x < i && e.objects.entries@[x] is Atomic && 0 <= k
                                < e.objects.entries@[x]->Atomic_0.stores@.len() && seen_by(
                                e.objects.entries@[x]->Atomic_0.stores@[k].first_seen.0@,
                                c0,
                            ) implies vv_le(
                            #[trigger] e.objects.entries@[x]->Atomic_0.stores@[k].sync.happens_before@,
                            after,
                        ) by {
                            lemma_le_transitive(
                                e.objects.entries@[x]->Atomic_0.stores@[k].sync.happens_before@,
                                before,
                                after,
                            );
                        }
                        assert forall|k: int|
                            0 <= k <= j && seen_by(s.stores@[k].first_seen.0@, c0) implies vv_le(
                            #[trigger] s.stores@[k].sync.happens_before@,
                            after,
                        ) by {
                            if k < j {
                                lemma_le_transitive(s.stores@[k].sync.happens_before@, before, after);
                            }
                        }
                    }
                }
                j = j + 1;
            }
        }
        i = i + 1;
    }
    proof {
        let cf = e.threads.active_thread().causality@;
        assert forall|x: int, j: int|
            0 <= x < old(e).objects.entries@.len() && old(e).objects.entries@[x] is Atomic && 0 <= j
                < old(e).objects.entries@[x]->Atomic_0.stores@.len() && seen_by(
                old(e).objects.entries@[x]->Atomic_0.stores@[j].first_seen.0@,
                old(e).threads.active_thread().causality@,
            ) implies vv_le(
            #[trigger] old(e).objects.entries@[x]->Atomic_0.stores@[j].sync.happens_before@,
            cf,
        ) by {
            assert(e.objects.entries@[x] == old(e).objects.entries@[x]);
        }
    }
    Ok(())
}

/// A store seen by a causality stays seen as that causality grows.
proof fn lemma_seen_by_monotone(first_seen: Seq<Option<u64>>, a: Seq<u64>, b: Seq<u64>)
    requires
        vv_le(a, b),
    ensures
        seen_by(first_seen, a) ==> seen_by(first_seen, b),
{
    if seen_by(first_seen, a) {
        let t = choose|t: int|
            0 <= t < first_seen.len() && t < a.len() && (#[trigger] first_seen[t]) is Some
                && first_seen[t]->Some_0 <= a[t];
        assert(b[t] >= a[t]);
    }
}

/// After the entry at `i` changed into another well-formed atomic with the same last
/// access, and the threads changed only in their clocks, the execution is well formed.
proof fn lemma_execution_entry_updated(old: Execution, new: Execution, i: int)
    requires
        old.wf(),
        0 <= i < old.objects.entries@.len(),
        old.objects.entries@[i] is Atomic,
        new.objects.entries@.len() == old.objects.entries@.len(),
        new.objects.entries@[i] is Atomic,
        new.objects.entries@[i]->Atomic_0.wf(old.max_threads as nat),
        new.objects.entries@[i]->Atomic_0.last_access == old.objects.entries@[i]->Atomic_0.last_access,
        forall|j: int| 0 <= j < old.objects.entries@.len() && j != i ==> new.objects.entries@[j] == old.objects.entries@[j],
        new.threads.wf(),
        new.threads.max_threads == old.max_threads,
        new.max_threads == old.max_threads,
        new.path.wf(),
        new.threads.threads@.len() == old.threads.threads@.len(),
        forall|t: int| 0 <= t < old.threads.threads@.len() ==> (#[trigger] new.threads.threads@[t]).operation == old.threads.threads@[t].operation,
    ensures
        new.wf(),
{
    assert forall|j: int| 0 <= j < new.objects.entries@.len() implies branchable(#[trigger] new.objects.entries@[j]) == branchable(old.objects.entries@[j]) by {}
    assert forall|t: int|
        0 <= t < new.threads.threads@.len() && (#[trigger] new.threads.threads@[t]).operation is Some implies {
        &&& new.threads.threads@[t].operation->Some_0.obj < new.objects.entries@.len()
        &&& branchable(new.objects.entries@[new.threads.threads@[t].operation->Some_0.obj as int])
    } by {
        assert(new.threads.threads@[t].operation == old.threads.threads@[t].operation);
        let o = old.threads.threads@[t].operation->Some_0.obj as int;
        assert(branchable(new.objects.entries@[o]) == branchable(old.objects.entries@[o]));
    }
    assert forall|j: int| 0 <= j < new.objects.entries@.len() implies {
        &&& (#[trigger] new.objects.entries@[j] is Atomic ==> new.objects.entries@[j]->Atomic_0.wf(new.max_threads as nat))
        &&& (new.objects.entries@[j] is Mutex ==> new.objects.entries@[j]->Mutex_0.synchronize.wf(new.max_threads as nat))
        &&& (crate::object::entry_last_access(new.objects.entries@[j]) is Some ==> crate::object::entry_last_access(new.objects.entries@[j])->Some_0.dpor_vv@.len() == new.max_threads)
    } by {
        if j != i {
            assert(new.objects.entries@[j] == old.objects.entries@[j]);
        }
    }
}


} // verus!
