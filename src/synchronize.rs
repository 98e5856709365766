use vstd::prelude::*;

use crate::thread::{same_but_clocks, ThreadSet};
use crate::vv::{vv_join, vv_le, VersionVec};

verus! {

/// Memory ordering of an atomic operation or fence.
#[derive(Clone, Copy, Debug, PartialEq, Eq, Structural)]
pub enum Ordering {
    Relaxed,
    Release,
    Acquire,
    AcqRel,
    SeqCst,
}

/// True when a load with this ordering takes on the causality released by a store.
pub open spec fn acquires(order: Ordering) -> bool {
    order == Ordering::Acquire || order == Ordering::AcqRel || order == Ordering::SeqCst
}

/// True when a store with this ordering publishes the storing thread's causality.
pub open spec fn releases(order: Ordering) -> bool {
    order == Ordering::Release || order == Ordering::AcqRel || order == Ordering::SeqCst
}

pub fn is_seq_cst(order: Ordering) -> (r: bool)
    ensures
        r == (order == Ordering::SeqCst),
{
    match order {
        Ordering::SeqCst => true,
        _ => false,
    }
}

/// The causality a store has released, to be acquired by loads of it.
pub struct Synchronize {
    pub happens_before: VersionVec,
}

/// The active thread's causality after a load with `order` of a store that released
/// `released`, when the global seq-cst clock was `sc` (before any seq-cst join).
pub open spec fn after_acquire(causality: Seq<u64>, released: Seq<u64>, order: Ordering) -> Seq<
    u64,
> {
    if acquires(order) {
        vv_join(causality, released)
    } else {
        causality
    }
}

/// What a synchronizing operation leaves in the global seq-cst clock and in the active
/// thread, given the active thread's causality `c` just before the seq-cst point.
pub open spec fn seq_cst_effect(
    old_set: ThreadSet,
    new_set: ThreadSet,
    c: Seq<u64>,
    order: Ordering,
) -> bool {
    &&& order == Ordering::SeqCst ==> {
        &&& new_set.active_thread().causality@ == vv_join(c, old_set.seq_cst_causality@)
        &&& new_set.seq_cst_causality@ == vv_join(c, old_set.seq_cst_causality@)
    }
    &&& order != Ordering::SeqCst ==> {
        &&& new_set.active_thread().causality@ == c
        &&& new_set.seq_cst_causality == old_set.seq_cst_causality
    }
}

impl Synchronize {
    pub open spec fn wf(&self, max_threads: nat) -> bool {
        self.happens_before@.len() == max_threads
    }

    pub fn new(max_threads: usize) -> (r: Synchronize)
        ensures
            r.happens_before@ == Seq::new(max_threads as nat, |i: int| 0u64),
    {
        Synchronize { happens_before: VersionVec::new(max_threads) }
    }

    /// A copy of the released causality; a read-modify-write starts its store from it,
    /// which forms a release sequence.
    pub fn clone_sync(&self) -> (r: Synchronize)
        ensures
            r.happens_before@ == self.happens_before@,
    {
        Synchronize { happens_before: self.happens_before.snapshot() }
    }

    pub fn version_vec(&self) -> (r: &VersionVec)
        ensures
            *r == self.happens_before,
    {
        &self.happens_before
    }

    /// A load of this store by the active thread. Acquire, AcqRel and SeqCst join the
    /// released causality into the thread; SeqCst also synchronizes with the global
    /// seq-cst clock.
    pub fn sync_load(&self, threads: &mut ThreadSet, order: Ordering)
        requires
            old(threads).has_active(),
            self.wf(old(threads).max_threads as nat),
        ensures
            final(threads).has_active(),
            ThreadSet::same_table_but(*old(threads), *final(threads), old(threads).active_index()),
            same_but_clocks(final(threads).active_thread(), old(threads).active_thread()),
            final(threads).active_thread().dpor_vv == old(threads).active_thread().dpor_vv,
            seq_cst_effect(
                *old(threads),
                *final(threads),
                after_acquire(
                    old(threads).active_thread().causality@,
                    self.happens_before@,
                    order,
                ),
                order,
            ),
            vv_le(old(threads).seq_cst_causality@, final(threads).seq_cst_causality@),
    {
        let a = threads.active.unwrap();
        if acquires_exec(order) {
            threads.threads[a].causality.join(&self.happens_before);
        }
        if is_seq_cst(order) {
            threads.seq_cst();
        }
    }

    /// A store by the active thread. Release, AcqRel and SeqCst publish the thread's
    /// causality; SeqCst also synchronizes with the global seq-cst clock.
    pub fn sync_store(&mut self, threads: &mut ThreadSet, order: Ordering)
        requires
            old(threads).has_active(),
            old(self).wf(old(threads).max_threads as nat),
        ensures
            final(threads).has_active(),
            final(self).wf(final(threads).max_threads as nat),
            final(self).happens_before@ == if releases(order) {
                vv_join(old(self).happens_before@, old(threads).active_thread().causality@)
            } else {
                old(self).happens_before@
            },
            ThreadSet::same_table_but(*old(threads), *final(threads), old(threads).active_index()),
            same_but_clocks(final(threads).active_thread(), old(threads).active_thread()),
            final(threads).active_thread().dpor_vv == old(threads).active_thread().dpor_vv,
            seq_cst_effect(
                *old(threads),
                *final(threads),
                old(threads).active_thread().causality@,
                order,
            ),
            vv_le(old(threads).seq_cst_causality@, final(threads).seq_cst_causality@),
    {
        let a = threads.active.unwrap();
        if releases_exec(order) {
            self.happens_before.join(&threads.threads[a].causality);
        }
        if is_seq_cst(order) {
            threads.seq_cst();
        }
    }
}

fn acquires_exec(order: Ordering) -> (r: bool)
    ensures
        r == acquires(order),
{
    match order {
        Ordering::Acquire | Ordering::AcqRel | Ordering::SeqCst => true,
        _ => false,
    }
}

fn releases_exec(order: Ordering) -> (r: bool)
    ensures
        r == releases(order),
{
    match order {
        Ordering::Release | Ordering::AcqRel | Ordering::SeqCst => true,
        _ => false,
    }
}

/// Seq-cst operations are totally ordered through the global clock: when thread A passes
/// a seq-cst point (causality `ca`, global clock `sc`) and later thread B passes one
/// (causality `cb`, the global clock having grown from A's point to `sc_b`), then all
/// that A had seen at its point is seen by B after its point, and the global clock never
/// shrinks.
pub proof fn lemma_seq_cst_total_order(ca: Seq<u64>, sc: Seq<u64>, sc_b: Seq<u64>, cb: Seq<u64>)
    requires
        ca.len() == sc.len(),
        cb.len() == sc.len(),
        vv_le(vv_join(ca, sc), sc_b),
    ensures
        vv_le(sc, vv_join(ca, sc)),
        vv_le(vv_join(ca, sc), vv_join(cb, sc_b)),
        vv_le(sc_b, vv_join(cb, sc_b)),
{
}

} // verus!
