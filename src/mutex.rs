use vstd::prelude::*;

use crate::execution::{objects_wf, Execution};
use crate::failure::Failure;
use crate::object::{branchable, Entry, MutexState, Ref};
use crate::rt::{branch_acquire, branch_opaque, running};
use crate::synchronize::{Ordering, Synchronize};
use crate::thread::State;

verus! {

/// Returned by `try_lock` when the mutex is held.
#[derive(Clone, Copy, Debug, PartialEq, Eq, Structural)]
pub enum TryLockError {
    WouldBlock,
}

/// A modeled mutex around a value.
pub struct Mutex<T> {
    pub object: Ref<MutexState>,
    pub data: T,
}

/// Access to the value of a locked mutex, until it is unlocked.
pub struct MutexGuard<'a, T> {
    pub lock: &'a Mutex<T>,
    /// False while the guard has lent the lock out (a condition variable waits with it).
    pub borrowed: bool,
}

/// The mutex state that `m` refers to in `e`.
pub open spec fn mutex_of<T>(e: Execution, m: Mutex<T>) -> MutexState {
    e.objects.entries@[m.object.index as int]->Mutex_0
}

/// `new` is `old` with the entry at `i` changed into another mutex state of the same
/// width, the threads changed only within the table's shape.
proof fn lemma_mutex_updated(old: Execution, new: Execution, i: int)
    requires
        old.wf(),
        0 <= i < old.objects.entries@.len(),
        old.objects.entries@[i] is Mutex,
        new.objects.entries@.len() == old.objects.entries@.len(),
        new.objects.entries@[i] is Mutex,
        new.objects.entries@[i]->Mutex_0.synchronize.wf(old.max_threads as nat),
        new.objects.entries@[i]->Mutex_0.last_access == old.objects.entries@[i]->Mutex_0.last_access,
        forall|j: int|
            0 <= j < old.objects.entries@.len() && j != i ==> new.objects.entries@[j]
                == old.objects.entries@[j],
        new.threads.wf(),
        new.threads.max_threads == old.max_threads,
        new.max_threads == old.max_threads,
        new.path.wf(),
        new.threads.threads@.len() == old.threads.threads@.len(),
        forall|t: int|
            0 <= t < old.threads.threads@.len() ==> (#[trigger] new.threads.threads@[t]).operation
                == old.threads.threads@[t].operation,
    ensures
        new.wf(),
{
    assert forall|t: int|
        0 <= t < new.threads.threads@.len() && (
        #[trigger] new.threads.threads@[t]).operation is Some implies {
        &&& new.threads.threads@[t].operation->Some_0.obj < new.objects.entries@.len()
        &&& branchable(new.objects.entries@[new.threads.threads@[t].operation->Some_0.obj as int])
    } by {
        let o = old.threads.threads@[t].operation->Some_0.obj as int;
        if o != i {
            assert(new.objects.entries@[o] == old.objects.entries@[o]);
        }
    }
    assert(objects_wf(new.objects.entries@, new.max_threads as nat)) by {
        assert forall|j: int| 0 <= j < new.objects.entries@.len() && j != i implies #[trigger]
            new.objects.entries@[j] == old.objects.entries@[j] by {}
    }
}

impl<T> Mutex<T> {
    /// `self` refers to a mutex of `e`.
    pub open spec fn valid(&self, e: Execution) -> bool {
        &&& self.object.index < e.objects.entries@.len()
        &&& e.objects.entries@[self.object.index as int] is Mutex
    }

    /// A new, unlocked mutex holding `data`.
    pub fn new(e: &mut Execution, data: T) -> (r: Mutex<T>)
        requires
            old(e).wf(),
        ensures
            final(e).wf(),
            r.valid(*final(e)),
            r.data == data,
            mutex_of(*final(e), r).lock is None,
            final(e).objects.entries@.len() == old(e).objects.entries@.len() + 1,
            final(e).threads == old(e).threads,
            final(e).path == old(e).path,
    {
        let state = MutexState {
            lock: None,
            synchronize: Synchronize::new(e.max_threads),
            last_access: None,
        };
        let object = e.objects.insert_mutex(state);
        proof {
            assert forall|t: int|
                0 <= t < e.threads.threads@.len() && (
                #[trigger] e.threads.threads@[t]).operation is Some implies {
                &&& e.threads.threads@[t].operation->Some_0.obj < e.objects.entries@.len()
                &&& branchable(
                    e.objects.entries@[e.threads.threads@[t].operation->Some_0.obj as int],
                )
            } by {
                let o = e.threads.threads@[t].operation->Some_0.obj as int;
                assert(e.objects.entries@[o] == old(e).objects.entries@[o]);
            }
            assert(objects_wf(e.objects.entries@, e.max_threads as nat)) by {
                assert forall|i: int| 0 <= i < e.objects.entries@.len() - 1 implies #[trigger]
                    e.objects.entries@[i] == old(e).objects.entries@[i] by {}
            }
        }
        Mutex { object, data }
    }

    /// True when some thread holds the lock.
    pub fn is_locked(&self, e: &Execution) -> (r: bool)
        requires
            self.valid(*e),
        ensures
            r == mutex_of(*e, *self).lock is Some,
    {
        match &e.objects.entries[self.object.index] {
            Entry::Mutex(s) => s.lock.is_some(),
            _ => false,
        }
    }

    /// The scheduling point before `lock`: when the mutex is held the active thread blocks
    /// until it is released. True when another thread was chosen to run first.
    pub fn branch_lock(&self, e: &mut Execution) -> (r: Result<bool, Failure>)
        requires
            running(*old(e)),
            self.valid(*old(e)),
        ensures
            final(e).wf(),
            final(e).objects.entries@.len() == old(e).objects.entries@.len(),
            self.valid(*final(e)),
            mutex_of(*final(e), *self).lock == mutex_of(*old(e), *self).lock,
            r is Ok ==> r->Ok_0 == (final(e).threads.active != old(e).threads.active),
            mutex_of(*old(e), *self).lock is Some ==> final(e).threads.threads@[old(e).threads.active_index()].state == State::Blocked,
            mutex_of(*old(e), *self).lock is Some && r is Ok ==> r == Ok::<bool, Failure>(true),
            r == Ok::<bool, Failure>(false) ==> mutex_of(*final(e), *self).lock is None,
    {
        let locked = self.is_locked(e);
        branch_acquire(e, self.object.erase(), locked)
    }

    /// The scheduling point before `try_lock`.
    pub fn branch_try_lock(&self, e: &mut Execution) -> (r: Result<bool, Failure>)
        requires
            running(*old(e)),
            self.valid(*old(e)),
        ensures
            final(e).wf(),
            final(e).objects.entries@.len() == old(e).objects.entries@.len(),
            self.valid(*final(e)),
            mutex_of(*final(e), *self).lock == mutex_of(*old(e), *self).lock,
            r is Ok ==> r->Ok_0 == (final(e).threads.active != old(e).threads.active),
    {
        branch_opaque(e, self.object.erase())
    }

    /// Takes the lock for the active thread, which acquires what the last unlock released,
    /// and blocks the other threads about to take it. False, and nothing changed, when the
    /// lock is held.
    fn post_acquire(&self, e: &mut Execution) -> (r: bool)
        requires
            running(*old(e)),
            self.valid(*old(e)),
        ensures
            running(*final(e)),
            self.valid(*final(e)),
            r == (mutex_of(*old(e), *self).lock is None),
            !r ==> *final(e) == *old(e),
            r ==> mutex_of(*final(e), *self).lock == old(e).threads.active,
            final(e).threads.active == old(e).threads.active,
    {
        let i = self.object.index;
        let a = e.threads.active.unwrap();
        if self.is_locked(e) {
            return false;
        }
        let ghost mid = *e;
        match &mut e.objects.entries[i] {
            Entry::Mutex(s) => {
                s.lock = Some(a);
                s.synchronize.sync_load(&mut e.threads, Ordering::Acquire);
            },
            _ => {},
        }
        proof {
            lemma_mutex_updated(mid, *e, i as int);
        }
        let n = e.threads.threads.len();
        let mut t: usize = 0;
        while t < n
            invariant
                running(*e),
                self.valid(*e),
                n == e.threads.threads@.len(),
                t <= n,
                e.threads.active == Some(a),
                mutex_of(*e, *self).lock == Some(a),
            decreases n - t,
        {
            if t != a {
                if let Some(op) = e.threads.threads[t].operation {
                    if op.obj == i {
                        e.threads.threads[t].set_blocked();
                    }
                }
            }
            t = t + 1;
        }
        true
    }

    /// Takes the lock for the active thread, after `branch_lock` scheduled it. Fails with
    /// `Deadlock` when the lock is still held, which the scheduling point rules out.
    pub fn lock(&self, e: &mut Execution) -> (r: Result<MutexGuard<'_, T>, Failure>)
        requires
            running(*old(e)),
            self.valid(*old(e)),
        ensures
            running(*final(e)),
            self.valid(*final(e)),
            r is Ok <==> mutex_of(*old(e), *self).lock is None,
            r is Ok ==> mutex_of(*final(e), *self).lock == old(e).threads.active,
            r is Ok ==> r->Ok_0.lock == self && r->Ok_0.borrowed,
            r is Err ==> r == Err::<MutexGuard<'_, T>, Failure>(Failure::Deadlock),
    {
        if self.post_acquire(e) {
            Ok(MutexGuard { lock: self, borrowed: true })
        } else {
            Err(Failure::Deadlock)
        }
    }

    /// Takes the lock when it is free, after `branch_try_lock` scheduled the active
    /// thread; `WouldBlock` otherwise.
    pub fn try_lock(&self, e: &mut Execution) -> (r: Result<MutexGuard<'_, T>, TryLockError>)
        requires
            running(*old(e)),
            self.valid(*old(e)),
        ensures
            running(*final(e)),
            self.valid(*final(e)),
            r is Ok <==> mutex_of(*old(e), *self).lock is None,
            r is Ok ==> mutex_of(*final(e), *self).lock == old(e).threads.active,
            r is Ok ==> r->Ok_0.lock == self && r->Ok_0.borrowed,
            r is Err ==> *final(e) == *old(e),
    {
        if self.post_acquire(e) {
            Ok(MutexGuard { lock: self, borrowed: true })
        } else {
            Err(TryLockError::WouldBlock)
        }
    }
}

impl<'a, T> MutexGuard<'a, T> {
    /// The value behind the lock.
    pub fn get(&self) -> (r: &T)
        ensures
            *r == self.lock.data,
    {
        &self.lock.data
    }

    /// Lends the lock out, as a condition variable does while it waits.
    pub fn unborrow(&mut self)
        ensures
            !final(self).borrowed,
            final(self).lock == old(self).lock,
    {
        self.borrowed = false;
    }

    /// Takes the lock back after `unborrow`.
    pub fn reborrow(&mut self)
        ensures
            final(self).borrowed,
            final(self).lock == old(self).lock,
    {
        self.borrowed = true;
    }

    /// The runtime object of the mutex.
    pub fn rt(&self) -> (r: Ref<MutexState>)
        ensures
            r.index == self.lock.object.index,
    {
        self.lock.object.clone()
    }

    /// Releases the lock: it publishes the holder's causality, and the threads waiting for
    /// it can run again. Fails with `NotLockOwner` when the active thread does not hold it.
    pub fn unlock(self, e: &mut Execution) -> (r: Result<(), Failure>)
        requires
            running(*old(e)),
            self.lock.valid(*old(e)),
        ensures
            running(*final(e)),
            self.lock.valid(*final(e)),
            r is Ok <==> mutex_of(*old(e), *self.lock).lock == old(e).threads.active,
            r is Ok ==> mutex_of(*final(e), *self.lock).lock is None,
            r is Err ==> *final(e) == *old(e) && r == Err::<(), Failure>(Failure::NotLockOwner),
    {
        let i = self.lock.object.index;
        let a = e.threads.active.unwrap();
        let owner = match &e.objects.entries[i] {
            Entry::Mutex(s) => s.lock,
            _ => None,
        };
        if owner != Some(a) {
            return Err(Failure::NotLockOwner);
        }
        let ghost mid = *e;
        match &mut e.objects.entries[i] {
            Entry::Mutex(s) => {
                s.lock = None;
                s.synchronize.sync_store(&mut e.threads, Ordering::Release);
            },
            _ => {},
        }
        proof {
            lemma_mutex_updated(mid, *e, i as int);
        }
        let n = e.threads.threads.len();
        let mut t: usize = 0;
        while t < n
            invariant
                running(*e),
                self.lock.valid(*e),
                n == e.threads.threads@.len(),
                t <= n,
                e.threads.active == Some(a),
                mutex_of(*e, *self.lock).lock is None,
            decreases n - t,
        {
            if t != a {
                if let Some(op) = e.threads.threads[t].operation {
                    if op.obj == i {
                        e.threads.threads[t].set_runnable();
                    }
                }
            }
            t = t + 1;
        }
        Ok(())
    }
}

} // verus!
