use vstd::prelude::*;

use crate::object::Operation;
use crate::vv::{vv_inc, vv_join, VersionVec};

verus! {

/// Scheduling state of a cooperative thread.
#[derive(Clone, Copy, Debug, PartialEq, Eq, Structural)]
pub enum State {
    Runnable,
    Blocked,
    Yield,
    Terminated,
}

/// Identifies a thread: the execution it belongs to and its index in the thread table.
#[derive(Clone, Copy, Debug, PartialEq, Eq, Structural)]
pub struct Id {
    pub execution_id: u64,
    pub id: usize,
}

impl Id {
    pub fn new(execution_id: u64, id: usize) -> (r: Id)
        ensures
            r.execution_id == execution_id,
            r.id == id,
    {
        Id { execution_id, id }
    }

    pub fn as_usize(self) -> (r: usize)
        ensures
            r == self.id,
    {
        self.id
    }
}

/// Identifies a thread-local key.
#[derive(Clone, Copy, Debug, PartialEq, Eq, Structural)]
pub struct LocalKeyId(pub usize);

impl LocalKeyId {
    pub fn new(key: usize) -> (r: LocalKeyId)
        ensures
            r.0 == key,
    {
        LocalKeyId(key)
    }
}

/// The slot of a thread-local value: a handle to the value, or `None` once it was destroyed.
#[derive(Clone, Copy, Debug, PartialEq, Eq, Structural)]
pub struct LocalValue(pub Option<u64>);

/// Returned when a thread-local value is read after it was destroyed.
#[derive(Clone, Copy, Debug, PartialEq, Eq)]
pub struct AccessError {
    _private: (),
}

impl AccessError {
    /// What the error says.
    pub fn message(&self) -> (r: &'static str) {
        "already destroyed"
    }
}

impl LocalValue {
    pub fn new(value: u64) -> (r: LocalValue)
        ensures
            r.0 == Some(value),
    {
        LocalValue(Some(value))
    }

    /// The handle held in the slot, or an error once the value was destroyed.
    pub fn get(&self) -> (r: Result<u64, AccessError>)
        ensures
            self.0 is Some ==> r == Ok::<u64, AccessError>(self.0->Some_0),
            self.0 is None ==> r is Err,
    {
        match self.0 {
            Some(v) => Ok(v),
            None => Err(AccessError { _private: () }),
        }
    }
}

#[derive(Clone, Copy, Debug, PartialEq, Eq, Structural)]
pub struct LocalSlot {
    pub key: LocalKeyId,
    pub value: LocalValue,
}

/// The handles of the slots whose value is still alive, in slot order.
pub open spec fn live_handles(slots: Seq<LocalSlot>) -> Seq<u64>
    decreases slots.len(),
{
    if slots.len() == 0 {
        Seq::empty()
    } else {
        let prev = live_handles(slots.drop_last());
        match slots.last().value.0 {
            Some(v) => prev.push(v),
            None => prev,
        }
    }
}

pub struct Thread {
    pub id: usize,
    /// Runnable, blocked, yielded or terminated.
    pub state: State,
    /// True while the thread is in a critical section.
    pub critical: bool,
    /// The operation the thread is about to perform.
    pub operation: Option<Operation>,
    /// Causality the thread has observed.
    pub causality: VersionVec,
    /// Bookkeeping for partial-order reduction.
    pub dpor_vv: VersionVec,
    /// The thread's own clock when it last yielded.
    pub last_yield: Option<u64>,
    /// How many times the thread yielded.
    pub yield_count: usize,
    /// Thread-local slots, one per key.
    pub locals: Vec<LocalSlot>,
}

/// `a` and `b` agree on everything but their two clocks.
pub open spec fn same_but_clocks(a: Thread, b: Thread) -> bool {
    &&& a.id == b.id
    &&& a.state == b.state
    &&& a.critical == b.critical
    &&& a.operation == b.operation
    &&& a.last_yield == b.last_yield
    &&& a.yield_count == b.yield_count
    &&& a.locals == b.locals
}

impl Thread {
    pub open spec fn wf(&self, max_threads: nat) -> bool {
        &&& self.causality@.len() == max_threads
        &&& self.dpor_vv@.len() == max_threads
        &&& self.id < max_threads
    }

    pub fn new(id: usize, max_threads: usize) -> (r: Thread)
        ensures
            r.id == id,
            r.state == State::Runnable,
            !r.critical,
            r.operation is None,
            r.causality@ == Seq::new(max_threads as nat, |i: int| 0u64),
            r.dpor_vv@ == Seq::new(max_threads as nat, |i: int| 0u64),
            r.last_yield is None,
            r.yield_count == 0,
            r.locals@.len() == 0,
    {
        Thread {
            id,
            state: State::Runnable,
            critical: false,
            operation: None,
            causality: VersionVec::new(max_threads),
            dpor_vv: VersionVec::new(max_threads),
            last_yield: None,
            yield_count: 0,
            locals: Vec::new(),
        }
    }

    pub fn is_runnable(&self) -> (r: bool)
        ensures
            r == (self.state == State::Runnable),
    {
        self.state == State::Runnable
    }

    pub fn set_runnable(&mut self)
        ensures
            *final(self) == (Thread { state: State::Runnable, ..*old(self) }),
    {
        self.state = State::Runnable;
    }

    pub fn set_blocked(&mut self)
        ensures
            *final(self) == (Thread { state: State::Blocked, ..*old(self) }),
    {
        self.state = State::Blocked;
    }

    pub fn is_blocked(&self) -> (r: bool)
        ensures
            r == (self.state == State::Blocked),
    {
        self.state == State::Blocked
    }

    pub fn is_yield(&self) -> (r: bool)
        ensures
            r == (self.state == State::Yield),
    {
        self.state == State::Yield
    }

    /// Marks the thread as yielded, remembering its own clock at this point.
    pub fn set_yield(&mut self)
        requires
            old(self).id < old(self).causality@.len(),
        ensures
            final(self).state == State::Yield,
            final(self).last_yield == Some(old(self).causality@[old(self).id as int]),
            final(self).yield_count == if old(self).yield_count == usize::MAX {
                old(self).yield_count
            } else {
                (old(self).yield_count + 1) as usize
            },
            final(self).id == old(self).id,
            final(self).critical == old(self).critical,
            final(self).operation == old(self).operation,
            final(self).causality == old(self).causality,
            final(self).dpor_vv == old(self).dpor_vv,
            final(self).locals == old(self).locals,
    {
        self.state = State::Yield;
        self.last_yield = Some(self.causality.get(self.id));
        if self.yield_count < usize::MAX {
            self.yield_count = self.yield_count + 1;
        }
    }

    pub fn is_terminated(&self) -> (r: bool)
        ensures
            r == (self.state == State::Terminated),
    {
        self.state == State::Terminated
    }

    pub fn set_terminated(&mut self)
        ensures
            *final(self) == (Thread { state: State::Terminated, ..*old(self) }),
    {
        self.state = State::Terminated;
    }

    /// Destroys the thread's local values, handing back the handles of those still alive.
    pub fn drop_locals(&mut self) -> (r: Vec<u64>)
        ensures
            final(self).locals@.len() == old(self).locals@.len(),
            forall|i: int|
                0 <= i < old(self).locals@.len() ==> final(self).locals@[i] == (LocalSlot {
                    key: old(self).locals@[i].key,
                    value: LocalValue(None),
                }),
            r@ == live_handles(old(self).locals@),
            final(self).id == old(self).id,
            final(self).state == old(self).state,
            final(self).causality == old(self).causality,
            final(self).dpor_vv == old(self).dpor_vv,
    {
        let ghost start = self.locals@;
        let mut handles: Vec<u64> = Vec::new();
        let n = self.locals.len();
        let mut k: usize = 0;
        while k < n
            invariant
                n == start.len(),
                k <= n,
                self.locals@.len() == n,
                forall|i: int|
                    0 <= i < k ==> self.locals@[i] == (LocalSlot {
                        key: start[i].key,
                        value: LocalValue(None),
                    }),
                forall|i: int| k <= i < n ==> self.locals@[i] == start[i],
                handles@ == live_handles(start.take(k as int)),
                self.id == old(self).id,
                self.state == old(self).state,
                self.causality == old(self).causality,
                self.dpor_vv == old(self).dpor_vv,
            decreases n - k,
        {
            let slot = self.locals[k];
            assert(start.take(k + 1).drop_last() =~= start.take(k as int));
            if let Some(v) = slot.value.0 {
                handles.push(v);
            }
            self.locals.set(k, LocalSlot { key: slot.key, value: LocalValue(None) });
            k = k + 1;
        }
        assert(start.take(n as int) =~= start);
        handles
    }

    /// Wakes this thread on behalf of a thread whose causality is `unparker`, which is
    /// passed on.
    pub fn unpark(&mut self, unparker: &VersionVec)
        requires
            old(self).causality@.len() == unparker@.len(),
        ensures
            final(self).causality@ == vv_join(old(self).causality@, unparker@),
            final(self).state == if old(self).state == State::Blocked || old(self).state
                == State::Yield {
                State::Runnable
            } else {
                old(self).state
            },
            final(self).id == old(self).id,
            final(self).dpor_vv == old(self).dpor_vv,
            final(self).critical == old(self).critical,
            final(self).operation == old(self).operation,
            final(self).last_yield == old(self).last_yield,
            final(self).locals == old(self).locals,
    {
        self.causality.join(unparker);
        if self.is_blocked() || self.is_yield() {
            self.set_runnable();
        }
    }
}

/// The thread table of one execution.
pub struct ThreadSet {
    /// Identifies the execution.
    pub execution_id: u64,
    pub threads: Vec<Thread>,
    /// How many threads the table may hold; also the width of every clock.
    pub max_threads: usize,
    /// The thread that runs now; `None` when no thread can run.
    pub active: Option<usize>,
    /// Causality that every sequentially consistent operation synchronizes with.
    pub seq_cst_causality: VersionVec,
}

impl ThreadSet {
    pub open spec fn wf(&self) -> bool {
        &&& 1 <= self.threads@.len() <= self.max_threads
        &&& forall|i: int|
            0 <= i < self.threads@.len() ==> (#[trigger] self.threads@[i]).wf(
                self.max_threads as nat,
            ) && self.threads@[i].id == i
        &&& self.seq_cst_causality@.len() == self.max_threads
        &&& self.active is Some ==> self.active->Some_0 < self.threads@.len()
    }

    /// True when the table is well formed.
    pub fn is_wf(&self) -> (r: bool)
        ensures
            r == self.wf(),
    {
        let n = self.threads.len();
        if n < 1 || n > self.max_threads || self.seq_cst_causality.len() != self.max_threads {
            return false;
        }
        if let Some(a) = self.active {
            if a >= n {
                return false;
            }
        }
        let mut k: usize = 0;
        while k < n
            invariant
                n == self.threads@.len(),
                k <= n,
                forall|i: int|
                    0 <= i < k ==> (#[trigger] self.threads@[i]).wf(self.max_threads as nat)
                        && self.threads@[i].id == i,
            decreases n - k,
        {
            let th = &self.threads[k];
            if th.causality.len() != self.max_threads || th.dpor_vv.len() != self.max_threads
                || th.id >= self.max_threads || th.id != k {
                return false;
            }
            k = k + 1;
        }
        true
    }

    pub open spec fn has_active(&self) -> bool {
        self.wf() && self.active is Some
    }

    pub open spec fn active_index(&self) -> int {
        self.active->Some_0 as int
    }

    pub open spec fn active_thread(&self) -> Thread {
        self.threads@[self.active->Some_0 as int]
    }

    /// `new` has the shape of `old` and the same threads but for thread `i`.
    pub open spec fn same_table_but(old: ThreadSet, new: ThreadSet, i: int) -> bool {
        &&& new.execution_id == old.execution_id
        &&& new.max_threads == old.max_threads
        &&& new.active == old.active
        &&& new.threads@.len() == old.threads@.len()
        &&& forall|j: int| 0 <= j < old.threads@.len() && j != i ==> new.threads@[j] == old.threads@[j]
    }

    /// `new` differs from `old` at most in thread `i`.
    pub open spec fn only_thread_changed(old: ThreadSet, new: ThreadSet, i: int) -> bool {
        &&& ThreadSet::same_table_but(old, new, i)
        &&& new.seq_cst_causality == old.seq_cst_causality
    }

    /// A table that holds the main thread alone, which is active.
    pub fn new(execution_id: u64, max_threads: usize) -> (r: ThreadSet)
        requires
            max_threads >= 1,
        ensures
            r.wf(),
            r.execution_id == execution_id,
            r.max_threads == max_threads,
            r.threads@.len() == 1,
            r.active == Some(0usize),
            r.threads@[0].state == State::Runnable,
            r.threads@[0].operation is None,
            r.threads@[0].causality@ == Seq::new(max_threads as nat, |i: int| 0u64),
            r.seq_cst_causality@ == Seq::new(max_threads as nat, |i: int| 0u64),
    {
        let mut threads: Vec<Thread> = Vec::with_capacity(max_threads);
        threads.push(Thread::new(0, max_threads));
        ThreadSet {
            execution_id,
            threads,
            max_threads,
            active: Some(0),
            seq_cst_causality: VersionVec::new(max_threads),
        }
    }

    pub fn execution_id(&self) -> (r: u64)
        ensures
            r == self.execution_id,
    {
        self.execution_id
    }

    /// Adds a runnable thread, or returns `None` when the table is full.
    pub fn new_thread(&mut self) -> (r: Option<Id>)
        requires
            old(self).wf(),
        ensures
            final(self).wf(),
            old(self).threads@.len() < old(self).max_threads ==> {
                &&& r == Some(Id { execution_id: old(self).execution_id, id: old(self).threads@.len() as usize })
                &&& final(self).threads@.len() == old(self).threads@.len() + 1
                &&& final(self).threads@.drop_last() == old(self).threads@
                &&& final(self).threads@.last().state == State::Runnable
                &&& final(self).threads@.last().operation is None
                &&& !final(self).threads@.last().critical
                &&& final(self).threads@.last().dpor_vv@ == Seq::new(
                    old(self).max_threads as nat,
                    |i: int| 0u64,
                )
                &&& final(self).threads@.last().last_yield is None
                &&& final(self).threads@.last().yield_count == 0
                &&& final(self).threads@.last().id == old(self).threads@.len()
                &&& final(self).threads@.last().causality@ == Seq::new(
                    old(self).max_threads as nat,
                    |i: int| 0u64,
                )
            },
            old(self).threads@.len() == old(self).max_threads ==> r is None && *final(self)
                == *old(self),
            final(self).execution_id == old(self).execution_id,
            final(self).max_threads == old(self).max_threads,
            final(self).active == old(self).active,
            final(self).seq_cst_causality == old(self).seq_cst_causality,
    {
        if self.threads.len() >= self.max_threads {
            return None;
        }
        let id = self.threads.len();
        self.threads.push(Thread::new(id, self.max_threads));
        assert(self.threads@.drop_last() =~= old(self).threads@);
        Some(Id::new(self.execution_id, id))
    }

    pub fn max(&self) -> (r: usize)
        ensures
            r == self.max_threads,
    {
        self.max_threads
    }

    pub fn len(&self) -> (r: usize)
        ensures
            r == self.threads@.len(),
    {
        self.threads.len()
    }

    pub fn is_active(&self) -> (r: bool)
        ensures
            r == self.active is Some,
    {
        self.active.is_some()
    }

    pub fn active_id(&self) -> (r: Id)
        requires
            self.active is Some,
        ensures
            r == (Id { execution_id: self.execution_id, id: self.active->Some_0 }),
    {
        Id::new(self.execution_id, self.active.unwrap())
    }

    pub fn active(&self) -> (r: &Thread)
        requires
            self.has_active(),
        ensures
            *r == self.active_thread(),
    {
        &self.threads[self.active.unwrap()]
    }

    pub fn set_active(&mut self, id: Option<usize>)
        ensures
            *final(self) == (ThreadSet { active: id, ..*old(self) }),
    {
        self.active = id;
    }

    /// Advances the active thread's own clock.
    pub fn active_causality_inc(&mut self)
        requires
            old(self).has_active(),
        ensures
            final(self).has_active(),
            ThreadSet::only_thread_changed(*old(self), *final(self), old(self).active_index()),
            final(self).active_thread().causality@ == vv_inc(
                old(self).active_thread().causality@,
                old(self).active_index(),
            ),
            same_but_clocks(final(self).active_thread(), old(self).active_thread()),
            final(self).active_thread().dpor_vv == old(self).active_thread().dpor_vv,
    {
        let a = self.active.unwrap();
        self.threads[a].causality.inc(a);
    }

    /// The active thread's own clock.
    pub fn active_atomic_version(&self) -> (r: u64)
        requires
            self.has_active(),
        ensures
            r == self.active_thread().causality@[self.active_index()],
    {
        let a = self.active.unwrap();
        self.threads[a].causality.get(a)
    }

    /// Wakes thread `id`, which takes on the active thread's causality. Unparking the
    /// active thread itself does nothing.
    pub fn unpark(&mut self, id: usize)
        requires
            old(self).has_active(),
            id < old(self).threads@.len(),
        ensures
            final(self).has_active(),
            id == old(self).active_index() ==> *final(self) == *old(self),
            id != old(self).active_index() ==> {
                &&& ThreadSet::only_thread_changed(*old(self), *final(self), id as int)
                &&& final(self).threads@[id as int].causality@ == vv_join(
                    old(self).threads@[id as int].causality@,
                    old(self).active_thread().causality@,
                )
                &&& final(self).threads@[id as int].state == if old(self).threads@[id as int].state
                    == State::Blocked || old(self).threads@[id as int].state == State::Yield {
                    State::Runnable
                } else {
                    old(self).threads@[id as int].state
                }
                &&& final(self).threads@[id as int].id == id
                &&& final(self).threads@[id as int].dpor_vv == old(self).threads@[id as int].dpor_vv
            },
    {
        let a = self.active.unwrap();
        if id == a {
            return;
        }
        let c = self.threads[a].causality.snapshot();
        self.threads[id].unpark(&c);
    }

    /// A point of sequential consistency: the active thread and the global seq-cst clock
    /// both become the join of the two.
    pub fn seq_cst(&mut self)
        requires
            old(self).has_active(),
        ensures
            final(self).has_active(),
            ThreadSet::same_table_but(*old(self), *final(self), old(self).active_index()),
            final(self).active_thread().causality@ == vv_join(
                old(self).active_thread().causality@,
                old(self).seq_cst_causality@,
            ),
            final(self).seq_cst_causality@ == vv_join(
                old(self).active_thread().causality@,
                old(self).seq_cst_causality@,
            ),
            same_but_clocks(final(self).active_thread(), old(self).active_thread()),
            final(self).active_thread().dpor_vv == old(self).active_thread().dpor_vv,
    {
        let a = self.active.unwrap();
        self.threads[a].causality.join(&self.seq_cst_causality);
        self.seq_cst_causality.join(&self.threads[a].causality);
        assert(self.seq_cst_causality@ =~= self.threads@[a as int].causality@);
    }

    /// The active thread's slot for `key`: `None` when it has none, else its handle or
    /// an error once the value was destroyed.
    pub fn local(&self, key: LocalKeyId) -> (r: Option<Result<u64, AccessError>>)
        requires
            self.has_active(),
        ensures
            r is None <==> forall|i: int|
                0 <= i < self.active_thread().locals@.len()
                    ==> self.active_thread().locals@[i].key != key,
            r is Some ==> exists|i: int|
                0 <= i < self.active_thread().locals@.len()
                    && self.active_thread().locals@[i].key == key
                    && (self.active_thread().locals@[i].value.0 is Some ==> r == Some(
                    Ok::<u64, AccessError>(self.active_thread().locals@[i].value.0->Some_0),
                ))
                    && (self.active_thread().locals@[i].value.0 is None ==> r->Some_0 is Err),
    {
        let a = self.active.unwrap();
        let n = self.threads[a].locals.len();
        let mut k: usize = 0;
        while k < n
            invariant
                self.has_active(),
                a == self.active_index(),
                n == self.active_thread().locals@.len(),
                k <= n,
                forall|i: int| 0 <= i < k ==> self.active_thread().locals@[i].key != key,
            decreases n - k,
        {
            let slot = self.threads[a].locals[k];
            if slot.key == key {
                return Some(slot.value.get());
            }
            k = k + 1;
        }
        None
    }

    /// Gives the active thread a live slot for `key`; `false`, and nothing changed, when
    /// it already has one.
    pub fn local_init(&mut self, key: LocalKeyId, value: u64) -> (r: bool)
        requires
            old(self).has_active(),
        ensures
            final(self).has_active(),
            r == forall|i: int|
                0 <= i < old(self).active_thread().locals@.len()
                    ==> old(self).active_thread().locals@[i].key != key,
            !r ==> *final(self) == *old(self),
            r ==> ThreadSet::only_thread_changed(*old(self), *final(self), old(self).active_index())
                && final(self).active_thread().locals@ == old(self).active_thread().locals@.push(
                LocalSlot { key, value: LocalValue(Some(value)) },
            ) && final(self).active_thread().causality == old(self).active_thread().causality
                && final(self).active_thread().dpor_vv == old(self).active_thread().dpor_vv
                && final(self).active_thread().id == old(self).active_thread().id,
    {
        if self.local(key).is_some() {
            return false;
        }
        let a = self.active.unwrap();
        self.threads[a].locals.push(LocalSlot { key, value: LocalValue::new(value) });
        true
    }
}

} // verus!
