use vstd::prelude::*;

use crate::access::Access;
use crate::failure::Failure;
use crate::object::{branchable, entry_last_access, same_object, Entry, Operation, Store};
use crate::path::{branch_measure, explored_at, initial_choice, lemma_first_from_bounds, Branch, Path, Sched};
use crate::thread::{State, Thread, ThreadSet};
use crate::vv::{vv_inc, vv_join, vv_le};

verus! {

/// The standing of a thread at a scheduling decision.
pub open spec fn standing(th: Thread) -> Sched {
    match th.state {
        State::Runnable => Sched::Skip,
        State::Yield => Sched::Yield,
        _ => Sched::Disabled,
    }
}

pub open spec fn seed_of(threads: Seq<Thread>) -> Seq<Sched> {
    Seq::new(threads.len(), |i: int| standing(threads[i]))
}

/// Every object is well formed for clocks of width `max_threads`.
pub open spec fn objects_wf(entries: Seq<Entry>, max_threads: nat) -> bool {
    forall|i: int| 0 <= i < entries.len() ==> entry_wf(#[trigger] entries[i], max_threads)
}

/// One object is well formed for clocks of width `max_threads`.
pub open spec fn entry_wf(e: Entry, max_threads: nat) -> bool {
    &&& (e is Atomic ==> e->Atomic_0.wf(max_threads))
    &&& (e is Mutex ==> e->Mutex_0.synchronize.wf(max_threads))
    &&& (entry_last_access(e) is Some ==> entry_last_access(e)->Some_0.dpor_vv@.len()
        == max_threads)
}

/// Thread `t`'s pending operation races with the last access of its object: that access
/// does not happen before the thread. Its position in the path is where another order is
/// to be tried.
pub open spec fn races(e: Execution, t: int) -> bool {
    let th = e.threads.threads@[t];
    &&& th.operation is Some
    &&& entry_last_access(e.objects.entries@[th.operation->Some_0.obj as int]) is Some
    &&& !vv_le(
        entry_last_access(e.objects.entries@[th.operation->Some_0.obj as int])->Some_0.dpor_vv@,
        th.dpor_vv@,
    )
}

/// The path position of the access that thread `t`'s pending operation depends on.
pub open spec fn race_point(e: Execution, t: int) -> int {
    entry_last_access(
        e.objects.entries@[e.threads.threads@[t].operation->Some_0.obj as int],
    )->Some_0.path_id as int
}

/// Every racing thread whose race lies before position `upto` is marked for exploration
/// in `branches` at its race's position.
pub open spec fn races_marked(e: Execution, branches: Seq<Branch>, upto: int, bound: Option<usize>) -> bool {
    forall|t: int|
        0 <= t < e.threads.threads@.len() && #[trigger] races(e, t) && race_point(e, t) < upto
            ==> explored_at(branches[race_point(e, t)], t, bound)
}

/// `a` and `b` differ at most in their scheduling state and their reduction clock.
pub open spec fn same_but_state_and_dpor(a: Thread, b: Thread) -> bool {
    &&& a.id == b.id
    &&& a.critical == b.critical
    &&& a.operation == b.operation
    &&& a.causality == b.causality
    &&& a.last_yield == b.last_yield
    &&& a.yield_count == b.yield_count
    &&& a.locals == b.locals
}

/// The object is well formed for clocks of width `m`.
fn entry_is_wf(e: &Entry, m: usize) -> (r: bool)
    ensures
        r == entry_wf(*e, m as nat),
{
    let access_ok = match e {
        Entry::Arc(s) => access_width_is(&s.last_access, m),
        Entry::Atomic(s) => access_width_is(&s.last_access, m),
        Entry::Mutex(s) => access_width_is(&s.last_access, m),
        Entry::Condvar(s) => access_width_is(&s.last_access, m),
        Entry::Notify(s) => access_width_is(&s.last_access, m),
        _ => true,
    };
    let r = access_ok && match e {
        Entry::Atomic(s) => {
            let n = s.stores.len();
            if n < 1 {
                false
            } else {
                let mut k: usize = 0;
                let mut ok = true;
                while k < n
                    invariant
                        n == s.stores@.len(),
                        k <= n,
                        ok ==> forall|i: int| 0 <= i < k ==> (#[trigger] s.stores@[i]).wf(m as nat),
                        !ok ==> !s.wf(m as nat),
                    decreases n - k,
                {
                    let rec = &s.stores[k];
                    if rec.sync.happens_before.len() != m || rec.first_seen.0.len() != m
                        || rec.writer.len() != m {
                        ok = false;
                        assert(!s.stores@[k as int].wf(m as nat));
                    }
                    k = k + 1;
                }
                ok
            }
        },
        Entry::Mutex(s) => s.synchronize.happens_before.len() == m,
        _ => true,
    };
    r
}

/// `a` is absent or has a clock of width `m`.
fn access_width_is(a: &Option<Access>, m: usize) -> (r: bool)
    ensures
        r == (a is Some ==> a->Some_0.dpor_vv@.len() == m),
{
    match a {
        Some(x) => x.dpor_vv.len() == m,
        None => true,
    }
}

/// One run of the model: its threads, its objects and the path it follows.
pub struct Execution {
    pub id: u64,
    pub path: Path,
    pub threads: ThreadSet,
    pub objects: Store,
    pub max_threads: usize,
}

impl Execution {
    pub open spec fn wf(&self) -> bool {
        &&& self.threads.wf()
        &&& self.threads.max_threads == self.max_threads
        &&& self.path.wf()
        &&& objects_wf(self.objects.entries@, self.max_threads as nat)
        &&& forall|t: int|
            0 <= t < self.threads.threads@.len() ==> (#[trigger] self.threads.threads@[t]).operation
                is Some ==> {
                &&& self.threads.threads@[t].operation->Some_0.obj < self.objects.entries@.len()
                &&& branchable(
                    self.objects.entries@[self.threads.threads@[t].operation->Some_0.obj as int],
                )
            }
    }

    /// True when the execution is well formed; an execution handed back by code that
    /// reached into its fields is checked with this before further use.
    pub fn is_wf(&self) -> (r: bool)
        ensures
            r == self.wf(),
    {
        if !self.threads.is_wf() || self.threads.max_threads != self.max_threads
            || !self.path.is_wf() {
            return false;
        }
        let m = self.max_threads;
        let n = self.objects.entries.len();
        let mut k: usize = 0;
        while k < n
            invariant
                n == self.objects.entries@.len(),
                k <= n,
                m == self.max_threads,
                objects_wf(self.objects.entries@.take(k as int), m as nat),
            decreases n - k,
        {
            if !entry_is_wf(&self.objects.entries[k], m) {
                assert(!entry_wf(self.objects.entries@[k as int], m as nat));
                return false;
            }
            assert(self.objects.entries@.take(k + 1) =~= self.objects.entries@.take(k as int).push(
                self.objects.entries@[k as int],
            ));
            k = k + 1;
        }
        assert(self.objects.entries@.take(n as int) =~= self.objects.entries@);
        let t = self.threads.threads.len();
        let mut i: usize = 0;
        while i < t
            invariant
                t == self.threads.threads@.len(),
                n == self.objects.entries@.len(),
                i <= t,
                forall|j: int|
                    0 <= j < i ==> (#[trigger] self.threads.threads@[j]).operation is Some ==> {
                        &&& self.threads.threads@[j].operation->Some_0.obj
                            < self.objects.entries@.len()
                        &&& branchable(
                            self.objects.entries@[self.threads.threads@[j].operation->Some_0.obj as int],
                        )
                    },
            decreases t - i,
        {
            if let Some(op) = self.threads.threads[i].operation {
                assert(self.threads.threads@[i as int].operation == Some(op));
                if op.obj >= n {
                    return false;
                }
                let ok = match &self.objects.entries[op.obj] {
                    Entry::Alloc(_) | Entry::Cell(_) => false,
                    _ => true,
                };
                if !ok {
                    return false;
                }
            }
            i = i + 1;
        }
        true
    }

    /// An execution at the start of an iteration: no objects, the main thread alone and
    /// running, and the path to follow.
    pub fn new(id: u64, max_threads: usize, path: Path) -> (r: Execution)
        requires
            max_threads >= 1,
            path.wf(),
        ensures
            r.wf(),
            r.id == id,
            r.max_threads == max_threads,
            r.path == path,
            r.objects.entries@.len() == 0,
            r.threads.threads@.len() == 1,
            r.threads.active == Some(0usize),
            r.threads.threads@[0].state == State::Runnable,
            r.threads.seq_cst_causality@ == Seq::new(max_threads as nat, |i: int| 0u64),
    {
        Execution {
            id,
            path,
            threads: ThreadSet::new(id, max_threads),
            objects: Store::with_capacity(0),
            max_threads,
        }
    }

    /// Ends the execution, handing back its path.
    pub fn into_path(self) -> (r: Path)
        ensures
            r == self.path,
    {
        self.path
    }

    /// Adds a thread, spawned by the active one: the new thread starts with the spawner's
    /// causality, and both threads' own clocks then advance.
    pub fn new_thread(&mut self) -> (r: Result<usize, Failure>)
        requires
            old(self).wf(),
            old(self).threads.active is Some,
        ensures
            final(self).wf(),
            final(self).threads.active == old(self).threads.active,
            final(self).objects == old(self).objects,
            final(self).path == old(self).path,
            old(self).threads.threads@.len() < old(self).max_threads ==> {
                let a = old(self).threads.active_index();
                let n = old(self).threads.threads@.len() as int;
                &&& r == Ok::<usize, Failure>(n as usize)
                &&& final(self).threads.threads@.len() == n + 1
                &&& final(self).threads.threads@[n].state == State::Runnable
                &&& final(self).threads.threads@[n].causality@ == vv_inc(
                    old(self).threads.active_thread().causality@,
                    n,
                )
                &&& final(self).threads.threads@[a].causality@ == vv_inc(
                    old(self).threads.active_thread().causality@,
                    a,
                )
            },
            old(self).threads.threads@.len() >= old(self).max_threads ==> r == Err::<
                usize,
                Failure,
            >(Failure::TooManyThreads) && *final(self) == *old(self),
    {
        let a = self.threads.active.unwrap();
        let id = match self.threads.new_thread() {
            Some(id) => id.as_usize(),
            None => return Err(Failure::TooManyThreads),
        };
        let c = self.threads.threads[a].causality.snapshot();
        let d = self.threads.threads[a].dpor_vv.snapshot();
        self.threads.threads[id].causality.join(&c);
        self.threads.threads[id].dpor_vv.join(&d);
        self.threads.threads[a].causality.inc(a);
        self.threads.threads[id].causality.inc(id);
        proof {
            let z = Seq::new(self.max_threads as nat, |i: int| 0u64);
            assert(vv_join(z, c@) =~= c@);
            assert(vv_join(z, d@) =~= d@);
            assert(self.threads.threads@[id as int].wf(self.max_threads as nat));
            assert(self.threads.threads@[a as int].wf(self.max_threads as nat));
            assert(self.threads.wf());
            assert forall|t: int|
                0 <= t < self.threads.threads@.len() && (
                #[trigger] self.threads.threads@[t]).operation is Some implies {
                &&& self.threads.threads@[t].operation->Some_0.obj < self.objects.entries@.len()
                &&& branchable(
                    self.objects.entries@[self.threads.threads@[t].operation->Some_0.obj as int],
                )
            } by {
                assert(t != id);
                assert(self.threads.threads@[t].operation == old(self).threads.threads@[t].operation);
            }
        }
        Ok(id)
    }

    /// Marks the active thread as about to perform `operation`.
    pub fn set_operation(&mut self, operation: Option<Operation>)
        requires
            old(self).wf(),
            old(self).threads.active is Some,
            operation is Some ==> operation->Some_0.obj < old(self).objects.entries@.len()
                && branchable(old(self).objects.entries@[operation->Some_0.obj as int]),
        ensures
            final(self).wf(),
            final(self).objects == old(self).objects,
            final(self).path == old(self).path,
            final(self).id == old(self).id,
            final(self).max_threads == old(self).max_threads,
            ThreadSet::only_thread_changed(
                old(self).threads,
                final(self).threads,
                old(self).threads.active_index(),
            ),
            final(self).threads.active_thread() == (Thread {
                operation,
                ..old(self).threads.active_thread()
            }),
    {
        let a = self.threads.active.unwrap();
        self.threads.threads[a].operation = operation;
    }

    /// Records in the path the threads whose next operation races with the last access
    /// of its object: a later run is to try them at that access's decision.
    fn backtrack_races(&mut self)
        requires
            old(self).wf(),
        ensures
            final(self).wf(),
            final(self).threads == old(self).threads,
            final(self).objects == old(self).objects,
            final(self).id == old(self).id,
            final(self).max_threads == old(self).max_threads,
            final(self).path.pos == old(self).path.pos,
            final(self).path.max_branches == old(self).path.max_branches,
            final(self).path.preemption_bound == old(self).path.preemption_bound,
            final(self).path.branches@.len() == old(self).path.branches@.len(),
            forall|j: int|
                0 <= j < old(self).path.branches@.len() ==> branch_measure(
                    #[trigger] final(self).path.branches@[j],
                ) <= branch_measure(old(self).path.branches@[j]),
            races_marked(
                *old(self),
                final(self).path.branches@,
                old(self).path.branches@.len() as int,
                old(self).path.preemption_bound,
            ),
    {
        let n = self.threads.threads.len();
        let mut i: usize = 0;
        while i < n
            invariant
                self.wf(),
                n == self.threads.threads@.len(),
                i <= n,
                self.threads == old(self).threads,
                self.objects == old(self).objects,
                self.id == old(self).id,
                self.max_threads == old(self).max_threads,
                self.path.pos == old(self).path.pos,
                self.path.max_branches == old(self).path.max_branches,
                self.path.preemption_bound == old(self).path.preemption_bound,
                self.path.branches@.len() == old(self).path.branches@.len(),
                forall|j: int|
                    0 <= j < old(self).path.branches@.len() ==> branch_measure(
                        #[trigger] self.path.branches@[j],
                    ) <= branch_measure(old(self).path.branches@[j]),
                forall|t: int|
                    0 <= t < i && #[trigger] races(*old(self), t) && race_point(*old(self), t)
                        < self.path.branches@.len() ==> explored_at(
                        self.path.branches@[race_point(*old(self), t)],
                        t,
                        old(self).path.preemption_bound,
                    ),
            decreases n - i,
        {
            let ghost before = self.path.branches@;
            if let Some(op) = self.threads.threads[i].operation {
                let access = self.objects.last_dependent_access(op);
                if let Some(access) = access {
                    if !access.happens_before(&self.threads.threads[i].dpor_vv) {
                        self.path.backtrack(access.path_id(), i);
                    }
                }
            }
            proof {
                assert forall|t: int|
                    0 <= t < i && #[trigger] races(*old(self), t) && race_point(*old(self), t)
                        < self.path.branches@.len() implies explored_at(
                    self.path.branches@[race_point(*old(self), t)],
                    t,
                    old(self).path.preemption_bound,
                ) by {
                    let p = race_point(*old(self), t);
                    assert(explored_at(before[p], t, old(self).path.preemption_bound));
                }
            }
            i = i + 1;
        }
    }

    /// The standings of the threads for a scheduling decision.
    fn seed(&self) -> (r: Vec<Sched>)
        ensures
            r@ == seed_of(self.threads.threads@),
    {
        let n = self.threads.threads.len();
        let mut seed: Vec<Sched> = Vec::with_capacity(n);
        let mut i: usize = 0;
        while i < n
            invariant
                n == self.threads.threads@.len(),
                i <= n,
                seed@ == seed_of(self.threads.threads@).take(i as int),
            decreases n - i,
        {
            let s = match self.threads.threads[i].state {
                State::Runnable => Sched::Skip,
                State::Yield => Sched::Yield,
                _ => Sched::Disabled,
            };
            seed.push(s);
            i = i + 1;
            assert(seed@ =~= seed_of(self.threads.threads@).take(i as int));
        }
        assert(seed@ =~= seed_of(self.threads.threads@));
        seed
    }

    /// True when every thread has terminated.
    pub fn all_terminated(&self) -> (r: bool)
        ensures
            r == forall|i: int|
                0 <= i < self.threads.threads@.len() ==> (#[trigger] self.threads.threads@[i]).state
                    == State::Terminated,
    {
        let n = self.threads.threads.len();
        let mut i: usize = 0;
        while i < n
            invariant
                n == self.threads.threads@.len(),
                i <= n,
                forall|j: int|
                    0 <= j < i ==> (#[trigger] self.threads.threads@[j]).state == State::Terminated,
            decreases n - i,
        {
            if !self.threads.threads[i].is_terminated() {
                return false;
            }
            i = i + 1;
        }
        true
    }

    /// Records the active thread's pending operation as the last access of its object,
    /// ordering it after the access it depends on.
    fn record_access(&mut self, path_id: usize)
        requires
            old(self).wf(),
            old(self).threads.active is Some,
        ensures
            final(self).wf(),
            final(self).path == old(self).path,
            final(self).id == old(self).id,
            final(self).max_threads == old(self).max_threads,
            final(self).objects.entries@.len() == old(self).objects.entries@.len(),
            forall|j: int|
                0 <= j < old(self).objects.entries@.len() ==> same_object(
                    old(self).objects.entries@[j],
                    #[trigger] final(self).objects.entries@[j],
                ),
            ThreadSet::only_thread_changed(
                old(self).threads,
                final(self).threads,
                old(self).threads.active_index(),
            ),
            final(self).threads.active_thread().causality == old(self).threads.active_thread().causality,
            final(self).threads.active_thread().state == old(self).threads.active_thread().state,
            final(self).threads.active_thread().operation == old(self).threads.active_thread().operation,
            final(self).threads.active_thread().id == old(self).threads.active_thread().id,
            same_but_state_and_dpor(final(self).threads.active_thread(), old(self).threads.active_thread()),
    {
        let a = self.threads.active.unwrap();
        if let Some(op) = self.threads.threads[a].operation {
            let access = self.objects.last_dependent_access(op);
            if let Some(access) = access {
                self.threads.threads[a].dpor_vv.join(access.version());
            }
            self.threads.threads[a].dpor_vv.inc(a);
            self.objects.set_last_access(op, path_id, &self.threads.threads[a].dpor_vv);
            proof {
                assert forall|t: int|
                    0 <= t < self.threads.threads@.len() && (
                    #[trigger] self.threads.threads@[t]).operation is Some implies {
                    &&& self.threads.threads@[t].operation->Some_0.obj
                        < self.objects.entries@.len()
                    &&& branchable(
                        self.objects.entries@[self.threads.threads@[t].operation->Some_0.obj as int],
                    )
                } by {
                    assert(old(self).threads.threads@[t].operation
                        == self.threads.threads@[t].operation);
                }
            }
        }
    }

    /// A scheduling point: picks, by the path, the thread that runs next. True when that
    /// is not the thread that was running. Inside a critical section the running thread
    /// goes on without a decision. Fails on a deadlock (no thread can run but some have
    /// not terminated) and when the path cannot follow the run.
    pub fn schedule(&mut self) -> (r: Result<bool, Failure>)
        requires
            old(self).wf(),
        ensures
            final(self).wf(),
            final(self).id == old(self).id,
            final(self).max_threads == old(self).max_threads,
            final(self).objects.entries@.len() == old(self).objects.entries@.len(),
            forall|j: int|
                0 <= j < old(self).objects.entries@.len() ==> same_object(
                    old(self).objects.entries@[j],
                    #[trigger] final(self).objects.entries@[j],
                ),
            final(self).threads.threads@.len() == old(self).threads.threads@.len(),
            final(self).threads.seq_cst_causality == old(self).threads.seq_cst_causality,
            forall|i: int|
                0 <= i < old(self).threads.threads@.len() ==> (#[trigger] final(self).threads.threads@[i]).causality == old(self).threads.threads@[i].causality,
            old(self).threads.active is Some && old(self).threads.active_thread().critical
                && old(self).threads.active_thread().state == State::Runnable ==> r == Ok::<
                bool,
                Failure,
            >(false) && *final(self) == *old(self),
            forall|i: int|
                0 <= i < old(self).threads.threads@.len() ==> (#[trigger] final(self).threads.threads@[i]).state == old(self).threads.threads@[i].state || (old(self).threads.threads@[i].state == State::Yield && final(self).threads.threads@[i].state
                    == State::Runnable),
            r is Ok ==> r->Ok_0 == (final(self).threads.active != old(self).threads.active),
            final(self).path.branches@.len() <= old(self).path.branches@.len() + 1,
            forall|i: int|
                0 <= i < old(self).threads.threads@.len() ==> same_but_state_and_dpor(
                    #[trigger] final(self).threads.threads@[i],
                    old(self).threads.threads@[i],
                ),
            !(old(self).threads.active is Some && old(self).threads.active_thread().critical
                && old(self).threads.active_thread().state == State::Runnable) ==> races_marked(
                *old(self),
                final(self).path.branches@,
                old(self).path.branches@.len() as int,
                old(self).path.preemption_bound,
            ),
            forall|j: int|
                0 <= j < old(self).path.branches@.len() ==> branch_measure(
                    #[trigger] final(self).path.branches@[j],
                ) <= branch_measure(old(self).path.branches@[j]),
            r is Ok && final(self).threads.active is None ==> forall|i: int|
                0 <= i < final(self).threads.threads@.len() ==> (#[trigger] final(self).threads.threads@[i]).state == State::Terminated,
            r is Ok && final(self).threads.active is Some ==> can_run(
                final(self).threads.active_thread().state,
            ),
            !(old(self).threads.active is Some && old(self).threads.active_thread().critical
                && old(self).threads.active_thread().state == State::Runnable) && old(self).path.pos == old(self).path.branches@.len() && old(self).path.branches@.len() < old(self).path.max_branches ==> r is Ok || r == Err::<bool, Failure>(Failure::Deadlock),
            !(old(self).threads.active is Some && old(self).threads.active_thread().critical
                && old(self).threads.active_thread().state == State::Runnable) && old(self).path.pos == old(self).path.branches@.len() && old(self).path.branches@.len() < old(self).path.max_branches ==> initial_choice(
                seed_of(old(self).threads.threads@),
                old(self).threads.active,
            ) == if r is Ok {
                final(self).threads.active
            } else {
                None
            },
    {
        if let Some(a) = self.threads.active {
            if self.threads.threads[a].critical && self.threads.threads[a].is_runnable() {
                return Ok(false);
            }
        }
        let ghost before = *self;
        self.backtrack_races();
        let ghost after_bt = self.path.branches@;
        let path_id = self.path.pos();
        let seed = self.seed();
        let prev = self.threads.active;
        let res = self.path.branch_thread(seed, prev);
        proof {
            assert forall|j: int| 0 <= j < after_bt.len() implies #[trigger] self.path.branches@[j]
                == after_bt[j] by {
                if after_bt.len() < self.path.branches@.len() {
                    assert(self.path.branches@.drop_last()[j] == self.path.branches@[j]);
                }
            }
            assert(races_marked(
                before,
                self.path.branches@,
                before.path.branches@.len() as int,
                before.path.preemption_bound,
            ));
        }
        let next = match res {
            Ok(next) => next,
            Err(e) => return Err(e),
        };
        proof {
            lemma_initial_choice_can_run(seed_of(self.threads.threads@), prev);
            assert forall|j: int| 0 <= j < after_bt.len() implies #[trigger] self.path.branches@[j]
                == after_bt[j] by {
                if after_bt.len() < self.path.branches@.len() {
                    assert(self.path.branches@.drop_last()[j] == self.path.branches@[j]);
                }
            }
        }
        self.threads.set_active(next);
        let switched = next != prev;
        match next {
            None => {
                if self.all_terminated() {
                    return Ok(switched);
                }
                return Err(Failure::Deadlock);
            },
            Some(c) => {
                self.record_access(path_id);
                self.wake_yielded(c);
                Ok(switched)
            },
        }
    }

    /// Threads that yielded, other than `active`, can run again.
    fn wake_yielded(&mut self, active: usize)
        requires
            old(self).wf(),
            old(self).threads.active == Some(active),
            can_run(old(self).threads.active_thread().state),
        ensures
            final(self).wf(),
            final(self).path == old(self).path,
            final(self).objects == old(self).objects,
            final(self).id == old(self).id,
            final(self).max_threads == old(self).max_threads,
            final(self).threads.active == old(self).threads.active,
            final(self).threads.seq_cst_causality == old(self).threads.seq_cst_causality,
            final(self).threads.execution_id == old(self).threads.execution_id,
            final(self).threads.threads@.len() == old(self).threads.threads@.len(),
            final(self).threads.active_thread().state == old(self).threads.active_thread().state,
            forall|i: int|
                0 <= i < old(self).threads.threads@.len() ==> (#[trigger] final(self).threads.threads@[i]).causality == old(self).threads.threads@[i].causality,
            forall|i: int|
                0 <= i < old(self).threads.threads@.len() ==> (#[trigger] final(self).threads.threads@[i]).state == old(self).threads.threads@[i].state || (old(self).threads.threads@[i].state == State::Yield && final(self).threads.threads@[i].state == State::Runnable),
            forall|j: int|
                0 <= j < old(self).threads.threads@.len() ==> same_but_state_and_dpor(#[trigger] final(self).threads.threads@[j], old(self).threads.threads@[j]),
    {
        let n = self.threads.threads.len();
        let mut i: usize = 0;
        while i < n
            invariant
                self.wf(),
                n == self.threads.threads@.len(),
                n == old(self).threads.threads@.len(),
                i <= n,
                self.path == old(self).path,
                self.objects == old(self).objects,
                self.id == old(self).id,
                self.max_threads == old(self).max_threads,
                self.threads.active == Some(active),
                self.threads.seq_cst_causality == old(self).threads.seq_cst_causality,
                self.threads.execution_id == old(self).threads.execution_id,
                self.threads.active_thread().state == old(self).threads.active_thread().state,
                forall|j: int|
                    0 <= j < n ==> (#[trigger] self.threads.threads@[j]).causality == old(self).threads.threads@[j].causality,
                forall|j: int|
                    0 <= j < n ==> (#[trigger] self.threads.threads@[j]).state == old(self).threads.threads@[j].state || (old(self).threads.threads@[j].state == State::Yield && self.threads.threads@[j].state == State::Runnable),
                forall|j: int|
                    0 <= j < n ==> same_but_state_and_dpor(#[trigger] self.threads.threads@[j], old(self).threads.threads@[j]),
                forall|j: int|
                    0 <= j < n ==> (#[trigger] self.threads.threads@[j]).dpor_vv == old(self).threads.threads@[j].dpor_vv,
            decreases n - i,
        {
            if i != active && self.threads.threads[i].is_yield() {
                self.threads.threads[i].set_runnable();
            }
            i = i + 1;
        }
    }
}

/// A thread that may be chosen to run: runnable, or yielded.
pub open spec fn can_run(state: State) -> bool {
    state == State::Runnable || state == State::Yield
}

/// A new scheduling decision picks a thread that can run.
proof fn lemma_initial_choice_can_run(seed: Seq<Sched>, prev: Option<usize>)
    requires
        seed.len() <= usize::MAX,
    ensures
        initial_choice(seed, prev) is Some ==> {
            let c = initial_choice(seed, prev)->Some_0;
            c < seed.len() && (seed[c as int] == Sched::Skip || seed[c as int] == Sched::Yield)
        },
{
    lemma_first_from_bounds(seed, Sched::Skip, 0);
    lemma_first_from_bounds(seed, Sched::Yield, 0);
}

} // verus!
