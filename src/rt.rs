use vstd::prelude::*;

use crate::execution::{can_run, same_but_state_and_dpor, seed_of, Execution};
use crate::path::{initial_choice, lemma_first_from_none, Sched};
use crate::failure::Failure;
use crate::object::{branchable, same_object, Action, Operation, Ref};
use crate::thread::{State, Thread, ThreadSet};
use crate::vv::vv_inc;

verus! {

/// `e` can run an operation of its active thread.
pub open spec fn running(e: Execution) -> bool {
    e.wf() && e.threads.active is Some
}

/// The active thread of `old` gave up its turn in `new` by becoming `state`: its pending
/// operation is cleared, a yield records the thread's own clock and counts, and every
/// other thread keeps all but its reduction clock, its state changing only from yielded to
/// runnable.
pub open spec fn finished_as(old: Execution, new: Execution, state: State) -> bool {
    let a = old.threads.active_index();
    let th = old.threads.active_thread();
    let nth = new.threads.threads@[a];
    &&& nth.operation is None
    &&& nth.causality == th.causality
    &&& nth.critical == th.critical
    &&& state == State::Yield ==> {
        &&& nth.last_yield == Some(th.causality@[a])
        &&& nth.yield_count == if th.yield_count == usize::MAX {
            th.yield_count
        } else {
            (th.yield_count + 1) as usize
        }
    }
    &&& state != State::Yield ==> nth.last_yield == th.last_yield && nth.yield_count
        == th.yield_count
    &&& forall|i: int|
        0 <= i < old.threads.threads@.len() && i != a ==> same_but_state_and_dpor(
            #[trigger] new.threads.threads@[i],
            old.threads.threads@[i],
        ) && (new.threads.threads@[i].state == old.threads.threads@[i].state || (
        old.threads.threads@[i].state == State::Yield && new.threads.threads@[i].state
            == State::Runnable))
}

/// Spawns a thread from the active one and returns its index. The new thread starts with
/// the spawner's causality. Fails with `TooManyThreads` when the table is full.
pub fn spawn(e: &mut Execution) -> (r: Result<usize, Failure>)
    requires
        running(*old(e)),
    ensures
        running(*final(e)),
        final(e).threads.active == old(e).threads.active,
        old(e).threads.threads@.len() < old(e).max_threads ==> {
            &&& r == Ok::<usize, Failure>(old(e).threads.threads@.len() as usize)
            &&& final(e).threads.threads@.len() == old(e).threads.threads@.len() + 1
            &&& final(e).threads.threads@.last().state == State::Runnable
            &&& final(e).threads.threads@.last().causality@ == vv_inc(
                old(e).threads.active_thread().causality@,
                old(e).threads.threads@.len() as int,
            )
        },
        old(e).threads.threads@.len() >= old(e).max_threads ==> r == Err::<usize, Failure>(
            Failure::TooManyThreads,
        ) && *final(e) == *old(e),
{
    e.new_thread()
}

/// Clears the active thread's pending operation, sets its state to `state` and schedules:
/// true when another thread was chosen. The caller switches to it.
fn finish_step(e: &mut Execution, state: State) -> (r: Result<bool, Failure>)
    requires
        running(*old(e)),
    ensures
        final(e).wf(),
        final(e).threads.threads@.len() == old(e).threads.threads@.len(),
        final(e).threads.threads@[old(e).threads.active_index()].state == state || (state
            == State::Yield && final(e).threads.threads@[old(e).threads.active_index()].state
            == State::Runnable),
        r is Ok ==> r->Ok_0 == (final(e).threads.active != old(e).threads.active),
        r is Ok && final(e).threads.active is Some ==> can_run(
            final(e).threads.active_thread().state,
        ),
        r is Ok && final(e).threads.active is None ==> forall|i: int|
            0 <= i < final(e).threads.threads@.len() ==> (#[trigger] final(e).threads.threads@[i]).state == State::Terminated,
        finished_as(*old(e), *final(e), state),
{
    e.set_operation(None);
    let a = e.threads.active.unwrap();
    match state {
        State::Blocked => e.threads.threads[a].set_blocked(),
        State::Terminated => e.threads.threads[a].set_terminated(),
        State::Yield => e.threads.threads[a].set_yield(),
        State::Runnable => e.threads.threads[a].set_runnable(),
    }
    let ghost mid = *e;
    let r = e.schedule();
    proof {
        if state != State::Runnable {
            assert(!(mid.threads.active_thread().critical && mid.threads.active_thread().state
                == State::Runnable));
        }
    }
    r
}

/// Blocks the active thread until another thread unparks it, and schedules. The caller
/// always switches away afterwards. A thread that parks while it is the only thread has
/// deadlocked.
pub fn park(e: &mut Execution) -> (r: Result<bool, Failure>)
    requires
        running(*old(e)),
    ensures
        final(e).wf(),
        final(e).threads.threads@.len() == old(e).threads.threads@.len(),
        final(e).threads.threads@[old(e).threads.active_index()].state == State::Blocked,
        finished_as(*old(e), *final(e), State::Blocked),
        r is Ok ==> r == Ok::<bool, Failure>(true),
        old(e).threads.threads@.len() == 1 && old(e).path.pos == old(e).path.branches@.len()
            && old(e).path.branches@.len() < old(e).path.max_branches ==> r == Err::<
            bool,
            Failure,
        >(Failure::Deadlock),
{
    e.set_operation(None);
    let a = e.threads.active.unwrap();
    e.threads.threads[a].set_blocked();
    let ghost before = *e;
    let r = e.schedule();
    proof {
        if old(e).threads.threads@.len() == 1 && old(e).path.pos == old(e).path.branches@.len()
            && old(e).path.branches@.len() < old(e).path.max_branches {
            let seed = seed_of(before.threads.threads@);
            assert(seed.len() == 1);
            assert(seed[0] == Sched::Disabled);
            lemma_first_from_none(seed, Sched::Skip, 0);
            lemma_first_from_none(seed, Sched::Yield, 0);
            assert(initial_choice(seed, before.threads.active) is None);
            if r is Ok {
                assert(e.threads.threads@[0].state == State::Blocked);
            }
        }
        let a = old(e).threads.active_index();
        if r is Ok && e.threads.active is Some {
            assert(e.threads.active_thread().state != State::Blocked);
            assert(e.threads.active != Some(a as usize));
        }
        if r is Ok && e.threads.active is None {
            assert(e.threads.threads@[a].state == State::Terminated);
        }
    }
    r
}

/// Yields the active thread: other threads may run first; it runs again only when no
/// other thread can. True when another thread was chosen.
pub fn yield_now(e: &mut Execution) -> (r: Result<bool, Failure>)
    requires
        running(*old(e)),
    ensures
        final(e).wf(),
        final(e).threads.threads@.len() == old(e).threads.threads@.len(),
        can_run(final(e).threads.threads@[old(e).threads.active_index()].state),
        finished_as(*old(e), *final(e), State::Yield),
        r is Ok ==> final(e).threads.active is Some,
        r is Ok ==> r->Ok_0 == (final(e).threads.active != old(e).threads.active),
{
    let r = finish_step(e, State::Yield);
    proof {
        let a = old(e).threads.active_index();
        if r is Ok && e.threads.active is None {
            assert(e.threads.threads@[a].state == State::Terminated);
        }
    }
    r
}

/// Terminates the active thread and schedules the next one, if any: it always switches
/// away. Fails with `Deadlock` when threads remain but none can run.
pub fn thread_done(e: &mut Execution) -> (r: Result<bool, Failure>)
    requires
        running(*old(e)),
    ensures
        final(e).wf(),
        final(e).threads.threads@.len() == old(e).threads.threads@.len(),
        final(e).threads.threads@[old(e).threads.active_index()].state == State::Terminated,
        finished_as(*old(e), *final(e), State::Terminated),
        r is Ok ==> r == Ok::<bool, Failure>(true),
        r is Ok && final(e).threads.active is None ==> forall|i: int|
            0 <= i < final(e).threads.threads@.len() ==> (#[trigger] final(e).threads.threads@[i]).state == State::Terminated,
{
    let r = finish_step(e, State::Terminated);
    proof {
        let a = old(e).threads.active_index();
        if r is Ok && e.threads.active is Some {
            assert(e.threads.active_thread().state != State::Terminated);
            assert(e.threads.active != Some(a as usize));
        }
    }
    r
}

/// A scheduling point before the active thread performs `action` on object `obj`. True
/// when another thread was chosen to run first.
pub fn branch_action(e: &mut Execution, obj: Ref<()>, action: Action) -> (r: Result<bool, Failure>)
    requires
        running(*old(e)),
        obj.index < old(e).objects.entries@.len(),
        branchable(old(e).objects.entries@[obj.index as int]),
    ensures
        final(e).wf(),
        final(e).threads.threads@.len() == old(e).threads.threads@.len(),
        final(e).objects.entries@.len() == old(e).objects.entries@.len(),
        forall|j: int|
            0 <= j < old(e).objects.entries@.len() ==> same_object(
                old(e).objects.entries@[j],
                #[trigger] final(e).objects.entries@[j],
            ),
        r is Ok ==> r->Ok_0 == (final(e).threads.active != old(e).threads.active),
        r is Ok && final(e).threads.active is Some ==> can_run(
            final(e).threads.active_thread().state,
        ),
{
    e.set_operation(Some(Operation::new(obj, action)));
    e.schedule()
}

/// A scheduling point with no dependencies of its own on earlier accesses of `obj`.
pub fn branch_opaque(e: &mut Execution, obj: Ref<()>) -> (r: Result<bool, Failure>)
    requires
        running(*old(e)),
        obj.index < old(e).objects.entries@.len(),
        branchable(old(e).objects.entries@[obj.index as int]),
    ensures
        final(e).wf(),
        final(e).threads.threads@.len() == old(e).threads.threads@.len(),
        final(e).objects.entries@.len() == old(e).objects.entries@.len(),
        forall|j: int|
            0 <= j < old(e).objects.entries@.len() ==> same_object(
                old(e).objects.entries@[j],
                #[trigger] final(e).objects.entries@[j],
            ),
        r is Ok ==> r->Ok_0 == (final(e).threads.active != old(e).threads.active),
        r is Ok && final(e).threads.active is Some ==> can_run(
            final(e).threads.active_thread().state,
        ),
{
    branch_action(e, obj, Action::Opaque)
}

/// A scheduling point before acquiring `obj`; when it is held by another thread the active
/// thread blocks until it is released.
pub fn branch_acquire(e: &mut Execution, obj: Ref<()>, is_locked: bool) -> (r: Result<
    bool,
    Failure,
>)
    requires
        running(*old(e)),
        obj.index < old(e).objects.entries@.len(),
        branchable(old(e).objects.entries@[obj.index as int]),
    ensures
        final(e).wf(),
        final(e).threads.threads@.len() == old(e).threads.threads@.len(),
        final(e).objects.entries@.len() == old(e).objects.entries@.len(),
        forall|j: int|
            0 <= j < old(e).objects.entries@.len() ==> same_object(
                old(e).objects.entries@[j],
                #[trigger] final(e).objects.entries@[j],
            ),
        r is Ok ==> r->Ok_0 == (final(e).threads.active != old(e).threads.active),
        r is Ok && final(e).threads.active is Some ==> can_run(
            final(e).threads.active_thread().state,
        ),
        is_locked ==> final(e).threads.threads@[old(e).threads.active_index()].state
            == State::Blocked,
        is_locked && r is Ok ==> r == Ok::<bool, Failure>(true),
{
    e.set_operation(Some(Operation::new(obj, Action::Opaque)));
    let a = e.threads.active.unwrap();
    if is_locked {
        e.threads.threads[a].set_blocked();
    }
    let r = e.schedule();
    proof {
        if is_locked && r is Ok && e.threads.active is Some {
            assert(e.threads.active_thread().state != State::Blocked);
            assert(e.threads.active != Some(a));
        }
        if is_locked && r is Ok && e.threads.active is None {
            assert(e.threads.threads@[a as int].state == State::Terminated);
        }
    }
    r
}

/// Runs `f` as a critical section of the active thread: no scheduling decision is made
/// while it runs, unless the thread blocks.
pub fn critical<F, R>(e: Execution, f: F) -> (r: (Execution, R))
    where
        F: FnOnce(Execution) -> (Execution, R),
    requires
        running(e),
        forall|x: Execution| running(x) ==> #[trigger] f.requires((x,)),
        forall|x: Execution, y: (Execution, R)| #[trigger]
            f.ensures((x,), y) ==> y.0.wf() && y.0.threads.threads@.len() >= x.threads.threads@.len(),
    ensures
        r.0.wf(),
        e.threads.active_index() < r.0.threads.threads@.len(),
        !r.0.threads.threads@[e.threads.active_index()].critical,
        exists|x: Execution, y: (Execution, R)|
            {
                &&& #[trigger] f.ensures((x,), y)
                &&& x.threads.active == e.threads.active
                &&& ThreadSet::only_thread_changed(e.threads, x.threads, e.threads.active_index())
                &&& x.threads.active_thread() == (Thread { critical: true, ..e.threads.active_thread() })
                &&& x.objects == e.objects
                &&& x.path == e.path
                &&& r.1 == y.1
                &&& r.0.path == y.0.path
                &&& r.0.objects == y.0.objects
                &&& ThreadSet::only_thread_changed(y.0.threads, r.0.threads, e.threads.active_index())
                &&& r.0.threads.threads@[e.threads.active_index()] == (Thread {
                    critical: false,
                    ..y.0.threads.threads@[e.threads.active_index()]
                })
            },
{
    let mut e = e;
    let a = e.threads.active.unwrap();
    e.threads.threads[a].critical = true;
    let ghost x = e;
    let res = f(e);
    let ghost y = res;
    let (mut e2, r) = res;
    e2.threads.threads[a].critical = false;
    proof {
        assert(f.ensures((x,), y));
    }
    (e2, r)
}

} // verus!
