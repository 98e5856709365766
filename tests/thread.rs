use loom::failure::Failure;
use loom::model::{finish_iteration, Builder, IterationPlan};
use loom::mutex::{Mutex, TryLockError};
use loom::rt::{critical, park, spawn, thread_done, yield_now};
use loom::thread::{LocalKeyId, LocalValue, State, ThreadSet};
use loom::vv::VersionVec;

#[test]
fn spawn_beyond_the_maximum_fails() {
    let mut builder = Builder::new();
    builder.max_threads = 2;
    let mut e = builder.begin_iteration(1, builder.new_path());
    assert_eq!(spawn(&mut e), Ok(1));
    assert_eq!(spawn(&mut e), Err(Failure::TooManyThreads));
    assert_eq!(e.threads.len(), 2);
}

#[test]
fn spawned_thread_inherits_causality() {
    let builder = Builder::new();
    let mut e = builder.begin_iteration(1, builder.new_path());
    assert_eq!(spawn(&mut e), Ok(1));
    let main = &e.threads.threads[0];
    let child = &e.threads.threads[1];
    // Each thread's own clock advanced; the child saw everything main had seen.
    assert_eq!(main.causality.get(0), 1);
    assert_eq!(child.causality.get(0), 0);
    assert_eq!(child.causality.get(1), 1);
    assert_eq!(child.state, State::Runnable);
}

#[test]
fn parking_the_only_thread_deadlocks() {
    let builder = Builder::new();
    let mut e = builder.begin_iteration(1, builder.new_path());
    assert_eq!(park(&mut e), Err(Failure::Deadlock));
}

#[test]
fn parked_thread_runs_again_after_unpark() {
    let builder = Builder::new();
    let mut e = builder.begin_iteration(1, builder.new_path());
    assert_eq!(spawn(&mut e), Ok(1));
    assert_eq!(park(&mut e), Ok(true));
    assert_eq!(e.threads.active, Some(1));
    e.threads.unpark(0);
    assert_eq!(e.threads.threads[0].state, State::Runnable);
    assert_eq!(thread_done(&mut e), Ok(true));
    assert_eq!(e.threads.active, Some(0));
    assert_eq!(thread_done(&mut e), Ok(true));
    assert_eq!(e.threads.active, None);
    let (_, more) = finish_iteration(e);
    assert_eq!(more, Ok(false));
}

#[test]
fn yield_lets_the_other_thread_run_first() {
    let builder = Builder::new();
    let mut e = builder.begin_iteration(1, builder.new_path());
    assert_eq!(spawn(&mut e), Ok(1));
    assert_eq!(yield_now(&mut e), Ok(true));
    assert_eq!(e.threads.active, Some(1));
    assert_eq!(e.threads.threads[0].yield_count, 1);
    // Once another thread was chosen, the yielded one can run again.
    assert_eq!(e.threads.threads[0].state, State::Runnable);
}

#[test]
fn critical_section_does_not_switch() {
    let builder = Builder::new();
    let mut e = builder.begin_iteration(1, builder.new_path());
    assert_eq!(spawn(&mut e), Ok(1));
    let (e, switched) = critical(e, |mut e| {
        let r = yield_now_in_critical(&mut e);
        (e, r)
    });
    assert_eq!(switched, Ok(false));
    assert_eq!(e.threads.active, Some(0));
    assert!(!e.threads.threads[0].critical);
}

fn yield_now_in_critical(e: &mut loom::execution::Execution) -> Result<bool, Failure> {
    // A runnable thread in a critical section keeps running at a scheduling point.
    e.schedule()
}

#[test]
fn thread_locals_are_destroyed_with_the_thread() {
    let mut threads = ThreadSet::new(1, 2);
    let key = LocalKeyId::new(7);
    assert!(threads.local(key).is_none());
    assert!(threads.local_init(key, 42));
    assert!(!threads.local_init(key, 43));
    assert_eq!(threads.local(key), Some(Ok(42)));
    let handles = threads.threads[0].drop_locals();
    assert_eq!(handles, vec![42]);
    let after = threads.local(key).unwrap();
    assert!(after.is_err());
    assert_eq!(after.unwrap_err().message(), "already destroyed");
}

#[test]
fn local_value_get() {
    assert_eq!(LocalValue::new(5).get(), Ok(5));
    assert!(LocalValue(None).get().is_err());
}

#[test]
fn mutex_lock_and_try_lock() {
    let builder = Builder::new();
    let mut e = builder.begin_iteration(1, builder.new_path());
    let m = Mutex::new(&mut e, 10u32);
    assert!(!m.is_locked(&e));
    assert_eq!(m.branch_lock(&mut e), Ok(false));
    let guard = m.lock(&mut e).unwrap();
    assert_eq!(*guard.get(), 10);
    assert!(m.is_locked(&e));
    assert!(matches!(m.try_lock(&mut e), Err(TryLockError::WouldBlock)));
    assert_eq!(guard.unlock(&mut e), Ok(()));
    assert!(!m.is_locked(&e));
    let again = m.try_lock(&mut e).unwrap();
    assert_eq!(again.unlock(&mut e), Ok(()));
}

#[test]
fn unlocking_from_another_thread_fails() {
    let builder = Builder::new();
    let mut e = builder.begin_iteration(1, builder.new_path());
    let m = Mutex::new(&mut e, ());
    assert_eq!(spawn(&mut e), Ok(1));
    let guard = m.lock(&mut e).unwrap();
    assert_eq!(yield_now(&mut e), Ok(true));
    assert_eq!(e.threads.active, Some(1));
    assert_eq!(guard.unlock(&mut e), Err(Failure::NotLockOwner));
}

#[test]
fn mutex_unlock_publishes_causality() {
    let builder = Builder::new();
    let mut e = builder.begin_iteration(1, builder.new_path());
    let m = Mutex::new(&mut e, ());
    assert_eq!(spawn(&mut e), Ok(1));
    let guard = m.lock(&mut e).unwrap();
    let main_clock = e.threads.active().causality.get(0);
    assert_eq!(guard.unlock(&mut e), Ok(()));
    assert_eq!(thread_done(&mut e), Ok(true));
    assert_eq!(e.threads.active, Some(1));
    assert!(e.threads.active().causality.get(0) < main_clock);
    let guard = m.lock(&mut e).unwrap();
    assert!(e.threads.active().causality.get(0) >= main_clock);
    assert_eq!(guard.unlock(&mut e), Ok(()));
}

#[test]
fn leaked_object_fails_the_iteration() {
    let builder = Builder::new();
    let mut e = builder.begin_iteration(1, builder.new_path());
    e.objects.insert(loom::object::Entry::Alloc(loom::object::AllocState { is_dropped: false }));
    assert_eq!(thread_done(&mut e), Ok(true));
    let (_, more) = finish_iteration(e);
    assert_eq!(more, Err(Failure::Leak));
}

#[test]
fn dropped_allocation_is_no_leak() {
    let builder = Builder::new();
    let mut e = builder.begin_iteration(1, builder.new_path());
    e.objects.insert(loom::object::Entry::Alloc(loom::object::AllocState { is_dropped: true }));
    assert_eq!(thread_done(&mut e), Ok(true));
    let (_, more) = finish_iteration(e);
    assert_eq!(more, Ok(false));
}

#[test]
fn builder_defaults_and_checkpoint_file() {
    let mut builder = Builder::new();
    assert_eq!(builder.max_threads, 4);
    assert_eq!(builder.max_branches, 1000);
    assert_eq!(builder.checkpoint_interval, 20000);
    assert!(builder.max_permutations.is_none());
    builder.checkpoint_file("progress.json").max_threads = 3;
    assert_eq!(builder.checkpoint_file.as_deref(), Some("progress.json"));
    assert_eq!(builder.max_threads, 3);
}

#[test]
fn iteration_plan_stops_at_the_permutation_limit() {
    let mut builder = Builder::new();
    builder.checkpoint_interval = 10;
    builder.max_permutations = Some(20);
    let quiet = IterationPlan { report: false, checkpoint: false, stop: false };
    assert_eq!(builder.plan_iteration(9, 0), quiet);
    assert_eq!(
        builder.plan_iteration(10, 0),
        IterationPlan { report: true, checkpoint: false, stop: false }
    );
    assert_eq!(
        builder.plan_iteration(20, 0),
        IterationPlan { report: true, checkpoint: false, stop: true }
    );
    builder.checkpoint_file("c.json");
    builder.max_duration_secs = Some(5);
    assert_eq!(
        builder.plan_iteration(10, 5),
        IterationPlan { report: true, checkpoint: true, stop: true }
    );
    assert_eq!(builder.plan_iteration(11, 99), quiet);
}

#[test]
fn version_vectors_order_and_join() {
    let mut a = VersionVec::new(3);
    let mut b = VersionVec::new(3);
    a.inc(0);
    b.inc(1);
    b.inc(1);
    assert!(!a.le(&b));
    assert!(!b.le(&a));
    let mut j = a.snapshot();
    j.join(&b);
    assert_eq!((j.get(0), j.get(1), j.get(2)), (1, 2, 0));
    assert!(a.le(&j) && b.le(&j));
    assert!(VersionVec::new(3).le(&a));
}

#[test]
fn well_formedness_is_checked() {
    let builder = Builder::new();
    let mut e = builder.begin_iteration(1, builder.new_path());
    assert!(e.is_wf());
    // A pending operation on an object that does not exist.
    e.threads.threads[0].operation = Some(loom::object::Operation::new(
        loom::object::Ref::from_usize(3),
        loom::object::Action::Opaque,
    ));
    assert!(!e.is_wf());
}
