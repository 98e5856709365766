use loom::atomic::{fence, Atomic, AtomicAction};
use loom::execution::Execution;
use loom::failure::Failure;
use loom::model::{finish_iteration, Builder};
use loom::path::Path;
use loom::rt::{spawn, thread_done, yield_now};
use loom::synchronize::Ordering;

fn begin(builder: &Builder, id: u64, path: Path) -> Execution {
    builder.begin_iteration(id, path)
}

/// Main (thread A) creates an atomic, spawns thread B, stores with `store_order` and ends;
/// B then loads with `load_order`. Returns, for every iteration, the store index B read,
/// B's view of A's clock after the load, and A's clock when it stored.
fn release_acquire_runs(store_order: Ordering, load_order: Ordering) -> Vec<(usize, u64, u64)> {
    let builder = Builder::new();
    let mut path = builder.new_path();
    let mut seen = Vec::new();
    for id in 1..=16u64 {
        let mut e = begin(&builder, id, path);
        let x = Atomic::new(&mut e);
        assert_eq!(spawn(&mut e), Ok(1));
        let a_clock = e.threads.active().causality.get(0);
        x.store(&mut e, store_order);
        assert_eq!(thread_done(&mut e), Ok(true));
        assert_eq!(e.threads.active, Some(1));
        let index = x.load(&mut e, load_order).unwrap();
        let b_view = e.threads.active().causality.get(0);
        seen.push((index, b_view, a_clock));
        assert_eq!(thread_done(&mut e), Ok(true));
        assert_eq!(e.threads.active, None);
        let (next, more) = finish_iteration(e);
        path = next;
        if !more.unwrap() {
            return seen;
        }
    }
    panic!("the search did not end");
}

#[test]
fn release_store_observed_by_acquire_load_joins_causality() {
    let runs = release_acquire_runs(Ordering::Release, Ordering::Acquire);
    // B may observe the stored value or the initial one, newest first.
    let indices: Vec<usize> = runs.iter().map(|r| r.0).collect();
    assert_eq!(indices, vec![1, 0]);
    for (index, b_view, a_clock) in runs {
        if index == 1 {
            assert!(b_view >= a_clock);
        } else {
            assert!(b_view < a_clock);
        }
    }
}

#[test]
fn relaxed_load_does_not_join_causality() {
    let runs = release_acquire_runs(Ordering::Release, Ordering::Relaxed);
    assert_eq!(runs.len(), 2);
    for (_, b_view, a_clock) in runs {
        assert!(b_view < a_clock);
    }
}

#[test]
fn yielded_thread_reads_only_newer_stores() {
    let builder = Builder::new();
    let mut path = builder.new_path();
    let mut indices = Vec::new();
    loop {
        let mut e = begin(&builder, 1, path);
        let x = Atomic::new(&mut e);
        assert_eq!(spawn(&mut e), Ok(1));
        // Main saw the initial store, then yields: thread 1 runs and stores.
        assert_eq!(yield_now(&mut e), Ok(true));
        assert_eq!(e.threads.active, Some(1));
        x.store(&mut e, Ordering::Relaxed);
        assert_eq!(thread_done(&mut e), Ok(true));
        assert_eq!(e.threads.active, Some(0));
        indices.push(x.load(&mut e, Ordering::Relaxed).unwrap());
        assert_eq!(thread_done(&mut e), Ok(true));
        let (next, more) = finish_iteration(e);
        path = next;
        if !more.unwrap() {
            break;
        }
    }
    // What main saw before yielding is stale: only the newer store can be read.
    assert_eq!(indices, vec![1]);
}

#[test]
fn rmw_on_fresh_atomic_targets_initial_store() {
    let builder = Builder::new();
    let mut e = begin(&builder, 1, builder.new_path());
    let x = Atomic::new(&mut e);
    let failed: Result<usize, &str> = x.rmw(&mut e, |i| {
        assert_eq!(i, 0);
        Err("no")
    }, Ordering::AcqRel, Ordering::Acquire);
    assert_eq!(failed, Err("no"));
    assert_eq!(stores_of(&e, x), 1);
    let done: Result<usize, &str> = x.rmw(&mut e, |i| {
        assert_eq!(i, 0);
        Ok(())
    }, Ordering::AcqRel, Ordering::Acquire);
    assert_eq!(done, Ok(0));
    assert_eq!(stores_of(&e, x), 2);
    let next: Result<usize, &str> = x.rmw(&mut e, |_| Ok(()), Ordering::SeqCst, Ordering::Relaxed);
    assert_eq!(next, Ok(1));
    assert_eq!(stores_of(&e, x), 3);
}

fn stores_of(e: &Execution, x: Atomic) -> usize {
    match &e.objects.entries[x.obj.index] {
        loom::object::Entry::Atomic(s) => s.stores.len(),
        _ => panic!("not an atomic"),
    }
}

#[test]
fn get_mut_requires_every_store_to_happen_before() {
    let builder = Builder::new();
    let mut e = begin(&builder, 1, builder.new_path());
    let x = Atomic::new(&mut e);
    // The initial store was made by this thread.
    assert_eq!(x.get_mut(&e), Ok(()));
    assert_eq!(spawn(&mut e), Ok(1));
    assert_eq!(yield_now(&mut e), Ok(true));
    x.store(&mut e, Ordering::Release);
    assert_eq!(thread_done(&mut e), Ok(true));
    // Main has not synchronized with thread 1's store.
    assert_eq!(x.get_mut(&e), Err(Failure::UnsyncAccess));
    // An acquire load of that store orders it before main.
    assert_eq!(x.load(&mut e, Ordering::Acquire), Ok(1));
    assert_eq!(x.get_mut(&e), Ok(()));
}

#[test]
fn concurrent_relaxed_store_is_an_unsynchronized_access() {
    let builder = Builder::new();
    let mut e = begin(&builder, 1, builder.new_path());
    let x = Atomic::new(&mut e);
    assert_eq!(spawn(&mut e), Ok(1));
    // Main stores with Relaxed; thread 1 was spawned before and never synchronizes.
    x.store(&mut e, Ordering::Relaxed);
    assert_eq!(x.get_mut(&e), Ok(()));
    assert_eq!(thread_done(&mut e), Ok(true));
    assert_eq!(e.threads.active, Some(1));
    assert_eq!(x.get_mut(&e), Err(Failure::UnsyncAccess));
    // A relaxed store releases nothing: even an acquire load of it does not order it.
    assert_eq!(x.load(&mut e, Ordering::Acquire).map(|i| i <= 1), Ok(true));
    assert_eq!(x.get_mut(&e), Err(Failure::UnsyncAccess));
}

#[test]
fn relaxed_store_after_spawn_join_order_is_synchronized() {
    let builder = Builder::new();
    let mut e = begin(&builder, 1, builder.new_path());
    let x = Atomic::new(&mut e);
    x.store(&mut e, Ordering::Relaxed);
    // A thread spawned after the store inherits main's causality, store included.
    assert_eq!(spawn(&mut e), Ok(1));
    assert_eq!(thread_done(&mut e), Ok(true));
    assert_eq!(e.threads.active, Some(1));
    assert_eq!(x.get_mut(&e), Ok(()));
}

#[test]
fn rmw_release_sequence_carries_released_causality() {
    let builder = Builder::new();
    let mut e = begin(&builder, 1, builder.new_path());
    let x = Atomic::new(&mut e);
    assert_eq!(spawn(&mut e), Ok(1));
    let a_clock = e.threads.active().causality.get(0);
    x.store(&mut e, Ordering::Release);
    // A relaxed rmw by main continues the release sequence of its release store.
    let r: Result<usize, ()> = x.rmw(&mut e, |_| Ok(()), Ordering::Relaxed, Ordering::Relaxed);
    assert_eq!(r, Ok(1));
    assert_eq!(thread_done(&mut e), Ok(true));
    // Thread 1 acquires from the rmw's store and sees what the release store published.
    let r: Result<usize, ()> = x.rmw(&mut e, |_| Err(()), Ordering::Relaxed, Ordering::Acquire);
    assert_eq!(r, Err(()));
    assert!(e.threads.active().causality.get(0) >= a_clock);
    assert_eq!(stores_of(&e, x), 3);
}

#[test]
fn failed_relaxed_rmw_only_advances_own_clock() {
    let builder = Builder::new();
    let mut e = begin(&builder, 1, builder.new_path());
    let x = Atomic::new(&mut e);
    let before = e.threads.active().causality.get(0);
    let r: Result<usize, ()> = x.rmw(&mut e, |_| Err(()), Ordering::SeqCst, Ordering::Relaxed);
    assert_eq!(r, Err(()));
    assert_eq!(e.threads.active().causality.get(0), before + 1);
    assert_eq!(stores_of(&e, x), 1);
}

#[test]
fn only_acquire_fences_are_supported() {
    let builder = Builder::new();
    let mut e = begin(&builder, 1, builder.new_path());
    let _x = Atomic::new(&mut e);
    assert_eq!(fence(&mut e, Ordering::Release), Err(Failure::UnsupportedFence));
    assert_eq!(fence(&mut e, Ordering::SeqCst), Err(Failure::UnsupportedFence));
    assert_eq!(fence(&mut e, Ordering::Acquire), Ok(()));
}

#[test]
fn acquire_fence_synchronizes_with_relaxed_load() {
    let builder = Builder::new();
    let mut e = begin(&builder, 1, builder.new_path());
    let x = Atomic::new(&mut e);
    assert_eq!(spawn(&mut e), Ok(1));
    assert_eq!(yield_now(&mut e), Ok(true));
    let a_clock = e.threads.active().causality.get(1);
    x.store(&mut e, Ordering::Release);
    assert_eq!(thread_done(&mut e), Ok(true));
    assert_eq!(x.load(&mut e, Ordering::Relaxed), Ok(1));
    assert!(e.threads.active().causality.get(1) < a_clock);
    assert_eq!(fence(&mut e, Ordering::Acquire), Ok(()));
    assert!(e.threads.active().causality.get(1) >= a_clock);
}

#[test]
fn seq_cst_store_joins_global_clock() {
    let builder = Builder::new();
    let mut e = begin(&builder, 1, builder.new_path());
    let x = Atomic::new(&mut e);
    assert_eq!(spawn(&mut e), Ok(1));
    assert_eq!(yield_now(&mut e), Ok(true));
    x.store(&mut e, Ordering::SeqCst);
    let a_clock = e.threads.active().causality.get(1);
    assert!(e.threads.seq_cst_causality.get(1) + 1 >= a_clock);
    assert_eq!(thread_done(&mut e), Ok(true));
    let before = e.threads.seq_cst_causality.get(1);
    // A seq-cst load of a seq-cst store cannot read past it.
    assert_eq!(x.load(&mut e, Ordering::SeqCst), Ok(1));
    assert!(e.threads.seq_cst_causality.get(1) >= before);
    assert!(e.threads.active().causality.get(1) + 1 >= a_clock);
}

/// One operation of a modeled thread on the shared atomic.
#[derive(Clone, Copy)]
enum Op {
    Store,
    Load,
}

/// One run: the operations in the order they were performed (thread, index in its
/// program), and the store index each thread's load read.
type Behavior = (Vec<(usize, usize)>, [usize; 2]);

/// Runs main and one spawned thread, each performing `program` on a fresh atomic with
/// relaxed ordering, over every permutation the search explores. Returns the number of
/// permutations and the behavior of each.
fn explore(program: &[Op]) -> (usize, Vec<Behavior>) {
    let builder = Builder::new();
    let mut path = builder.new_path();
    let mut behaviors = Vec::new();
    let mut iterations = 0usize;
    loop {
        iterations += 1;
        assert!(iterations < 10_000, "the search did not end");
        let mut e = begin(&builder, iterations as u64, path);
        // Every iteration starts from an empty object store and the main thread alone.
        assert_eq!(e.objects.len(), 0);
        assert_eq!(e.threads.len(), 1);
        let x = Atomic::new(&mut e);
        assert_eq!(spawn(&mut e), Ok(1));
        let mut pc = [0usize; 2];
        let mut branched = [false; 2];
        let mut reads = [usize::MAX; 2];
        let mut done = [false; 2];
        let mut order = Vec::new();
        while let Some(t) = e.threads.active {
            if pc[t] == program.len() {
                assert!(!done[t]);
                done[t] = true;
                thread_done(&mut e).unwrap();
                continue;
            }
            let op = program[pc[t]];
            if !branched[t] {
                branched[t] = true;
                let action = match op {
                    Op::Store => AtomicAction::Store,
                    Op::Load => AtomicAction::Load,
                };
                x.branch(&mut e, action).unwrap();
                continue;
            }
            branched[t] = false;
            order.push((t, pc[t]));
            pc[t] += 1;
            match op {
                Op::Store => x.store(&mut e, Ordering::Relaxed),
                Op::Load => reads[t] = x.load(&mut e, Ordering::Relaxed).unwrap(),
            }
        }
        assert!(done[0] && done[1]);
        behaviors.push((order, reads));
        let (next, more) = finish_iteration(e);
        path = next;
        if !more.unwrap() {
            return (iterations, behaviors);
        }
    }
}

/// Every behavior of two threads that each store then load with relaxed ordering, found
/// by brute force: each interleaving of the four operations, and for each load every store
/// from the thread's own store up to the newest one.
fn brute_force_store_load() -> Vec<Behavior> {
    let mut all = Vec::new();
    // The position of main's two operations among the four.
    for first in 0..4 {
        for second in (first + 1)..4 {
            let mut order = Vec::new();
            let mut next = [0usize; 2];
            for slot in 0..4 {
                let t = if slot == first || slot == second { 0 } else { 1 };
                order.push((t, next[t]));
                next[t] += 1;
            }
            // Replay the stores to learn each thread's store index and the history
            // length at each load.
            let mut stores = 1usize;
            let mut own = [0usize; 2];
            let mut newest_at_load = [0usize; 2];
            for &(t, i) in &order {
                if i == 0 {
                    own[t] = stores;
                    stores += 1;
                } else {
                    newest_at_load[t] = stores - 1;
                }
            }
            for a in own[0]..=newest_at_load[0] {
                for b in own[1]..=newest_at_load[1] {
                    all.push((order.clone(), [a, b]));
                }
            }
        }
    }
    all
}

#[test]
fn exhaustive_search_of_two_relaxed_threads_terminates() {
    let (count, behaviors) = explore(&[Op::Store, Op::Load]);
    assert_eq!(count, behaviors.len());
    assert_eq!(count, 16);
    let mut explored = behaviors.clone();
    explored.sort();
    explored.dedup();
    let mut expected = brute_force_store_load();
    expected.sort();
    assert_eq!(expected.len(), 10);
    // The search finds every behavior, and no behavior the memory model forbids.
    assert_eq!(explored, expected);
}

#[test]
fn single_thread_program_has_one_permutation() {
    let builder = Builder::new();
    let mut e = begin(&builder, 1, builder.new_path());
    let x = Atomic::new(&mut e);
    x.store(&mut e, Ordering::Relaxed);
    assert_eq!(x.load(&mut e, Ordering::Relaxed), Ok(1));
    assert_eq!(thread_done(&mut e), Ok(true));
    let (path, more) = finish_iteration(e);
    assert_eq!(more, Ok(false));
    assert_eq!(path.len(), 0);
}

/// Store buffering: main stores to `x` then loads `y`; thread 1 stores to `y` then loads
/// `x`, all with `order`. Returns the store index each load read, for every permutation.
fn store_buffering(order: Ordering) -> Vec<(usize, usize)> {
    let builder = Builder::new();
    let mut path = builder.new_path();
    let mut outcomes = Vec::new();
    for id in 1..10_000u64 {
        let mut e = begin(&builder, id, path);
        let x = Atomic::new(&mut e);
        let y = Atomic::new(&mut e);
        assert_eq!(spawn(&mut e), Ok(1));
        // Each thread's program: (location stored, location loaded).
        let program = [(x, y), (y, x)];
        let mut pc = [0usize; 2];
        let mut branched = [false; 2];
        let mut reads = [usize::MAX; 2];
        while let Some(t) = e.threads.active {
            if pc[t] == 2 {
                thread_done(&mut e).unwrap();
                continue;
            }
            let (target, action) = if pc[t] == 0 {
                (program[t].0, AtomicAction::Store)
            } else {
                (program[t].1, AtomicAction::Load)
            };
            if !branched[t] {
                branched[t] = true;
                target.branch(&mut e, action).unwrap();
                continue;
            }
            branched[t] = false;
            if pc[t] == 0 {
                target.store(&mut e, order);
            } else {
                reads[t] = target.load(&mut e, order).unwrap();
            }
            pc[t] += 1;
        }
        outcomes.push((reads[0], reads[1]));
        let (next, more) = finish_iteration(e);
        path = next;
        if !more.unwrap() {
            return outcomes;
        }
    }
    panic!("the search did not end");
}

#[test]
fn seq_cst_operations_have_one_total_order() {
    let outcomes = store_buffering(Ordering::SeqCst);
    // In one total order, some store precedes both loads: they cannot both miss it.
    assert!(!outcomes.contains(&(0, 0)));
    assert!(outcomes.contains(&(1, 1)));
}

#[test]
fn relaxed_store_buffering_may_read_both_initial_values() {
    let outcomes = store_buffering(Ordering::Relaxed);
    assert!(outcomes.contains(&(0, 0)));
}
