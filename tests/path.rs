use loom::failure::Failure;
use loom::path::{Path, Sched, ScheduleBranch};

#[test]
fn step_explores_backtracked_thread_then_ends() {
    let mut path = Path::new(10, None);
    // Two runnable threads; thread 0 was running and goes on.
    assert_eq!(path.branch_thread(vec![Sched::Skip, Sched::Skip], Some(0)), Ok(Some(0)));
    // Thread 1's next operation races with the decision: it is to be tried there too.
    path.backtrack(0, 1);
    assert!(path.step());
    assert_eq!(path.pos(), 0);
    assert_eq!(path.branch_thread(vec![Sched::Skip, Sched::Skip], Some(0)), Ok(Some(1)));
    assert!(!path.step());
    assert_eq!(path.len(), 0);
}

#[test]
fn without_backtracking_one_permutation() {
    let mut path = Path::new(10, None);
    assert_eq!(path.branch_thread(vec![Sched::Skip, Sched::Skip], Some(0)), Ok(Some(0)));
    assert_eq!(path.branch_thread(vec![Sched::Disabled, Sched::Skip], Some(0)), Ok(Some(1)));
    assert!(!path.step());
}

#[test]
fn load_values_are_explored_in_order() {
    let mut path = Path::new(10, None);
    let mut seen = Vec::new();
    loop {
        seen.push(path.branch_write(vec![3, 1, 0]).unwrap());
        if !path.step() {
            break;
        }
    }
    assert_eq!(seen, vec![3, 1, 0]);
}

#[test]
fn replay_with_other_candidates_is_nondeterministic() {
    let mut path = Path::new(10, None);
    assert_eq!(path.branch_write(vec![2, 1]), Ok(2));
    assert!(path.step());
    assert_eq!(path.branch_write(vec![2, 0]), Err(Failure::Nondeterministic));
}

#[test]
fn branch_limit_is_a_failure() {
    let mut path = Path::new(1, None);
    assert_eq!(path.branch_write(vec![0]), Ok(0));
    assert_eq!(path.branch_write(vec![0]), Err(Failure::BranchLimit));
    assert_eq!(path.branch_thread(vec![Sched::Skip], Some(0)), Err(Failure::BranchLimit));
}

#[test]
fn preemption_bound_zero_keeps_running_thread() {
    let mut path = Path::new(10, Some(0));
    assert_eq!(path.branch_thread(vec![Sched::Skip, Sched::Skip], Some(0)), Ok(Some(0)));
    // Choosing thread 1 here would preempt thread 0, which the bound forbids.
    path.backtrack(0, 1);
    assert!(!path.step());
}

#[test]
fn yielded_thread_runs_only_when_nothing_else_can() {
    let mut path = Path::new(10, None);
    assert_eq!(path.branch_thread(vec![Sched::Yield, Sched::Skip], Some(0)), Ok(Some(1)));
    assert_eq!(path.branch_thread(vec![Sched::Yield, Sched::Disabled], Some(1)), Ok(Some(0)));
    assert_eq!(path.branch_thread(vec![Sched::Disabled, Sched::Disabled], Some(0)), Ok(None));
}

#[test]
fn disabled_thread_backtracks_every_enabled_one() {
    let mut path = Path::new(10, None);
    assert_eq!(
        path.branch_thread(vec![Sched::Skip, Sched::Disabled, Sched::Skip], Some(0)),
        Ok(Some(0))
    );
    path.backtrack(0, 1);
    assert!(path.step());
    assert_eq!(
        path.branch_thread(vec![Sched::Skip, Sched::Disabled, Sched::Skip], Some(0)),
        Ok(Some(2))
    );
    assert!(!path.step());
}

#[test]
fn step_takes_newest_alternative_and_drops_later_decisions() {
    let mut path = Path::new(10, None);
    assert_eq!(path.branch_write(vec![2, 1]), Ok(2));
    assert_eq!(path.branch_write(vec![5, 4, 3]), Ok(5));
    assert!(path.step());
    assert_eq!(path.len(), 2);
    assert_eq!(path.branch_write(vec![2, 1]), Ok(2));
    assert_eq!(path.branch_write(vec![5, 4, 3]), Ok(4));
    assert!(path.step());
    assert_eq!(path.branch_write(vec![2, 1]), Ok(2));
    assert_eq!(path.branch_write(vec![5, 4, 3]), Ok(3));
    // The second decision is exhausted: the first one moves on, the second is dropped.
    assert!(path.step());
    assert_eq!(path.len(), 1);
    assert_eq!(path.branch_write(vec![2, 1]), Ok(1));
    assert_eq!(path.branch_write(vec![5, 4, 3]), Ok(5));
    assert!(path.step());
    assert_eq!(path.branch_write(vec![2, 1]), Ok(1));
    assert_eq!(path.branch_write(vec![5, 4, 3]), Ok(4));
    assert!(path.step());
    assert_eq!(path.branch_write(vec![2, 1]), Ok(1));
    assert_eq!(path.branch_write(vec![5, 4, 3]), Ok(3));
    assert!(!path.step());
}

#[test]
fn advance_marks_chosen_explored_and_picks_first_pending() {
    let mut s = ScheduleBranch {
        preemptions: 0,
        initial_active: None,
        threads: vec![Sched::Visited, Sched::Active, Sched::Pending, Sched::Pending],
    };
    assert!(s.advance());
    assert_eq!(s.threads, vec![Sched::Visited, Sched::Visited, Sched::Active, Sched::Pending]);
    assert!(s.advance());
    assert_eq!(s.threads, vec![Sched::Visited, Sched::Visited, Sched::Visited, Sched::Active]);
    assert!(!s.advance());
    assert_eq!(s.threads, vec![Sched::Visited; 4]);
}
