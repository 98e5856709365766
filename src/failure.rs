use vstd::prelude::*;

verus! {

/// Why an iteration of the model stopped before its closure finished.
#[derive(Clone, Copy, Debug, PartialEq, Eq, Structural)]
pub enum Failure {
    /// An iteration made more decisions than the configured branch limit.
    BranchLimit,
    /// No thread can run, yet some have not terminated.
    Deadlock,
    /// A replayed run asked for a different decision than the one recorded.
    Nondeterministic,
    /// A mutable access to an atomic is not ordered after all of its stores.
    UnsyncAccess,
    /// An object was still alive when the iteration ended.
    Leak,
    /// A fence with an ordering other than `Acquire`.
    UnsupportedFence,
    /// A thread was spawned beyond the configured maximum.
    TooManyThreads,
    /// A thread was unlocked by one that does not hold the lock.
    NotLockOwner,
}

impl Failure {
    /// A short description of the failure.
    pub fn message(&self) -> (r: &'static str) {
        match self {
            Failure::BranchLimit => "model exceeded the maximum number of branches",
            Failure::Deadlock => "deadlock: no thread can run",
            Failure::Nondeterministic => "the model closure is not deterministic",
            Failure::UnsyncAccess => "unsynchronized mutable access to an atomic",
            Failure::Leak => "an object leaked",
            Failure::UnsupportedFence => "only Acquire fences are currently supported",
            Failure::TooManyThreads => "too many threads were spawned",
            Failure::NotLockOwner => "unlocking a mutex held by another thread",
        }
    }
}

} // verus!
