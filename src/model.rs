use vstd::prelude::*;

use crate::execution::Execution;
use crate::failure::Failure;
use crate::object::leaked;
use crate::path::{has_alternative, lex_step, stepped, Path};

verus! {

pub const DEFAULT_MAX_THREADS: usize = 4;

pub const DEFAULT_MAX_BRANCHES: usize = 1000;

pub const DEFAULT_CHECKPOINT_INTERVAL: usize = 20000;

/// How a model is checked.
pub struct Builder {
    /// Most threads an execution may hold; keep it as low as possible.
    pub max_threads: usize,
    /// Most decisions per permutation.
    pub max_branches: usize,
    /// Most permutations to explore.
    pub max_permutations: Option<usize>,
    /// Most seconds to spend on checking.
    pub max_duration_secs: Option<u64>,
    /// Most thread preemptions per permutation.
    pub preemption_bound: Option<usize>,
    /// Where the progress of the search is stored and loaded from.
    pub checkpoint_file: Option<String>,
    /// How many iterations pass between two checkpoints.
    pub checkpoint_interval: usize,
    /// Capture backtraces on each operation.
    pub backtrace: bool,
    /// Log execution output.
    pub log: bool,
}

/// What the driver does before an iteration.
#[derive(Clone, Copy, Debug, PartialEq, Eq, Structural)]
pub struct IterationPlan {
    /// Report progress.
    pub report: bool,
    /// Store the path in the checkpoint file first.
    pub checkpoint: bool,
    /// End the search before this iteration.
    pub stop: bool,
}

/// Iteration `i` is a checkpoint iteration: a multiple of the interval.
pub open spec fn at_checkpoint(interval: usize, i: usize) -> bool {
    interval > 0 && i % interval == 0
}

impl Builder {
    /// A builder with the default bounds: 4 threads, 1000 branches, a checkpoint every
    /// 20000 iterations, and no other limit.
    pub fn new() -> (r: Builder)
        ensures
            r.max_threads == DEFAULT_MAX_THREADS,
            r.max_branches == DEFAULT_MAX_BRANCHES,
            r.max_permutations is None,
            r.max_duration_secs is None,
            r.preemption_bound is None,
            r.checkpoint_file is None,
            r.checkpoint_interval == DEFAULT_CHECKPOINT_INTERVAL,
            !r.backtrace,
            !r.log,
    {
        Builder {
            max_threads: DEFAULT_MAX_THREADS,
            max_branches: DEFAULT_MAX_BRANCHES,
            max_permutations: None,
            max_duration_secs: None,
            preemption_bound: None,
            checkpoint_file: None,
            checkpoint_interval: DEFAULT_CHECKPOINT_INTERVAL,
            backtrace: false,
            log: false,
        }
    }

    /// Sets the checkpoint file.
    pub fn checkpoint_file(&mut self, file: &str) -> (r: &mut Builder)
        ensures
            r.checkpoint_file is Some,
            r.checkpoint_file->Some_0@ == file@,
            r.max_threads == old(self).max_threads,
            r.max_branches == old(self).max_branches,
            r.max_permutations == old(self).max_permutations,
            r.max_duration_secs == old(self).max_duration_secs,
            r.preemption_bound == old(self).preemption_bound,
            r.checkpoint_interval == old(self).checkpoint_interval,
            r.backtrace == old(self).backtrace,
            r.log == old(self).log,
            *final(self) == *final(r),
    {
        self.checkpoint_file = Some(file.to_owned());
        self
    }

    /// The path that a search starts from.
    pub fn new_path(&self) -> (r: Path)
        ensures
            r.wf(),
            r.pos == 0,
            r.branches@.len() == 0,
            r.max_branches == self.max_branches,
            r.preemption_bound == self.preemption_bound,
    {
        Path::new(self.max_branches, self.preemption_bound)
    }

    /// What to do before iteration `i` (counted from 1), `elapsed_secs` into the search.
    /// On every checkpoint iteration progress is reported and the path stored, if a file is
    /// set; then the search stops there once `i` reaches the permutation limit or the time
    /// limit has passed.
    pub fn plan_iteration(&self, i: usize, elapsed_secs: u64) -> (r: IterationPlan)
        ensures
            r.report == at_checkpoint(self.checkpoint_interval, i),
            r.checkpoint == (at_checkpoint(self.checkpoint_interval, i)
                && self.checkpoint_file is Some),
            r.stop == (at_checkpoint(self.checkpoint_interval, i) && ((
            self.max_permutations is Some && i >= self.max_permutations->Some_0) || (
            self.max_duration_secs is Some && elapsed_secs >= self.max_duration_secs->Some_0))),
    {
        let at = self.checkpoint_interval > 0 && i % self.checkpoint_interval == 0;
        if !at {
            return IterationPlan { report: false, checkpoint: false, stop: false };
        }
        let by_count = match self.max_permutations {
            Some(m) => i >= m,
            None => false,
        };
        let by_time = match self.max_duration_secs {
            Some(d) => elapsed_secs >= d,
            None => false,
        };
        IterationPlan {
            report: true,
            checkpoint: self.checkpoint_file.is_some(),
            stop: by_count || by_time,
        }
    }

    /// A fresh execution for iteration `id` over `path`: no objects, the main thread alone.
    pub fn begin_iteration(&self, id: u64, path: Path) -> (r: Execution)
        requires
            self.max_threads >= 1,
            path.wf(),
        ensures
            r.wf(),
            r.id == id,
            r.path == path,
            r.max_threads == self.max_threads,
            r.objects.entries@.len() == 0,
            r.threads.threads@.len() == 1,
            r.threads.active == Some(0usize),
    {
        Execution::new(id, self.max_threads, path)
    }
}

/// Ends an iteration: fails with `Leak` when an object is still alive; otherwise moves
/// the path to the next permutation, `true` when there is one. The path comes back either
/// way.
pub fn finish_iteration(e: Execution) -> (r: (Path, Result<bool, Failure>))
    requires
        e.wf(),
    ensures
        r.0.wf(),
        (r.1 is Err) <==> exists|i: int|
            0 <= i < e.objects.entries@.len() && leaked(#[trigger] e.objects.entries@[i]),
        r.1 is Err ==> r.1 == Err::<bool, Failure>(Failure::Leak) && r.0 == e.path,
        r.1 is Ok ==> r.0.pos == 0,
        r.1 is Ok ==> (r.1 == Ok::<bool, Failure>(true) <==> exists|k: int|
            0 <= k < e.path.branches@.len() && has_alternative(#[trigger] e.path.branches@[k])),
        r.1 == Ok::<bool, Failure>(true) ==> stepped(e.path.branches@, r.0.branches@),
        r.1 == Ok::<bool, Failure>(true) ==> lex_step(e.path.branches@, r.0.branches@),
        r.1 == Ok::<bool, Failure>(false) ==> r.0.branches@.len() == 0,
{
    if !e.objects.check_for_leaks() {
        return (e.into_path(), Err(Failure::Leak));
    }
    let mut path = e.into_path();
    let more = path.step();
    (path, Ok(more))
}

} // verus!
