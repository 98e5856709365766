use vstd::prelude::*;

use crate::failure::Failure;

verus! {

/// How a thread stands at one scheduling decision.
#[derive(Clone, Copy, Debug, PartialEq, Eq, Structural)]
pub enum Sched {
    /// It could not run.
    Disabled,
    /// It could run, but no run has been asked to explore it yet.
    Skip,
    /// It had yielded; it runs only when nothing else can.
    Yield,
    /// A later run is to explore it.
    Pending,
    /// The current run chose it.
    Active,
    /// A run has explored it.
    Visited,
}

/// A decision on the value a load observes: the candidates and the one chosen.
pub struct LoadBranch {
    pub values: Vec<usize>,
    pub pos: usize,
}

/// A decision on the thread that runs next.
pub struct ScheduleBranch {
    /// Preemptions made on the path before this decision.
    pub preemptions: usize,
    /// The thread that was running, when it could go on running.
    pub initial_active: Option<usize>,
    pub threads: Vec<Sched>,
}

pub enum Branch {
    Load(LoadBranch),
    Schedule(ScheduleBranch),
}

/// The decisions of the current run, and across runs the frontier of the search.
pub struct Path {
    pub preemption_bound: Option<usize>,
    pub max_branches: usize,
    /// The next decision of the current run.
    pub pos: usize,
    pub branches: Vec<Branch>,
}

/// How many alternatives a thread's standing still owes the search.
pub open spec fn sched_rank(s: Sched) -> nat {
    match s {
        Sched::Skip | Sched::Yield => 3,
        Sched::Pending => 2,
        Sched::Active => 1,
        _ => 0,
    }
}

pub open spec fn sched_weight(t: Seq<Sched>) -> nat
    decreases t.len(),
{
    if t.len() == 0 {
        0
    } else {
        sched_weight(t.drop_last()) + sched_rank(t.last())
    }
}

/// What is left to explore at one decision.
pub open spec fn branch_measure(b: Branch) -> nat {
    match b {
        Branch::Load(l) => if l.pos < l.values@.len() {
            (l.values@.len() - 1 - l.pos) as nat
        } else {
            0
        },
        Branch::Schedule(s) => sched_weight(s.threads@),
    }
}

/// `new` is `old` cut back to decision `k`, where less is left to explore, with every
/// earlier decision unchanged.
pub open spec fn lex_step(old: Seq<Branch>, new: Seq<Branch>) -> bool {
    exists|k: int|
        0 <= k < old.len() && new.len() == k + 1 && (forall|i: int|
            0 <= i < k ==> new[i] == old[i]) && branch_measure(#[trigger] new[k]) < branch_measure(
            old[k],
        )
}

/// At decision `s`, thread `t` has been marked for exploration, as far as the preemption
/// bound allows: it is no longer waiting to be asked for, or, when it could not run there,
/// no thread that could is.
pub open spec fn explored_sched(s: ScheduleBranch, t: int, bound: Option<usize>) -> bool {
    0 <= t < s.threads@.len() ==> if s.threads@[t] == Sched::Disabled {
        forall|j: int|
            0 <= j < s.threads@.len() && may_explore(s, j, bound) ==> !((#[trigger] s.threads@[j])
                == Sched::Skip || s.threads@[j] == Sched::Yield)
    } else {
        may_explore(s, t, bound) ==> !(s.threads@[t] == Sched::Skip || s.threads@[t]
            == Sched::Yield)
    }
}

/// Decision `b` has thread `t` marked for exploration (only scheduling decisions mark
/// threads).
pub open spec fn explored_at(b: Branch, t: int, bound: Option<usize>) -> bool {
    match b {
        Branch::Schedule(s) => explored_sched(s, t, bound),
        Branch::Load(_) => true,
    }
}

/// Backtracking thread `t` at `s` marks it, and keeps every earlier mark.
pub proof fn lemma_backtrack_marks(s: ScheduleBranch, s2: ScheduleBranch, t: int, bound: Option<usize>)
    requires
        0 <= t < s.threads@.len(),
        s2.threads@ == backtracked(s, t, bound),
        s2.preemptions == s.preemptions,
        s2.initial_active == s.initial_active,
    ensures
        explored_sched(s2, t, bound),
        forall|u: int| explored_sched(s, u, bound) ==> #[trigger] explored_sched(s2, u, bound),
{
    assert forall|j: int| 0 <= j < s.threads@.len() implies (s2.threads@[j] == Sched::Disabled)
        == (s.threads@[j] == Sched::Disabled) && ((s2.threads@[j] == Sched::Skip
        || s2.threads@[j] == Sched::Yield) ==> (s.threads@[j] == Sched::Skip || s.threads@[j]
        == Sched::Yield)) && may_explore(s2, j, bound) == may_explore(s, j, bound) by {}
    assert forall|u: int| explored_sched(s, u, bound) implies #[trigger] explored_sched(
        s2,
        u,
        bound,
    ) by {
        if 0 <= u < s.threads@.len() {
            let x = s.threads@[u];
            assert(s2.threads@[u] == Sched::Disabled <==> x == Sched::Disabled);
            if x == Sched::Disabled {
                assert forall|j: int|
                    0 <= j < s2.threads@.len() && may_explore(s2, j, bound) implies !((
                    #[trigger] s2.threads@[j]) == Sched::Skip || s2.threads@[j] == Sched::Yield) by {
                    assert(may_explore(s, j, bound));
                    let y = s.threads@[j];
                    assert(!(y == Sched::Skip || y == Sched::Yield));
                }
            } else {
                assert(may_explore(s2, u, bound) == may_explore(s, u, bound));
            }
        }
    }
}

/// Some thread is still to be explored at a scheduling decision.
pub open spec fn has_pending(t: Seq<Sched>) -> bool {
    exists|i: int| 0 <= i < t.len() && t[i] == Sched::Pending
}

/// The standings with every chosen thread marked explored.
pub open spec fn visit_active(t: Seq<Sched>) -> Seq<Sched> {
    Seq::new(t.len(), |i: int| if t[i] == Sched::Active { Sched::Visited } else { t[i] })
}

/// The standings at a scheduling decision once it moves to its next alternative: the
/// chosen thread is explored, and the first pending one, if any, is chosen.
pub open spec fn advanced_threads(t: Seq<Sched>) -> Seq<Sched> {
    let v = visit_active(t);
    if has_pending(t) {
        v.update(first_from(v, Sched::Pending, 0), Sched::Active)
    } else {
        v
    }
}

/// A decision has an alternative that no run has explored yet.
pub open spec fn has_alternative(b: Branch) -> bool {
    match b {
        Branch::Load(l) => l.pos + 1 < l.values@.len(),
        Branch::Schedule(s) => has_pending(s.threads@),
    }
}

/// `new` is decision `old` moved to its next alternative.
pub open spec fn advanced_branch(old: Branch, new: Branch) -> bool {
    match (old, new) {
        (Branch::Load(a), Branch::Load(b)) => b.values == a.values && b.pos == a.pos + 1,
        (Branch::Schedule(a), Branch::Schedule(b)) => {
            &&& b.preemptions == a.preemptions
            &&& b.initial_active == a.initial_active
            &&& b.threads@ == advanced_threads(a.threads@)
        },
        _ => false,
    }
}

/// `new` is the path `old` moved to its next run: the newest decision with an alternative
/// left takes it, and every later decision is dropped.
pub open spec fn stepped(old: Seq<Branch>, new: Seq<Branch>) -> bool {
    exists|k: int|
        0 <= k < old.len() && has_alternative(#[trigger] old[k]) && (forall|j: int|
            k < j < old.len() ==> !has_alternative(old[j])) && new.len() == k + 1 && (forall|i: int|
            0 <= i < k ==> new[i] == old[i]) && advanced_branch(old[k], new[k])
}

/// The first index at or after `i` where `t` holds `s`, or `t.len()`.
pub open spec fn first_from(t: Seq<Sched>, s: Sched, i: int) -> int
    decreases t.len() - i,
{
    if i >= t.len() || i < 0 {
        t.len() as int
    } else if t[i] == s {
        i
    } else {
        first_from(t, s, i + 1)
    }
}

/// The thread that a new scheduling decision picks: the running one when it can go on,
/// else the first that can run, else the first that yielded.
pub open spec fn initial_choice(seed: Seq<Sched>, active: Option<usize>) -> Option<usize> {
    if active is Some && active->Some_0 < seed.len() && seed[active->Some_0 as int] == Sched::Skip {
        active
    } else if first_from(seed, Sched::Skip, 0) < seed.len() {
        Some(first_from(seed, Sched::Skip, 0) as usize)
    } else if first_from(seed, Sched::Yield, 0) < seed.len() {
        Some(first_from(seed, Sched::Yield, 0) as usize)
    } else {
        None
    }
}

/// The thread chosen at a recorded scheduling decision.
pub open spec fn chosen(s: ScheduleBranch) -> Option<usize> {
    if first_from(s.threads@, Sched::Active, 0) < s.threads@.len() {
        Some(first_from(s.threads@, Sched::Active, 0) as usize)
    } else {
        None
    }
}

/// Whether choosing thread `t` at `s` stays within the preemption bound.
pub open spec fn may_explore(s: ScheduleBranch, t: int, bound: Option<usize>) -> bool {
    !(bound is Some && s.initial_active is Some && s.initial_active->Some_0 != t && s.preemptions
        >= bound->Some_0)
}

pub open spec fn explored(st: Sched, ok: bool) -> Sched {
    if ok && (st == Sched::Skip || st == Sched::Yield) {
        Sched::Pending
    } else {
        st
    }
}

/// The standings at `s` after thread `t` was found to race with the decision: `t` is to be
/// explored, or every thread that could run when `t` could not.
pub open spec fn backtracked(s: ScheduleBranch, t: int, bound: Option<usize>) -> Seq<Sched> {
    Seq::new(
        s.threads@.len(),
        |j: int|
            if s.threads@[t] == Sched::Disabled || j == t {
                explored(s.threads@[j], may_explore(s, j, bound))
            } else {
                s.threads@[j]
            },
    )
}

pub proof fn lemma_weight_update(t: Seq<Sched>, i: int, x: Sched)
    requires
        0 <= i < t.len(),
    ensures
        sched_weight(t.update(i, x)) + sched_rank(t[i]) == sched_weight(t) + sched_rank(x),
    decreases t.len(),
{
    if i == t.len() - 1 {
        assert(t.update(i, x).drop_last() =~= t.drop_last());
    } else {
        lemma_weight_update(t.drop_last(), i, x);
        assert(t.update(i, x).drop_last() =~= t.drop_last().update(i, x));
    }
}

proof fn lemma_first_from_found(t: Seq<Sched>, s: Sched, i: int, j: int)
    requires
        0 <= i <= j < t.len(),
        t[j] == s,
    ensures
        first_from(t, s, i) <= j,
    decreases j - i,
{
    if t[i] != s {
        lemma_first_from_found(t, s, i + 1, j);
    }
}

pub proof fn lemma_first_from_bounds(t: Seq<Sched>, s: Sched, i: int)
    requires
        0 <= i <= t.len(),
    ensures
        i <= first_from(t, s, i) <= t.len(),
        first_from(t, s, i) < t.len() ==> t[first_from(t, s, i)] == s,
    decreases t.len() - i,
{
    if i < t.len() && t[i] != s {
        lemma_first_from_bounds(t, s, i + 1);
    }
}

pub proof fn lemma_first_from_none(t: Seq<Sched>, s: Sched, i: int)
    requires
        0 <= i <= t.len(),
        forall|j: int| i <= j < t.len() ==> t[j] != s,
    ensures
        first_from(t, s, i) == t.len(),
    decreases t.len() - i,
{
    if i < t.len() {
        lemma_first_from_none(t, s, i + 1);
    }
}

/// The first index where `t` holds `s`, or `t.len()`.
fn find(t: &Vec<Sched>, s: Sched) -> (r: usize)
    ensures
        r == first_from(t@, s, 0),
{
    let mut k: usize = 0;
    while k < t.len()
        invariant
            k <= t@.len(),
            forall|j: int| 0 <= j < k ==> t@[j] != s,
        decreases t@.len() - k,
    {
        if t[k] == s {
            proof {
                first_from_skips(t@, s, 0, k as int);
            }
            return k;
        }
        k = k + 1;
    }
    proof {
        lemma_first_from_none(t@, s, 0);
    }
    k
}

proof fn first_from_skips(t: Seq<Sched>, s: Sched, i: int, k: int)
    requires
        0 <= i <= k < t.len(),
        t[k] == s,
        forall|j: int| i <= j < k ==> t[j] != s,
    ensures
        first_from(t, s, i) == k,
    decreases k - i,
{
    if i < k {
        first_from_skips(t, s, i + 1, k);
    }
}

/// True when `a` and `b` hold the same values.
fn same_values(a: &Vec<usize>, b: &Vec<usize>) -> (r: bool)
    ensures
        r == (a@ == b@),
{
    if a.len() != b.len() {
        return false;
    }
    let mut k: usize = 0;
    while k < a.len()
        invariant
            a@.len() == b@.len(),
            k <= a@.len(),
            forall|j: int| 0 <= j < k ==> a@[j] == b@[j],
        decreases a@.len() - k,
    {
        if a[k] != b[k] {
            return false;
        }
        k = k + 1;
    }
    assert(a@ =~= b@);
    true
}

impl ScheduleBranch {
    /// Moves on to the next thread to explore at this decision: the chosen thread is
    /// marked explored and the first pending one is chosen. False when none is pending.
    pub fn advance(&mut self) -> (r: bool)
        ensures
            r == has_pending(old(self).threads@),
            final(self).threads@ == advanced_threads(old(self).threads@),
            r ==> sched_weight(final(self).threads@) < sched_weight(old(self).threads@),
            final(self).threads@.len() == old(self).threads@.len(),
            final(self).preemptions == old(self).preemptions,
            final(self).initial_active == old(self).initial_active,
    {
        let n = self.threads.len();
        let mut k: usize = 0;
        while k < n
            invariant
                n == self.threads@.len(),
                n == old(self).threads@.len(),
                k <= n,
                sched_weight(self.threads@) <= sched_weight(old(self).threads@),
                self.preemptions == old(self).preemptions,
                self.initial_active == old(self).initial_active,
                forall|i: int| 0 <= i < k ==> self.threads@[i] == visit_active(old(self).threads@)[i],
                forall|i: int| k <= i < n ==> self.threads@[i] == old(self).threads@[i],
            decreases n - k,
        {
            if self.threads[k] == Sched::Active {
                proof {
                    lemma_weight_update(self.threads@, k as int, Sched::Visited);
                }
                self.threads.set(k, Sched::Visited);
            }
            k = k + 1;
        }
        let ghost v = self.threads@;
        assert(v =~= visit_active(old(self).threads@));
        assert(has_pending(v) == has_pending(old(self).threads@)) by {
            if has_pending(v) {
                let i = choose|i: int| 0 <= i < v.len() && v[i] == Sched::Pending;
                assert(old(self).threads@[i] == Sched::Pending);
            }
            if has_pending(old(self).threads@) {
                let i = choose|i: int|
                    0 <= i < old(self).threads@.len() && old(self).threads@[i] == Sched::Pending;
                assert(v[i] == Sched::Pending);
            }
        }
        let p = find(&self.threads, Sched::Pending);
        proof {
            lemma_first_from_bounds(v, Sched::Pending, 0);
            if has_pending(v) {
                let i = choose|i: int| 0 <= i < v.len() && v[i] == Sched::Pending;
                lemma_first_from_found(v, Sched::Pending, 0, i);
            }
        }
        if p < n {
            proof {
                lemma_weight_update(self.threads@, p as int, Sched::Active);
            }
            self.threads.set(p, Sched::Active);
            true
        } else {
            false
        }
    }

    /// Marks thread `t` as one that a later run must explore at this decision; when `t`
    /// could not run here, every thread that could is marked instead. A thread is not
    /// marked when choosing it would exceed the preemption bound.
    pub fn backtrack(&mut self, t: usize, bound: Option<usize>)
        requires
            t < old(self).threads@.len(),
        ensures
            final(self).threads@ == backtracked(*old(self), t as int, bound),
            final(self).preemptions == old(self).preemptions,
            final(self).initial_active == old(self).initial_active,
            sched_weight(final(self).threads@) <= sched_weight(old(self).threads@),
    {
        let ghost start = *self;
        let all = self.threads[t] == Sched::Disabled;
        let n = self.threads.len();
        let mut k: usize = 0;
        while k < n
            invariant
                n == self.threads@.len(),
                n == start.threads@.len(),
                k <= n,
                t < n,
                all == (start.threads@[t as int] == Sched::Disabled),
                self.preemptions == start.preemptions,
                self.initial_active == start.initial_active,
                forall|j: int| 0 <= j < k ==> self.threads@[j] == backtracked(start, t as int, bound)[j],
                forall|j: int| k <= j < n ==> self.threads@[j] == start.threads@[j],
                sched_weight(self.threads@) <= sched_weight(start.threads@),
            decreases n - k,
        {
            if all || k == t {
                let st = self.threads[k];
                let ok = match bound {
                    Some(b) => match self.initial_active {
                        Some(a) => a == k || self.preemptions < b,
                        None => true,
                    },
                    None => true,
                };
                if ok && (st == Sched::Skip || st == Sched::Yield) {
                    proof {
                        lemma_weight_update(self.threads@, k as int, Sched::Pending);
                    }
                    self.threads.set(k, Sched::Pending);
                }
            }
            k = k + 1;
        }
        assert(self.threads@ =~= backtracked(start, t as int, bound));
    }
}

impl Path {
    pub open spec fn wf(&self) -> bool {
        &&& self.pos <= self.branches@.len()
        &&& forall|i: int|
            0 <= i < self.branches@.len() ==> match #[trigger] self.branches@[i] {
                Branch::Load(l) => l.pos < l.values@.len(),
                Branch::Schedule(_) => true,
            }
    }

    /// True when the path is well formed; a path read back from a checkpoint is checked
    /// with this before use.
    pub fn is_wf(&self) -> (r: bool)
        ensures
            r == self.wf(),
    {
        if self.pos > self.branches.len() {
            return false;
        }
        let n = self.branches.len();
        let mut k: usize = 0;
        while k < n
            invariant
                n == self.branches@.len(),
                k <= n,
                forall|i: int|
                    0 <= i < k ==> match #[trigger] self.branches@[i] {
                        Branch::Load(l) => l.pos < l.values@.len(),
                        Branch::Schedule(_) => true,
                    },
            decreases n - k,
        {
            match &self.branches[k] {
                Branch::Load(l) => {
                    if l.pos >= l.values.len() {
                        return false;
                    }
                },
                Branch::Schedule(_) => {},
            }
            k = k + 1;
        }
        true
    }

    /// A path with no decisions yet.
    pub fn new(max_branches: usize, preemption_bound: Option<usize>) -> (r: Path)
        ensures
            r.wf(),
            r.pos == 0,
            r.branches@.len() == 0,
            r.max_branches == max_branches,
            r.preemption_bound == preemption_bound,
    {
        Path { preemption_bound, max_branches, pos: 0, branches: Vec::new() }
    }

    /// The position of the next decision in this run.
    pub fn pos(&self) -> (r: usize)
        ensures
            r == self.pos,
    {
        self.pos
    }

    /// The number of decisions recorded.
    pub fn len(&self) -> (r: usize)
        ensures
            r == self.branches@.len(),
    {
        self.branches.len()
    }

    /// Preemptions made on the path so far.
    fn preemptions(&self) -> (r: usize) {
        let mut k: usize = self.branches.len();
        while k > 0
            invariant
                k <= self.branches@.len(),
            decreases k,
        {
            k = k - 1;
            match &self.branches[k] {
                Branch::Schedule(s) => {
                    let c = find(&s.threads, Sched::Active);
                    let pre = match s.initial_active {
                        Some(a) => a != c,
                        None => false,
                    };
                    if pre && s.preemptions < usize::MAX {
                        return s.preemptions + 1;
                    }
                    return s.preemptions;
                },
                Branch::Load(_) => {},
            }
        }
        0
    }

    /// Decides which value a load observes among `values`, the candidates in order. A new
    /// decision takes the first candidate and records them all for later runs; a replayed
    /// one returns the value chosen for this run, and fails when the candidates differ
    /// from those recorded.
    pub fn branch_write(&mut self, values: Vec<usize>) -> (r: Result<usize, Failure>)
        requires
            old(self).wf(),
            values@.len() > 0,
        ensures
            final(self).wf(),
            final(self).max_branches == old(self).max_branches,
            final(self).preemption_bound == old(self).preemption_bound,
            r is Ok ==> values@.contains(r->Ok_0),
            old(self).pos == old(self).branches@.len() ==> {
                if old(self).branches@.len() >= old(self).max_branches {
                    r == Err::<usize, Failure>(Failure::BranchLimit) && *final(self) == *old(self)
                } else {
                    &&& r == Ok::<usize, Failure>(values@[0])
                    &&& final(self).branches@.len() == old(self).branches@.len() + 1
                    &&& final(self).branches@.drop_last() == old(self).branches@
                    &&& final(self).pos == old(self).pos + 1
                    &&& branch_measure(final(self).branches@.last()) == values@.len() - 1
                }
            },
            old(self).pos < old(self).branches@.len() ==> {
                &&& final(self).branches == old(self).branches
                &&& r is Ok ==> final(self).pos == old(self).pos + 1
                &&& r is Ok <==> match old(self).branches@[old(self).pos as int] {
                    Branch::Load(l) => l.values@ == values@,
                    Branch::Schedule(_) => false,
                }
            },
    {
        if self.pos == self.branches.len() {
            if self.branches.len() >= self.max_branches {
                return Err(Failure::BranchLimit);
            }
            let first = values[0];
            let ghost vals = values@;
            self.branches.push(Branch::Load(LoadBranch { values, pos: 0 }));
            self.pos = self.pos + 1;
            assert(self.branches@.drop_last() =~= old(self).branches@);
            assert(vals.contains(first)) by {
                assert(vals[0] == first);
            }
            return Ok(first);
        }
        let r = match &self.branches[self.pos] {
            Branch::Load(l) => {
                if same_values(&l.values, &values) {
                    let v = l.values[l.pos];
                    assert(values@[l.pos as int] == v);
                    Ok(v)
                } else {
                    Err(Failure::Nondeterministic)
                }
            },
            Branch::Schedule(_) => Err(Failure::Nondeterministic),
        };
        if r.is_ok() {
            self.pos = self.pos + 1;
        }
        r
    }

    /// Decides which thread runs next. `seed` gives each thread's standing (`Skip` when
    /// it can run, `Yield` when it yielded, `Disabled` otherwise) and `active` the thread
    /// running now. A new decision chooses by `initial_choice`; a replayed one returns the
    /// thread chosen for this run. `None`: no thread can run.
    pub fn branch_thread(&mut self, seed: Vec<Sched>, active: Option<usize>) -> (r: Result<
        Option<usize>,
        Failure,
    >)
        requires
            old(self).wf(),
        ensures
            final(self).wf(),
            final(self).max_branches == old(self).max_branches,
            final(self).preemption_bound == old(self).preemption_bound,
            old(self).pos == old(self).branches@.len() ==> {
                if old(self).branches@.len() >= old(self).max_branches {
                    r == Err::<Option<usize>, Failure>(Failure::BranchLimit) && *final(self) == *old(self)
                } else {
                    &&& r == Ok::<Option<usize>, Failure>(initial_choice(seed@, active))
                    &&& final(self).branches@.len() == old(self).branches@.len() + 1
                    &&& final(self).branches@.drop_last() == old(self).branches@
                    &&& final(self).pos == old(self).pos + 1
                }
            },
            old(self).pos < old(self).branches@.len() ==> {
                &&& final(self).branches == old(self).branches
                &&& r is Ok ==> final(self).pos == old(self).pos + 1
                &&& r is Ok <==> match old(self).branches@[old(self).pos as int] {
                    Branch::Load(_) => false,
                    Branch::Schedule(s) => chosen(s) is None || (chosen(s)->Some_0 < seed@.len()
                        && seed@[chosen(s)->Some_0 as int] != Sched::Disabled),
                }
                &&& r is Ok ==> match old(self).branches@[old(self).pos as int] {
                    Branch::Load(_) => false,
                    Branch::Schedule(s) => r->Ok_0 == chosen(s),
                }
            },
    {
        if self.pos < self.branches.len() {
            let r = match &self.branches[self.pos] {
                Branch::Schedule(s) => {
                    let c = find(&s.threads, Sched::Active);
                    if c < s.threads.len() {
                        if c < seed.len() && seed[c] != Sched::Disabled {
                            Ok(Some(c))
                        } else {
                            Err(Failure::Nondeterministic)
                        }
                    } else {
                        Ok(None)
                    }
                },
                Branch::Load(_) => Err(Failure::Nondeterministic),
            };
            if r.is_ok() {
                self.pos = self.pos + 1;
            }
            return r;
        }
        if self.branches.len() >= self.max_branches {
            return Err(Failure::BranchLimit);
        }
        let preemptions = self.preemptions();
        let mut threads = seed;
        let initial_active = match active {
            Some(a) => if a < threads.len() && threads[a] == Sched::Skip {
                Some(a)
            } else {
                None
            },
            None => None,
        };
        let choice = match initial_active {
            Some(a) => Some(a),
            None => {
                let s = find(&threads, Sched::Skip);
                if s < threads.len() {
                    Some(s)
                } else {
                    let y = find(&threads, Sched::Yield);
                    if y < threads.len() {
                        Some(y)
                    } else {
                        None
                    }
                }
            },
        };
        if let Some(c) = choice {
            proof {
                lemma_first_from_bounds(threads@, Sched::Skip, 0);
                lemma_first_from_bounds(threads@, Sched::Yield, 0);
            }
            assert(c < threads@.len());
            threads.set(c, Sched::Active);
        }
        self.branches.push(Branch::Schedule(ScheduleBranch { preemptions, initial_active, threads }));
        self.pos = self.pos + 1;
        assert(self.branches@.drop_last() =~= old(self).branches@);
        Ok(choice)
    }

    /// Marks, at the scheduling decision `point`, thread `thread` as one to explore in a
    /// later run, since its next operation races with the one made at `point`.
    pub fn backtrack(&mut self, point: usize, thread: usize)
        requires
            old(self).wf(),
        ensures
            final(self).wf(),
            final(self).pos == old(self).pos,
            final(self).max_branches == old(self).max_branches,
            final(self).preemption_bound == old(self).preemption_bound,
            final(self).branches@.len() == old(self).branches@.len(),
            forall|j: int|
                0 <= j < old(self).branches@.len() && j != point ==> final(self).branches@[j]
                    == old(self).branches@[j],
            forall|j: int|
                0 <= j < old(self).branches@.len() ==> branch_measure(
                    #[trigger] final(self).branches@[j],
                ) <= branch_measure(old(self).branches@[j]),
            point < old(self).branches@.len() ==> match old(self).branches@[point as int] {
                Branch::Schedule(s) => if thread < s.threads@.len() {
                    match final(self).branches@[point as int] {
                        Branch::Schedule(s2) => s2.threads@ == backtracked(
                            s,
                            thread as int,
                            old(self).preemption_bound,
                        ) && s2.preemptions == s.preemptions && s2.initial_active == s.initial_active,
                        Branch::Load(_) => false,
                    }
                } else {
                    final(self).branches@[point as int] == old(self).branches@[point as int]
                },
                Branch::Load(_) => final(self).branches@[point as int] == old(self).branches@[point as int],
            },
            point < old(self).branches@.len() ==> explored_at(
                final(self).branches@[point as int],
                thread as int,
                old(self).preemption_bound,
            ),
            forall|j: int, u: int|
                0 <= j < old(self).branches@.len() && explored_at(
                    old(self).branches@[j],
                    u,
                    old(self).preemption_bound,
                ) ==> #[trigger] explored_at(final(self).branches@[j], u, old(self).preemption_bound),
    {
        if point >= self.branches.len() {
            return;
        }
        let in_range = match &self.branches[point] {
            Branch::Schedule(s) => thread < s.threads.len(),
            Branch::Load(_) => false,
        };
        if !in_range {
            return;
        }
        let bound = self.preemption_bound;
        let ghost before = self.branches@[point as int];
        match &mut self.branches[point] {
            Branch::Schedule(s) => {
                s.backtrack(thread, bound);
            },
            Branch::Load(_) => {},
        }
        proof {
            match (before, self.branches@[point as int]) {
                (Branch::Schedule(s0), Branch::Schedule(s2)) => {
                    lemma_backtrack_marks(s0, s2, thread as int, bound);
                },
                _ => {},
            }
        }
    }

    /// Moves to the next run: the newest decision with an alternative left takes it and
    /// every later decision is dropped. False when no decision has an alternative left,
    /// which ends the search.
    pub fn step(&mut self) -> (r: bool)
        requires
            old(self).wf(),
        ensures
            final(self).wf(),
            final(self).pos == 0,
            final(self).max_branches == old(self).max_branches,
            final(self).preemption_bound == old(self).preemption_bound,
            r == exists|k: int|
                0 <= k < old(self).branches@.len() && has_alternative(#[trigger] old(self).branches@[k]),
            r ==> stepped(old(self).branches@, final(self).branches@),
            r ==> lex_step(old(self).branches@, final(self).branches@),
            !r ==> final(self).branches@.len() == 0,
    {
        self.pos = 0;
        while self.branches.len() > 0
            invariant
                self.wf(),
                self.pos == 0,
                self.max_branches == old(self).max_branches,
                self.preemption_bound == old(self).preemption_bound,
                self.branches@.len() <= old(self).branches@.len(),
                self.branches@ == old(self).branches@.take(self.branches@.len() as int),
                forall|j: int|
                    self.branches@.len() <= j < old(self).branches@.len() ==> !has_alternative(
                        #[trigger] old(self).branches@[j],
                    ),
            decreases self.branches@.len(),
        {
            let ghost k = self.branches@.len() - 1;
            let last = self.branches.pop().unwrap();
            assert(last == old(self).branches@[k]);
            match last {
                Branch::Load(mut l) => {
                    if l.values.len() > 0 && l.pos < l.values.len() - 1 {
                        l.pos = l.pos + 1;
                        self.branches.push(Branch::Load(l));
                        assert(lex_step(old(self).branches@, self.branches@)) by {
                            assert(self.branches@[k] == Branch::Load(l));
                        }
                        assert(stepped(old(self).branches@, self.branches@)) by {
                            assert(self.branches@[k] == Branch::Load(l));
                            assert(has_alternative(old(self).branches@[k]));
                        }
                        return true;
                    }
                },
                Branch::Schedule(mut s) => {
                    if s.advance() {
                        self.branches.push(Branch::Schedule(s));
                        assert(lex_step(old(self).branches@, self.branches@)) by {
                            assert(self.branches@[k] == Branch::Schedule(s));
                        }
                        assert(stepped(old(self).branches@, self.branches@)) by {
                            assert(self.branches@[k] == Branch::Schedule(s));
                            assert(has_alternative(old(self).branches@[k]));
                        }
                        return true;
                    }
                },
            }
            assert(self.branches@ =~= old(self).branches@.take(self.branches@.len() as int));
        }
        false
    }
}

/// `b` to the power `e`.
pub open spec fn power(b: nat, e: nat) -> nat
    decreases e,
{
    if e == 0 {
        1
    } else {
        b * power(b, (e - 1) as nat)
    }
}

/// The remaining work at decision `i`; a decision not made yet counts at the most.
pub open spec fn digit(s: Seq<Branch>, i: int, base: nat) -> nat {
    if i < s.len() {
        branch_measure(s[i])
    } else {
        (base - 1) as nat
    }
}

/// Decisions `i` up to `len` read as the digits of a number in base `base`, the earliest
/// decision the most significant.
pub open spec fn rank_from(s: Seq<Branch>, i: nat, len: nat, base: nat) -> nat
    decreases len - i,
{
    if i >= len {
        0
    } else {
        digit(s, i as int, base) * power(base, (len - 1 - i) as nat) + rank_from(
            s,
            i + 1,
            len,
            base,
        )
    }
}

/// Every decision of `s` leaves less than `base` alternatives, and `s` holds at most `len`
/// decisions.
pub open spec fn bounded(s: Seq<Branch>, len: nat, base: nat) -> bool {
    &&& base >= 1
    &&& s.len() <= len
    &&& forall|i: int| 0 <= i < s.len() ==> branch_measure(#[trigger] s[i]) < base
}

proof fn lemma_rank_tail(s: Seq<Branch>, i: nat, len: nat, base: nat)
    requires
        bounded(s, len, base),
        i <= len,
    ensures
        rank_from(s, i, len, base) < power(base, (len - i) as nat),
    decreases len - i,
{
    if i < len {
        lemma_rank_tail(s, i + 1, len, base);
        let p = power(base, (len - 1 - i) as nat);
        let d = digit(s, i as int, base);
        let rest = rank_from(s, i + 1, len, base);
        assert(d < base);
        assert((len - (i + 1)) as nat == (len - 1 - i) as nat);
        assert(power(base, (len - i) as nat) == base * p);
        assert(d * p + rest < base * p) by (nonlinear_arith)
            requires
                d < base,
                rest < p,
        ;
    }
}

proof fn lemma_rank_prefix(old: Seq<Branch>, new: Seq<Branch>, i: nat, k: nat, len: nat, base: nat)
    requires
        bounded(old, len, base),
        bounded(new, len, base),
        i <= k < len,
        k < old.len(),
        new.len() == k + 1,
        forall|j: int| 0 <= j < k ==> new[j] == old[j],
        branch_measure(new[k as int]) < branch_measure(old[k as int]),
    ensures
        rank_from(new, i, len, base) < rank_from(old, i, len, base),
    decreases k - i,
{
    let p = power(base, (len - 1 - i) as nat);
    if i == k {
        lemma_rank_tail(new, k + 1, len, base);
        assert((len - (k + 1)) as nat == (len - 1 - k) as nat);
        let dn = digit(new, k as int, base);
        let dold = digit(old, k as int, base);
        let rn = rank_from(new, k + 1, len, base);
        let ro = rank_from(old, k + 1, len, base);
        assert(dn * p + rn < dold * p + ro) by (nonlinear_arith)
            requires
                dn < dold,
                rn < p,
        ;
    } else {
        lemma_rank_prefix(old, new, i + 1, k, len, base);
        assert(digit(new, i as int, base) == digit(old, i as int, base));
    }
}

proof fn lemma_rank_pointwise(old: Seq<Branch>, new: Seq<Branch>, i: nat, len: nat, base: nat)
    requires
        bounded(old, len, base),
        bounded(new, len, base),
        i <= len,
        forall|j: int| i <= j < len ==> digit(new, j, base) <= digit(old, j, base),
    ensures
        rank_from(new, i, len, base) <= rank_from(old, i, len, base),
    decreases len - i,
{
    if i < len {
        lemma_rank_pointwise(old, new, i + 1, len, base);
        let p = power(base, (len - 1 - i) as nat);
        let dn = digit(new, i as int, base);
        let dold = digit(old, i as int, base);
        assert(dn * p <= dold * p) by (nonlinear_arith)
            requires
                dn <= dold,
        ;
    }
}

/// A successful `step` strictly lowers the rank of the path: with at most `len` decisions,
/// each leaving less than `base` alternatives, the search can take only finitely many
/// steps.
pub proof fn lemma_step_lowers_rank(old: Seq<Branch>, new: Seq<Branch>, len: nat, base: nat)
    requires
        bounded(old, len, base),
        bounded(new, len, base),
        lex_step(old, new),
    ensures
        rank_from(new, 0, len, base) < rank_from(old, 0, len, base),
{
    let k = choose|k: int|
        0 <= k < old.len() && new.len() == k + 1 && (forall|i: int| 0 <= i < k ==> new[i] == old[i])
            && branch_measure(#[trigger] new[k]) < branch_measure(old[k]);
    lemma_rank_prefix(old, new, 0, k as nat, len, base);
}

/// A run never raises the rank of the path: it replays recorded decisions, only lowers
/// what they leave to explore (backtracking), and appends new ones.
pub proof fn lemma_run_keeps_rank(old: Seq<Branch>, new: Seq<Branch>, len: nat, base: nat)
    requires
        bounded(old, len, base),
        bounded(new, len, base),
        new.len() >= old.len(),
        forall|j: int|
            0 <= j < old.len() ==> branch_measure(#[trigger] new[j]) <= branch_measure(old[j]),
    ensures
        rank_from(new, 0, len, base) <= rank_from(old, 0, len, base),
{
    assert forall|j: int| 0 <= j < len implies digit(new, j, base) <= digit(old, j, base) by {
        if j < old.len() {
        } else if j < new.len() {
            assert(branch_measure(new[j]) < base);
        }
    }
    lemma_rank_pointwise(old, new, 0, len, base);
}

} // verus!
