use vstd::prelude::*;

use core::marker::PhantomData;

use crate::access::Access;
use crate::atomic::{AtomicAction, AtomicState};
use crate::synchronize::Synchronize;
use crate::vv::VersionVec;

verus! {

/// Tracks one allocation, for leak detection.
pub struct AllocState {
    pub is_dropped: bool,
}

/// The state of a modeled reference-counted handle.
pub struct ArcState {
    pub ref_cnt: usize,
    pub last_access: Option<Access>,
}

/// The state of a modeled mutex.
pub struct MutexState {
    /// The thread holding the lock, if any.
    pub lock: Option<usize>,
    /// Causality released by the last unlock.
    pub synchronize: Synchronize,
    pub last_access: Option<Access>,
}

/// The state of a modeled condition variable.
pub struct CondvarState {
    /// The threads waiting on it, in the order they began to wait.
    pub waiters: Vec<usize>,
    pub last_access: Option<Access>,
}

/// The state of a modeled thread notifier.
pub struct NotifyState {
    pub notified: bool,
    pub last_access: Option<Access>,
}

/// Tracks accesses to a memory cell.
pub struct CellState {
    pub last_write: Option<Access>,
}

/// One object of the store.
pub enum Entry {
    Alloc(AllocState),
    Arc(ArcState),
    Atomic(AtomicState),
    Mutex(MutexState),
    Condvar(CondvarState),
    Notify(NotifyState),
    Cell(CellState),
}

/// The kind of operation a thread is about to perform on a reference-counted handle.
#[derive(Clone, Copy, Debug, PartialEq, Eq, Structural)]
pub enum ArcAction {
    RefInc,
    RefDec,
}

/// An operation, tagged by the kind of object it acts on.
#[derive(Clone, Copy, Debug, PartialEq, Eq, Structural)]
pub enum Action {
    Arc(ArcAction),
    Atomic(AtomicAction),
    /// An action with no dependencies of its own on the access history.
    Opaque,
}

/// The index of an object in the store, tagged with the kind of object it refers to;
/// `Ref<()>` has its kind erased.
pub struct Ref<T> {
    pub index: usize,
    pub kind: PhantomData<T>,
}

impl<T> Clone for Ref<T> {
    fn clone(&self) -> (r: Ref<T>)
        ensures
            r.index == self.index,
    {
        Ref { index: self.index, kind: PhantomData }
    }
}

impl<T> Copy for Ref<T> {

}

impl<T> Ref<T> {
    /// The same index with its kind erased.
    pub fn erase(self) -> (r: Ref<()>)
        ensures
            r.index == self.index,
    {
        Ref { index: self.index, kind: PhantomData }
    }

    pub fn ref_eq(self, other: Ref<T>) -> (r: bool)
        ensures
            r == (self.index == other.index),
    {
        self.index == other.index
    }
}

impl Ref<()> {
    /// An erased reference to the object at `index`.
    pub fn from_usize(index: usize) -> (r: Ref<()>)
        ensures
            r.index == index,
    {
        Ref { index, kind: PhantomData }
    }
}

/// The operation that a thread is about to perform.
#[derive(Clone, Copy)]
pub struct Operation {
    pub obj: usize,
    pub action: Action,
}

impl Operation {
    pub fn new(obj: Ref<()>, action: Action) -> (r: Operation)
        ensures
            r.obj == obj.index,
            r.action == action,
    {
        Operation { obj: obj.index, action }
    }

    pub fn object(&self) -> (r: Ref<()>)
        ensures
            r.index == self.obj,
    {
        Ref::from_usize(self.obj)
    }
}

/// True for the objects whose operations are scheduling points.
pub open spec fn branchable(e: Entry) -> bool {
    match e {
        Entry::Arc(_) | Entry::Atomic(_) | Entry::Mutex(_) | Entry::Condvar(_) | Entry::Notify(
            _,
        ) => true,
        _ => false,
    }
}

/// The last access of a branchable object.
pub open spec fn entry_last_access(e: Entry) -> Option<Access> {
    match e {
        Entry::Arc(s) => s.last_access,
        Entry::Atomic(s) => s.last_access,
        Entry::Mutex(s) => s.last_access,
        Entry::Condvar(s) => s.last_access,
        Entry::Notify(s) => s.last_access,
        _ => None,
    }
}

/// The object is still alive: an allocation not dropped, or a handle still referenced.
pub open spec fn leaked(e: Entry) -> bool {
    match e {
        Entry::Alloc(s) => !s.is_dropped,
        Entry::Arc(s) => s.ref_cnt > 0,
        _ => false,
    }
}

/// The same object, but for its last access.
pub open spec fn same_object(old: Entry, new: Entry) -> bool {
    match (old, new) {
        (Entry::Alloc(a), Entry::Alloc(b)) => a == b,
        (Entry::Cell(a), Entry::Cell(b)) => a == b,
        (Entry::Arc(a), Entry::Arc(b)) => a.ref_cnt == b.ref_cnt,
        (Entry::Atomic(a), Entry::Atomic(b)) => a.stores == b.stores,
        (Entry::Mutex(a), Entry::Mutex(b)) => a.lock == b.lock && a.synchronize == b.synchronize,
        (Entry::Condvar(a), Entry::Condvar(b)) => a.waiters == b.waiters,
        (Entry::Notify(a), Entry::Notify(b)) => a.notified == b.notified,
        _ => false,
    }
}

/// The same object, with its last access replaced.
pub open spec fn with_access_recorded(old: Entry, new: Entry, path_id: usize, version: Seq<u64>) -> bool {
    &&& entry_last_access(new) is Some
    &&& entry_last_access(new)->Some_0.path_id == path_id
    &&& entry_last_access(new)->Some_0.dpor_vv@ == version
    &&& same_object(old, new)
}

/// The objects of one execution, in order of creation.
pub struct Store {
    pub entries: Vec<Entry>,
}

impl Store {
    /// An empty store with room for `capacity` objects.
    pub fn with_capacity(capacity: usize) -> (r: Store)
        ensures
            r.entries@.len() == 0,
    {
        Store { entries: Vec::with_capacity(capacity) }
    }

    pub fn len(&self) -> (r: usize)
        ensures
            r == self.entries@.len(),
    {
        self.entries.len()
    }

    /// Appends an object; its reference is the next index.
    pub fn insert(&mut self, entry: Entry) -> (r: Ref<()>)
        ensures
            r.index == old(self).entries@.len(),
            final(self).entries@ == old(self).entries@.push(entry),
    {
        let index = self.entries.len();
        self.entries.push(entry);
        Ref::from_usize(index)
    }

    /// Appends an atomic.
    pub fn insert_atomic(&mut self, state: AtomicState) -> (r: Ref<AtomicState>)
        ensures
            r.index == old(self).entries@.len(),
            final(self).entries@ == old(self).entries@.push(Entry::Atomic(state)),
    {
        let index = self.entries.len();
        self.entries.push(Entry::Atomic(state));
        Ref { index, kind: PhantomData }
    }

    /// Appends a mutex.
    pub fn insert_mutex(&mut self, state: MutexState) -> (r: Ref<MutexState>)
        ensures
            r.index == old(self).entries@.len(),
            final(self).entries@ == old(self).entries@.push(Entry::Mutex(state)),
    {
        let index = self.entries.len();
        self.entries.push(Entry::Mutex(state));
        Ref { index, kind: PhantomData }
    }

    /// Keeps the objects up to and including `obj`.
    pub fn truncate<T>(&mut self, obj: Ref<T>)
        requires
            obj.index < usize::MAX,
        ensures
            final(self).entries@ == if obj.index + 1 < old(self).entries@.len() {
                old(self).entries@.take(obj.index + 1)
            } else {
                old(self).entries@
            },
    {
        self.entries.truncate(obj.index + 1);
    }

    /// Removes every object.
    pub fn clear(&mut self)
        ensures
            final(self).entries@.len() == 0,
    {
        self.entries.clear();
    }

    /// The last access of the object that `operation` acts on.
    pub fn last_dependent_access(&self, operation: Operation) -> (r: &Option<Access>)
        requires
            operation.obj < self.entries@.len(),
            branchable(self.entries@[operation.obj as int]),
        ensures
            *r == entry_last_access(self.entries@[operation.obj as int]),
    {
        match &self.entries[operation.obj] {
            Entry::Arc(s) => &s.last_access,
            Entry::Atomic(s) => &s.last_access,
            Entry::Mutex(s) => &s.last_access,
            Entry::Condvar(s) => &s.last_access,
            Entry::Notify(s) => &s.last_access,
            Entry::Alloc(_) => {
                assert(false);
                &None
            },
            Entry::Cell(_) => {
                assert(false);
                &None
            },
        }
    }

    /// Records `operation` as the last access of its object.
    pub fn set_last_access(&mut self, operation: Operation, path_id: usize, dpor_vv: &VersionVec)
        requires
            operation.obj < old(self).entries@.len(),
            branchable(old(self).entries@[operation.obj as int]),
        ensures
            final(self).entries@.len() == old(self).entries@.len(),
            forall|j: int|
                0 <= j < old(self).entries@.len() && j != operation.obj ==> final(self).entries@[j]
                    == old(self).entries@[j],
            with_access_recorded(
                old(self).entries@[operation.obj as int],
                final(self).entries@[operation.obj as int],
                path_id,
                dpor_vv@,
            ),
    {
        match &mut self.entries[operation.obj] {
            Entry::Arc(s) => Access::set_or_create(&mut s.last_access, path_id, dpor_vv),
            Entry::Atomic(s) => s.set_last_access(path_id, dpor_vv),
            Entry::Mutex(s) => Access::set_or_create(&mut s.last_access, path_id, dpor_vv),
            Entry::Condvar(s) => Access::set_or_create(&mut s.last_access, path_id, dpor_vv),
            Entry::Notify(s) => Access::set_or_create(&mut s.last_access, path_id, dpor_vv),
            Entry::Alloc(_) => {},
            Entry::Cell(_) => {},
        }
    }

    /// True when no object leaked.
    pub fn check_for_leaks(&self) -> (r: bool)
        ensures
            r == forall|i: int| 0 <= i < self.entries@.len() ==> !leaked(#[trigger] self.entries@[i]),
    {
        let n = self.entries.len();
        let mut k: usize = 0;
        while k < n
            invariant
                n == self.entries@.len(),
                k <= n,
                forall|i: int| 0 <= i < k ==> !leaked(#[trigger] self.entries@[i]),
            decreases n - k,
        {
            let leak = match &self.entries[k] {
                Entry::Alloc(s) => !s.is_dropped,
                Entry::Arc(s) => s.ref_cnt > 0,
                _ => false,
            };
            if leak {
                return false;
            }
            k = k + 1;
        }
        true
    }
}

} // verus!
