use vstd::prelude::*;

verus! {

/// A vector clock: one logical clock per thread slot.
pub struct VersionVec {
    versions: Vec<u64>,
}

/// Pointwise less-or-equal: every slot of `a` is at most the same slot of `b`.
pub open spec fn vv_le(a: Seq<u64>, b: Seq<u64>) -> bool {
    &&& a.len() == b.len()
    &&& forall|i: int| 0 <= i < a.len() ==> a[i] <= b[i]
}

pub open spec fn max_u64(a: u64, b: u64) -> u64 {
    if a >= b {
        a
    } else {
        b
    }
}

/// Pointwise maximum of two clocks of the same width.
pub open spec fn vv_join(a: Seq<u64>, b: Seq<u64>) -> Seq<u64> {
    Seq::new(a.len(), |i: int| max_u64(a[i], b[i]))
}

/// The clock after slot `i` has advanced by one (saturating at the top of `u64`).
pub open spec fn vv_inc(a: Seq<u64>, i: int) -> Seq<u64> {
    a.update(i, if a[i] == u64::MAX { a[i] } else { (a[i] + 1) as u64 })
}

impl View for VersionVec {
    type V = Seq<u64>;

    closed spec fn view(&self) -> Seq<u64> {
        self.versions@
    }
}

impl VersionVec {
    /// An all-zero clock with `n` slots.
    pub fn new(n: usize) -> (r: VersionVec)
        ensures
            r@ == Seq::new(n as nat, |i: int| 0u64),
    {
        let mut versions: Vec<u64> = Vec::with_capacity(n);
        let mut k: usize = 0;
        while k < n
            invariant
                k <= n,
                versions@ == Seq::new(k as nat, |i: int| 0u64),
            decreases n - k,
        {
            versions.push(0);
            k = k + 1;
            assert(versions@ =~= Seq::new(k as nat, |i: int| 0u64));
        }
        VersionVec { versions }
    }

    pub fn len(&self) -> (r: usize)
        ensures
            r == self@.len(),
    {
        self.versions.len()
    }

    /// The clock of slot `i`.
    pub fn get(&self, i: usize) -> (r: u64)
        requires
            i < self@.len(),
        ensures
            r == self@[i as int],
    {
        self.versions[i]
    }

    /// Advances the clock of slot `i`.
    pub fn inc(&mut self, i: usize)
        requires
            i < old(self)@.len(),
        ensures
            final(self)@ == vv_inc(old(self)@, i as int),
    {
        let v = self.versions[i];
        let n = if v == u64::MAX {
            v
        } else {
            v + 1
        };
        self.versions.set(i, n);
    }

    /// Joins `other` into this clock: each slot becomes the larger of the two.
    pub fn join(&mut self, other: &VersionVec)
        requires
            old(self)@.len() == other@.len(),
        ensures
            final(self)@ == vv_join(old(self)@, other@),
    {
        let ghost start = self@;
        let n = self.versions.len();
        let mut k: usize = 0;
        while k < n
            invariant
                n == start.len(),
                n == other@.len(),
                k <= n,
                self@.len() == n,
                forall|i: int| 0 <= i < k ==> self@[i] == max_u64(start[i], other@[i]),
                forall|i: int| k <= i < n ==> self@[i] == start[i],
            decreases n - k,
        {
            let a = self.versions[k];
            let b = other.versions[k];
            if b > a {
                self.versions.set(k, b);
            }
            k = k + 1;
        }
        assert(self@ =~= vv_join(start, other@));
    }

    /// Overwrites this clock with `other`.
    pub fn set(&mut self, other: &VersionVec)
        ensures
            final(self)@ == other@,
    {
        self.versions = other.versions.clone();
    }

    /// A copy of this clock.
    pub fn snapshot(&self) -> (r: VersionVec)
        ensures
            r@ == self@,
    {
        VersionVec { versions: self.versions.clone() }
    }

    /// True when this clock happens before or equals `other`.
    pub fn le(&self, other: &VersionVec) -> (r: bool)
        ensures
            r == vv_le(self@, other@),
    {
        if self.versions.len() != other.versions.len() {
            return false;
        }
        let n = self.versions.len();
        let mut k: usize = 0;
        while k < n
            invariant
                n == self@.len(),
                n == other@.len(),
                k <= n,
                forall|i: int| 0 <= i < k ==> self@[i] <= other@[i],
            decreases n - k,
        {
            if self.versions[k] > other.versions[k] {
                return false;
            }
            k = k + 1;
        }
        true
    }
}

/// Happens-before-or-equal is a partial order: reflexive.
pub proof fn lemma_le_reflexive(a: Seq<u64>)
    ensures
        vv_le(a, a),
{
}

/// Happens-before-or-equal is a partial order: transitive.
pub proof fn lemma_le_transitive(a: Seq<u64>, b: Seq<u64>, c: Seq<u64>)
    requires
        vv_le(a, b),
        vv_le(b, c),
    ensures
        vv_le(a, c),
{
    assert forall|i: int| 0 <= i < a.len() implies a[i] <= c[i] by {
        assert(a[i] <= b[i]);
        assert(b[i] <= c[i]);
    }
}

/// The join of two clocks is their least upper bound.
pub proof fn lemma_join_least_upper_bound(a: Seq<u64>, b: Seq<u64>, c: Seq<u64>)
    requires
        a.len() == b.len(),
    ensures
        vv_le(a, vv_join(a, b)),
        vv_le(b, vv_join(a, b)),
        vv_le(a, c) && vv_le(b, c) ==> vv_le(vv_join(a, b), c),
{
}

} // verus!
