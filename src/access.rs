use vstd::prelude::*;

use crate::vv::{vv_le, VersionVec};

verus! {

/// The last operation on an object: its position in the path and the partial-order
/// reduction clock of the thread that performed it.
pub struct Access {
    pub path_id: usize,
    pub dpor_vv: VersionVec,
}

impl Access {
    pub fn new(path_id: usize, version: &VersionVec) -> (r: Access)
        ensures
            r.path_id == path_id,
            r.dpor_vv@ == version@,
    {
        Access { path_id, dpor_vv: version.snapshot() }
    }

    pub fn set(&mut self, path_id: usize, version: &VersionVec)
        ensures
            final(self).path_id == path_id,
            final(self).dpor_vv@ == version@,
    {
        self.path_id = path_id;
        self.dpor_vv.set(version);
    }

    /// Records an access in `access`, creating it if there was none.
    pub fn set_or_create(access: &mut Option<Access>, path_id: usize, version: &VersionVec)
        ensures
            *final(access) is Some,
            (*final(access))->Some_0.path_id == path_id,
            (*final(access))->Some_0.dpor_vv@ == version@,
    {
        match access {
            Some(a) => a.set(path_id, version),
            None => {
                *access = Some(Access::new(path_id, version));
            },
        }
    }

    /// Position of the access in the path.
    pub fn path_id(&self) -> (r: usize)
        ensures
            r == self.path_id,
    {
        self.path_id
    }

    pub fn version(&self) -> (r: &VersionVec)
        ensures
            *r == self.dpor_vv,
    {
        &self.dpor_vv
    }

    /// True when the access happens before a thread whose clock is `version`.
    pub fn happens_before(&self, version: &VersionVec) -> (r: bool)
        ensures
            r == vv_le(self.dpor_vv@, version@),
    {
        self.dpor_vv.le(version)
    }
}

} // verus!
