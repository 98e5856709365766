//! A model checker for concurrent programs: threads run cooperatively, one at a time,
//! and a search over their interleavings and over the values their atomic loads may read
//! explores every permutation, with dynamic partial-order reduction pruning the ones
//! that are equivalent to permutations already explored.

use vstd::prelude::*;

pub mod access;
pub mod atomic;
pub mod execution;
pub mod failure;
pub mod model;
pub mod mutex;
pub mod object;
pub mod path;
pub mod rt;
pub mod synchronize;
pub mod thread;
pub mod vv;

verus! {
} // verus!
