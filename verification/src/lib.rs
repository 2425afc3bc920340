pub mod delta;
pub mod edits;
pub mod entry;
pub mod gitignore;
pub mod laws;
pub mod ops;
pub mod relpath;
pub mod repos;
pub mod repository;
pub mod scanner;
pub mod snapshot;
pub mod status;
pub mod update;

use vstd::prelude::*;

verus! {

/// A process-local stable identifier for a worktree entry.
#[derive(Clone, Copy, Debug, PartialEq, Eq, Structural, Hash)]
pub struct ProjectEntryId(pub u64);

impl ProjectEntryId {
    /// Allocates the next id from a monotone counter, advancing the counter.
    pub fn new(counter: &mut u64) -> (r: ProjectEntryId)
        requires
            *old(counter) < u64::MAX,
        ensures
            r.0 == *old(counter),
            *final(counter) == *old(counter) + 1,
    {
        let id = ProjectEntryId(*counter);
        *counter = *counter + 1;
        id
    }

    pub fn from_proto(id: u64) -> (r: ProjectEntryId)
        ensures
            r.0 == id,
    {
        ProjectEntryId(id)
    }

    pub fn to_proto(&self) -> (r: u64)
        ensures
            r == self.0,
    {
        self.0
    }

    pub fn to_usize(&self) -> (r: usize)
        ensures
            r == self.0 as usize,
    {
        self.0 as usize
    }
}

} // verus!
