//! Where checkpoints are kept. The authority lives in memory; a checkpoint is what
//! it is rebuilt from after a crash.

use vstd::prelude::*;

use crate::base::keys;
use crate::base::keys::Dup;
use crate::proto::{CheckpointSnapshot, CheckpointSnapshotView};

verus! {

/// A place that keeps the latest checkpoint.
pub trait CheckpointStore {
    /// What is kept.
    spec fn kept(&self) -> Option<CheckpointSnapshotView>;

    /// Replaces what is kept; a failure leaves it.
    fn save(&mut self, snap: CheckpointSnapshot) -> (r: Result<(), String>)
        ensures
            final(self).kept() == if r is Ok {
                Some(snap@)
            } else {
                old(self).kept()
            },
    ;

    /// Reads what is kept.
    fn load(&self) -> (r: Result<Option<CheckpointSnapshot>, String>)
        ensures
            r matches Ok(snap) ==> keys::opt(snap) == self.kept(),
    ;
}

/// Keeps the latest checkpoint in memory.
#[derive(Default)]
pub struct MemoryCheckpointStore {
    pub inner: Option<CheckpointSnapshot>,
}

impl MemoryCheckpointStore {
    /// Nothing is kept.
    pub fn new() -> (s: Self)
        ensures
            s.kept() is None,
    {
        MemoryCheckpointStore { inner: None }
    }
}

impl CheckpointStore for MemoryCheckpointStore {
    open spec fn kept(&self) -> Option<CheckpointSnapshotView> {
        keys::opt(self.inner)
    }

    fn save(&mut self, snap: CheckpointSnapshot) -> (r: Result<(), String>)
        ensures
            r is Ok,
    {
        self.inner = Some(snap);
        Ok(())
    }

    fn load(&self) -> (r: Result<Option<CheckpointSnapshot>, String>)
        ensures
            r is Ok,
    {
        match &self.inner {
            Some(snap) => Ok(Some(snap.dup())),
            None => Ok(None),
        }
    }
}

} // verus!
