use vstd::prelude::*;

verus! {

/// States of the latch that lets one task at a time create a partition.
#[derive(Debug, Clone, Copy, PartialEq, Eq, Structural)]
pub enum SyncState {
    Idle,
    Creating,
    Created,
}

/// A latch for "current partition creation": at most one creator at a time.
#[derive(Debug, Clone, Copy, PartialEq, Eq, Structural)]
pub struct PearlSync {
    pub state: SyncState,
}

impl PearlSync {
    pub fn new() -> (r: PearlSync)
        ensures
            r.state == SyncState::Idle,
    {
        PearlSync { state: SyncState::Idle }
    }

    /// Takes the latch: true, and the state turns Creating, unless a creator
    /// holds it already.
    pub fn try_init(&mut self) -> (r: bool)
        ensures
            r == (old(self).state != SyncState::Creating),
            final(self).state == SyncState::Creating,
    {
        if self.state == SyncState::Creating {
            false
        } else {
            self.state = SyncState::Creating;
            true
        }
    }

    /// Releases the latch after a creation.
    pub fn mark_as_created(&mut self)
        ensures
            final(self).state == SyncState::Created,
    {
        self.state = SyncState::Created;
    }

    pub fn is_creating(&self) -> (r: bool)
        ensures
            r == (self.state == SyncState::Creating),
    {
        self.state == SyncState::Creating
    }
}

} // verus!
