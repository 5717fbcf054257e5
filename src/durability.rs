//! The durability policy: which writes are synced.
use vstd::prelude::*;
use crate::config::Durability;

verus! {

/// The policy and the writes that have not been synced yet.
pub struct DurabilityState {
    mode: Durability,
    pending: u64,
}

impl DurabilityState {
    pub closed spec fn mode(&self) -> Durability {
        self.mode
    }

    /// Writes since the last sync, as `FsyncEveryN` counts them.
    pub closed spec fn pending(&self) -> nat {
        self.pending as nat
    }

    pub open spec fn wf(&self) -> bool {
        match self.mode() {
            Durability::FsyncEveryN(n) => self.pending() < n,
            _ => self.pending() == 0,
        }
    }

    pub fn new(mode: Durability) -> (r: DurabilityState)
        requires
            !(mode matches Durability::FsyncEveryN(n) && n == 0),
        ensures
            r.wf(),
            r.mode() == mode,
            r.pending() == 0,
    {
        DurabilityState { mode, pending: 0 }
    }

    /// Records one write and says whether it must be synced now. Every write
    /// is flushed; `FsyncAlways` syncs each one, `FsyncEveryN(n)` syncs the
    /// write that brings the count to `n` and starts counting again.
    pub fn after_write(&mut self) -> (sync: bool)
        requires
            old(self).wf(),
        ensures
            final(self).wf(),
            final(self).mode() == old(self).mode(),
            match old(self).mode() {
                Durability::Flush => !sync,
                Durability::FsyncAlways => sync,
                Durability::FsyncEveryN(n) => if old(self).pending() + 1 >= n {
                    sync && final(self).pending() == 0
                } else {
                    !sync && final(self).pending() == old(self).pending() + 1
                },
            },
    {
        match self.mode {
            Durability::Flush => false,
            Durability::FsyncAlways => true,
            Durability::FsyncEveryN(n) => {
                if self.pending + 1 >= n {
                    self.pending = 0;
                    true
                } else {
                    self.pending = self.pending + 1;
                    false
                }
            },
        }
    }

    /// Records that everything written so far has been synced.
    pub fn note_synced(&mut self)
        requires
            old(self).wf(),
        ensures
            final(self).wf(),
            final(self).mode() == old(self).mode(),
            final(self).pending() == 0,
    {
        self.pending = 0;
    }

    /// Whether an orderly close must sync after its final flush: always,
    /// but under `Flush`.
    pub fn sync_on_shutdown(&self) -> (sync: bool)
        ensures
            sync == !(self.mode() is Flush),
    {
        match self.mode {
            Durability::Flush => false,
            _ => true,
        }
    }
}

} // verus!
