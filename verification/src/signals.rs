//! Signal latches: booleans set when the front end observes an OS signal and
//! consumed by the supervising loop.
//!
//! `shutdown_requested` is sticky: no operation of this type clears it, so
//! once a termination-class signal was noted every later poll keeps reporting
//! it. `child_exited` and `reload_requested` have take-semantics: reading
//! them clears them, and several notes between two polls collapse into one
//! pending notification.

use vstd::prelude::*;

verus! {

/// The three latches the supervising loop polls.
pub struct SignalState {
    shutdown_requested: bool,
    child_exited: bool,
    reload_requested: bool,
}

impl SignalState {
    pub closed spec fn spec_shutdown_requested(self) -> bool {
        self.shutdown_requested
    }

    pub closed spec fn spec_child_exited(self) -> bool {
        self.child_exited
    }

    pub closed spec fn spec_reload_requested(self) -> bool {
        self.reload_requested
    }

    /// A fresh state has no pending signal.
    pub fn new() -> (s: Self)
        ensures
            !s.spec_shutdown_requested(),
            !s.spec_child_exited(),
            !s.spec_reload_requested(),
    {
        SignalState { shutdown_requested: false, child_exited: false, reload_requested: false }
    }

    /// Record that a termination-class signal arrived. One-way: nothing
    /// ever clears the latch again.
    pub fn note_shutdown_requested(&mut self)
        ensures
            final(self).spec_shutdown_requested(),
            final(self).spec_child_exited() == old(self).spec_child_exited(),
            final(self).spec_reload_requested() == old(self).spec_reload_requested(),
    {
        self.shutdown_requested = true;
    }

    /// Record that a child-termination signal arrived.
    pub fn note_child_exited(&mut self)
        ensures
            final(self).spec_child_exited(),
            final(self).spec_shutdown_requested() == old(self).spec_shutdown_requested(),
            final(self).spec_reload_requested() == old(self).spec_reload_requested(),
    {
        self.child_exited = true;
    }

    /// Record that the reconfiguration signal arrived.
    pub fn note_reload_requested(&mut self)
        ensures
            final(self).spec_reload_requested(),
            final(self).spec_shutdown_requested() == old(self).spec_shutdown_requested(),
            final(self).spec_child_exited() == old(self).spec_child_exited(),
    {
        self.reload_requested = true;
    }

    /// Report whether shutdown was requested; the latch stays set.
    pub fn is_shutdown_requested(&self) -> (r: bool)
        ensures
            r == self.spec_shutdown_requested(),
    {
        self.shutdown_requested
    }

    /// Report and clear the child-exit latch.
    pub fn take_child_exited(&mut self) -> (r: bool)
        ensures
            r == old(self).spec_child_exited(),
            !final(self).spec_child_exited(),
            final(self).spec_shutdown_requested() == old(self).spec_shutdown_requested(),
            final(self).spec_reload_requested() == old(self).spec_reload_requested(),
    {
        let r = self.child_exited;
        self.child_exited = false;
        r
    }

    /// Report and clear the reload latch.
    pub fn take_reload_requested(&mut self) -> (r: bool)
        ensures
            r == old(self).spec_reload_requested(),
            !final(self).spec_reload_requested(),
            final(self).spec_shutdown_requested() == old(self).spec_shutdown_requested(),
            final(self).spec_child_exited() == old(self).spec_child_exited(),
    {
        let r = self.reload_requested;
        self.reload_requested = false;
        r
    }
}

} // verus!
