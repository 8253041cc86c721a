//! The decision a supervising loop takes on each cycle.
//!
//! The loop itself lives outside this crate (it sleeps and performs process
//! work), but what it does on a cycle is decided here: shutdown wins over
//! everything and leaves the other latches untouched, otherwise the pending
//! child-exit and reload notifications are consumed together.

use vstd::prelude::*;

use crate::signals::SignalState;

verus! {

/// What one cycle of the supervising loop must do.
pub struct CycleDecision {
    /// Begin the terminal shutdown sequence.
    pub shutdown: bool,
    /// Poll every tracked process for exits and apply restart policy.
    pub reap: bool,
    /// Acknowledge a reconfiguration request (currently only logged).
    pub reload: bool,
}

/// Poll the latches once and decide the work of this cycle.
///
/// If shutdown was requested the decision is shutdown alone and the other
/// latches are left pending: shutdown is terminal, so they are never
/// consumed afterwards. Otherwise the child-exit and reload latches are
/// taken (read and cleared) and reported.
pub fn poll_cycle(signals: &mut SignalState) -> (d: CycleDecision)
    ensures
        d.shutdown == old(signals).spec_shutdown_requested(),
        final(signals).spec_shutdown_requested() == old(signals).spec_shutdown_requested(),
        d.shutdown ==> {
            &&& !d.reap
            &&& !d.reload
            &&& final(signals).spec_child_exited() == old(signals).spec_child_exited()
            &&& final(signals).spec_reload_requested() == old(signals).spec_reload_requested()
        },
        !d.shutdown ==> {
            &&& d.reap == old(signals).spec_child_exited()
            &&& d.reload == old(signals).spec_reload_requested()
            &&& !final(signals).spec_child_exited()
            &&& !final(signals).spec_reload_requested()
        },
{
    if signals.is_shutdown_requested() {
        CycleDecision { shutdown: true, reap: false, reload: false }
    } else {
        let reap = signals.take_child_exited();
        let reload = signals.take_reload_requested();
        CycleDecision { shutdown: false, reap, reload }
    }
}

} // verus!
