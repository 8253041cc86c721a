//! The shutdown sequence: stop every service, unmount the early
//! filesystems in strict reverse order of their mount sequence, then
//! issue the power action. If the power action fails, the caller must
//! park forever: the first process of the system never exits.

use vstd::prelude::*;

use crate::mount::MountPoint;

verus! {

/// The final action of a shutdown sequence.
#[derive(Clone, Copy, Debug, PartialEq, Eq, Structural)]
pub enum PowerAction {
    PowerOff,
    Restart,
}

/// One step of the shutdown sequence, to be carried out in list order.
#[derive(Debug, Clone)]
pub enum ShutdownStep {
    /// Stop all running services (in the service manager and as
    /// processes).
    StopServices,
    /// Detach-unmount the named target; a failure is logged and not
    /// fatal.
    UnmountTarget(String),
    /// Issue the power action; on failure, park forever.
    Power(PowerAction),
}

/// Plan an orderly shutdown: stop the services first, then unmount the
/// given mounts last-mounted-first, then power off or restart.
pub fn shutdown_sequence(mounts: &Vec<MountPoint>, action: PowerAction) -> (steps: Vec<
    ShutdownStep,
>)
    ensures
        steps@.len() == mounts@.len() + 2,
        steps@[0] is StopServices,
        forall|i: int|
            0 <= i < mounts@.len() ==> ((#[trigger] steps@[1 + i]) matches
                ShutdownStep::UnmountTarget(t) && t@ == mounts@[mounts@.len() - 1 - i].target@),
        steps@[steps@.len() - 1] == ShutdownStep::Power(action),
{
    let n = mounts.len();
    let mut steps: Vec<ShutdownStep> = Vec::new();
    steps.push(ShutdownStep::StopServices);
    let mut i: usize = 0;
    while i < n
        invariant
            n == mounts@.len(),
            i <= n,
            steps@.len() == 1 + i,
            steps@[0] is StopServices,
            forall|k: int|
                0 <= k < i ==> ((#[trigger] steps@[1 + k]) matches ShutdownStep::UnmountTarget(t)
                    && t@ == mounts@[mounts@.len() - 1 - k].target@),
        decreases n - i,
    {
        steps.push(ShutdownStep::UnmountTarget(mounts[n - 1 - i].target.clone()));
        i = i + 1;
    }
    steps.push(ShutdownStep::Power(action));
    steps
}

} // verus!
