//! The early filesystem mount plan: which filesystems are mounted before
//! any service starts, and in which order. The shutdown sequence unmounts
//! them in strict reverse order (see `shutdown`).

use vstd::prelude::*;
use vstd::string::StringExecFns;

verus! {

/// One early mount: a pseudo-filesystem mounted at a fixed target.
pub struct MountPoint {
    pub source: String,
    pub target: String,
    pub fstype: String,
}

fn mount_point(source: &str, target: &str, fstype: &str) -> (m: MountPoint)
    ensures
        m.source@ == source@,
        m.target@ == target@,
        m.fstype@ == fstype@,
{
    MountPoint {
        source: String::from_str(source),
        target: String::from_str(target),
        fstype: String::from_str(fstype),
    }
}

/// The filesystems mounted before services start, in mount order.
pub fn early_mounts() -> (r: Vec<MountPoint>)
    ensures
        r@.len() == 5,
        r@[0].source@ == "proc"@ && r@[0].target@ == "/proc"@ && r@[0].fstype@ == "proc"@,
        r@[1].source@ == "sysfs"@ && r@[1].target@ == "/sys"@ && r@[1].fstype@ == "sysfs"@,
        r@[2].source@ == "devtmpfs"@ && r@[2].target@ == "/dev"@ && r@[2].fstype@ == "devtmpfs"@,
        r@[3].source@ == "tmpfs"@ && r@[3].target@ == "/tmp"@ && r@[3].fstype@ == "tmpfs"@,
        r@[4].source@ == "tmpfs"@ && r@[4].target@ == "/run"@ && r@[4].fstype@ == "tmpfs"@,
{
    let mut r: Vec<MountPoint> = Vec::new();
    r.push(mount_point("proc", "/proc", "proc"));
    r.push(mount_point("sysfs", "/sys", "sysfs"));
    r.push(mount_point("devtmpfs", "/dev", "devtmpfs"));
    r.push(mount_point("tmpfs", "/tmp", "tmpfs"));
    r.push(mount_point("tmpfs", "/run", "tmpfs"));
    r
}

} // verus!
