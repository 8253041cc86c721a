use initd::config::{RestartPolicy, ServiceType};
use initd::mount::early_mounts;
use initd::shutdown::{shutdown_sequence, PowerAction, ShutdownStep};

#[test]
fn early_mounts_in_expected_order() {
    let mounts = early_mounts();
    let targets: Vec<&str> = mounts.iter().map(|m| m.target.as_str()).collect();
    assert_eq!(targets, vec!["/proc", "/sys", "/dev", "/tmp", "/run"]);
    assert_eq!(mounts[0].fstype, "proc");
    assert_eq!(mounts[2].source, "devtmpfs");
}

#[test]
fn shutdown_unmounts_in_reverse_mount_order() {
    let mounts = early_mounts();
    let steps = shutdown_sequence(&mounts, PowerAction::PowerOff);
    assert_eq!(steps.len(), mounts.len() + 2);
    assert!(matches!(steps[0], ShutdownStep::StopServices));
    let unmounted: Vec<&str> = steps
        .iter()
        .filter_map(|s| match s {
            ShutdownStep::UnmountTarget(t) => Some(t.as_str()),
            _ => None,
        })
        .collect();
    assert_eq!(unmounted, vec!["/run", "/tmp", "/dev", "/sys", "/proc"]);
    assert!(matches!(
        steps[steps.len() - 1],
        ShutdownStep::Power(PowerAction::PowerOff)
    ));
}

#[test]
fn reboot_sequence_ends_with_restart() {
    let mounts = early_mounts();
    let steps = shutdown_sequence(&mounts, PowerAction::Restart);
    assert!(matches!(
        steps[steps.len() - 1],
        ShutdownStep::Power(PowerAction::Restart)
    ));
}

#[test]
fn field_defaults_match_the_configuration_format() {
    assert_eq!(RestartPolicy::default(), RestartPolicy::OnFailure);
    assert_eq!(ServiceType::default(), ServiceType::Simple);
}
