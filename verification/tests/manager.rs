use initd::config::{RestartPolicy, ServiceConfig, ServiceType};
use initd::service::{
    should_restart, ExitDisposition, ExitEvent, ServiceManager, ServiceState, MAX_RESTART_COUNT,
};

fn simple_service(name: &str, exec: &str) -> ServiceConfig {
    ServiceConfig {
        name: name.to_string(),
        exec_path: exec.to_string(),
        args: Vec::new(),
        depends_on: Vec::new(),
        restart: RestartPolicy::Never,
        service_type: ServiceType::Simple,
        environment: Vec::new(),
    }
}

fn exit(name: &str, success: bool) -> ExitEvent {
    ExitEvent {
        name: name.to_string(),
        success,
    }
}

#[test]
fn new_manager_is_empty() {
    let mgr = ServiceManager::new();
    assert_eq!(mgr.running_count(), 0);
}

#[test]
fn start_real_process() {
    let mut mgr = ServiceManager::new();
    let svc = simple_service("sleeper", "sleep");
    let mut svc = svc;
    svc.args = vec!["10".to_string()];

    mgr.start_service(svc);
    assert_eq!(mgr.running_count(), 1);
    assert_eq!(mgr.state(&"sleeper".to_string()), ServiceState::Running);

    // Clean up
    mgr.stop_all();
}

#[test]
fn reap_detects_exit() {
    let mut mgr = ServiceManager::new();
    let svc = simple_service("quick", "true");

    mgr.start_service(svc);
    assert_eq!(mgr.running_count(), 1);

    let exited = mgr.reap(&vec![exit("quick", true)]);
    assert_eq!(exited, vec!["quick"]);
    assert_eq!(mgr.running_count(), 0);
    assert_eq!(mgr.state(&"quick".to_string()), ServiceState::Finished);
}

#[test]
fn restart_on_failure_triggers_for_failing_service() {
    let mut mgr = ServiceManager::new();
    let svc = ServiceConfig {
        name: "failing".to_string(),
        exec_path: "false".to_string(),
        args: Vec::new(),
        depends_on: Vec::new(),
        restart: RestartPolicy::OnFailure,
        service_type: ServiceType::Simple,
        environment: Vec::new(),
    };

    mgr.start_service(svc);

    let exited = mgr.reap(&vec![exit("failing", false)]);
    // Service should have been restarted, so it's back in running
    assert!(exited.contains(&"failing".to_string()));
    assert_eq!(mgr.state(&"failing".to_string()), ServiceState::Running);

    // Clean up
    mgr.stop_all();
}

#[test]
fn no_restart_for_successful_on_failure_policy() {
    let mut mgr = ServiceManager::new();
    let svc = ServiceConfig {
        name: "ok".to_string(),
        exec_path: "true".to_string(),
        args: Vec::new(),
        depends_on: Vec::new(),
        restart: RestartPolicy::OnFailure,
        service_type: ServiceType::Simple,
        environment: Vec::new(),
    };

    mgr.start_service(svc);

    mgr.reap(&vec![exit("ok", true)]);
    // Successful exit with on-failure policy should NOT restart
    assert_eq!(mgr.state(&"ok".to_string()), ServiceState::Finished);
}

#[test]
fn oneshot_never_restarts() {
    let mut mgr = ServiceManager::new();
    let svc = ServiceConfig {
        name: "setup".to_string(),
        exec_path: "true".to_string(),
        args: Vec::new(),
        depends_on: Vec::new(),
        restart: RestartPolicy::Always,
        service_type: ServiceType::Oneshot,
        environment: Vec::new(),
    };

    mgr.start_service(svc);

    mgr.reap(&vec![exit("setup", true)]);
    // Oneshot should never restart even with Always policy
    assert_eq!(mgr.state(&"setup".to_string()), ServiceState::Finished);
}

#[test]
fn stop_service_kills_process() {
    let mut mgr = ServiceManager::new();
    let mut svc = simple_service("long", "sleep");
    svc.args = vec!["60".to_string()];

    mgr.start_service(svc);
    assert_eq!(mgr.state(&"long".to_string()), ServiceState::Running);

    let was_running = mgr.stop_service(&"long".to_string());
    assert!(was_running);
    assert_eq!(mgr.state(&"long".to_string()), ServiceState::Finished);
    assert_eq!(mgr.running_count(), 0);
}

#[test]
fn service_environment_is_passed() {
    let mut mgr = ServiceManager::new();
    // The environment rides along in the definition
    let svc = ServiceConfig {
        name: "envtest".to_string(),
        exec_path: "env".to_string(),
        args: Vec::new(),
        depends_on: Vec::new(),
        restart: RestartPolicy::Never,
        service_type: ServiceType::Oneshot,
        environment: vec![("MY_VAR".to_string(), "hello".to_string())],
    };

    mgr.start_service(svc);
    mgr.reap(&vec![exit("envtest", true)]);
    assert_eq!(mgr.state(&"envtest".to_string()), ServiceState::Finished);
}

#[test]
fn failing_service_is_respawned_up_to_the_cap() {
    let mut mgr = ServiceManager::new();
    let svc = ServiceConfig {
        name: "flaky".to_string(),
        exec_path: "false".to_string(),
        args: Vec::new(),
        depends_on: Vec::new(),
        restart: RestartPolicy::OnFailure,
        service_type: ServiceType::Simple,
        environment: Vec::new(),
    };
    mgr.start_service(svc);

    let name = "flaky".to_string();
    for _ in 0..MAX_RESTART_COUNT {
        let d = mgr.handle_exit(&name, false);
        assert_eq!(d, ExitDisposition::Respawned);
        assert_eq!(mgr.state(&name), ServiceState::Running);
    }
    // the sixth failing exit exhausts the cap
    let d = mgr.handle_exit(&name, false);
    assert_eq!(
        d,
        ExitDisposition::Finished {
            restarts_exhausted: true
        }
    );
    assert_eq!(mgr.state(&name), ServiceState::Finished);
}

#[test]
fn handle_exit_ignores_untracked_names() {
    let mut mgr = ServiceManager::new();
    let d = mgr.handle_exit(&"ghost".to_string(), false);
    assert_eq!(d, ExitDisposition::NotTracked);
    assert_eq!(mgr.state(&"ghost".to_string()), ServiceState::Stopped);
}

#[test]
fn restart_decision_table() {
    let (always, on_failure, never) = (
        RestartPolicy::Always,
        RestartPolicy::OnFailure,
        RestartPolicy::Never,
    );
    let (simple, oneshot) = (ServiceType::Simple, ServiceType::Oneshot);
    // a Oneshot service is never restarted
    assert!(!should_restart(always, oneshot, true));
    assert!(!should_restart(always, oneshot, false));
    assert!(!should_restart(on_failure, oneshot, false));
    assert!(!should_restart(never, oneshot, false));
    // a Simple service follows its policy
    assert!(should_restart(always, simple, true));
    assert!(should_restart(always, simple, false));
    assert!(!should_restart(on_failure, simple, true));
    assert!(should_restart(on_failure, simple, false));
    assert!(!should_restart(never, simple, true));
    assert!(!should_restart(never, simple, false));
}

#[test]
fn stop_all_stops_everything_in_table_order() {
    let mut mgr = ServiceManager::new();
    mgr.start_service(simple_service("one", "sleep"));
    mgr.start_service(simple_service("two", "sleep"));
    mgr.start_service(simple_service("three", "sleep"));

    let stopped = mgr.stop_all();
    assert_eq!(stopped, vec!["one", "two", "three"]);
    assert_eq!(mgr.running_count(), 0);
    assert_eq!(mgr.state(&"two".to_string()), ServiceState::Finished);
    assert!(mgr.running_service_names().is_empty());
}

#[test]
fn stop_service_is_a_no_op_for_untracked_names() {
    let mut mgr = ServiceManager::new();
    let was_running = mgr.stop_service(&"absent".to_string());
    assert!(!was_running);
    assert_eq!(mgr.state(&"absent".to_string()), ServiceState::Stopped);
}

#[test]
fn running_service_names_reports_table_order() {
    let mut mgr = ServiceManager::new();
    mgr.start_service(simple_service("b", "sleep"));
    mgr.start_service(simple_service("a", "sleep"));
    assert_eq!(mgr.running_service_names(), vec!["b", "a"]);
}

#[test]
fn tracked_restart_count_follows_respawns() {
    let mut mgr = ServiceManager::new();
    let svc = ServiceConfig {
        name: "bouncy".to_string(),
        exec_path: "false".to_string(),
        args: Vec::new(),
        depends_on: Vec::new(),
        restart: RestartPolicy::Always,
        service_type: ServiceType::Simple,
        environment: Vec::new(),
    };
    mgr.start_service(svc);
    let name = "bouncy".to_string();
    assert_eq!(mgr.tracked_restart_count(&name), Some(0));
    mgr.handle_exit(&name, false);
    assert_eq!(mgr.tracked_restart_count(&name), Some(1));
    mgr.stop_service(&name);
    assert_eq!(mgr.tracked_restart_count(&name), None);
}
