use initd::config::{RestartPolicy, ServiceConfig, ServiceType};
use initd::dependency::{resolve_start_order, ResolveError};

fn svc(name: &str, deps: &[&str]) -> ServiceConfig {
    ServiceConfig {
        name: name.to_string(),
        exec_path: format!("/usr/bin/{}", name),
        args: Vec::new(),
        depends_on: deps.iter().map(|d| d.to_string()).collect(),
        restart: RestartPolicy::OnFailure,
        service_type: ServiceType::Simple,
        environment: Vec::new(),
    }
}

#[test]
fn no_services_returns_empty() {
    let order = resolve_start_order(&Vec::new()).unwrap();
    assert!(order.is_empty());
}

#[test]
fn single_service_no_deps() {
    let services = vec![svc("console", &[])];
    let order = resolve_start_order(&services).unwrap();
    assert_eq!(order, vec!["console"]);
}

#[test]
fn linear_chain() {
    let services = vec![
        svc("dbus", &[]),
        svc("compositor", &["dbus"]),
        svc("shell", &["compositor"]),
    ];
    let order = resolve_start_order(&services).unwrap();
    assert_eq!(order, vec!["dbus", "compositor", "shell"]);
}

#[test]
fn diamond_dependency() {
    // A -> B, A -> C, B -> D, C -> D
    let services = vec![
        svc("a", &[]),
        svc("b", &["a"]),
        svc("c", &["a"]),
        svc("d", &["b", "c"]),
    ];
    let order = resolve_start_order(&services).unwrap();
    assert_eq!(order, vec!["a", "b", "c", "d"]);
}

#[test]
fn independent_services_sorted_alphabetically() {
    let services = vec![svc("zebra", &[]), svc("alpha", &[]), svc("middle", &[])];
    let order = resolve_start_order(&services).unwrap();
    assert_eq!(order, vec!["alpha", "middle", "zebra"]);
}

#[test]
fn circular_dependency_detected() {
    let services = vec![svc("a", &["b"]), svc("b", &["a"])];
    let err = resolve_start_order(&services).unwrap_err();
    assert!(err.message().contains("circular dependency"));
}

#[test]
fn unknown_dependency_detected() {
    let services = vec![svc("console", &["nonexistent"])];
    let err = resolve_start_order(&services).unwrap_err();
    assert!(err.message().contains("console"));
    assert!(err.message().contains("nonexistent"));
    assert!(err.message().contains("unknown service"));
}

#[test]
fn complex_graph() {
    // network depends on dbus
    // compositor depends on dbus
    // shell depends on compositor, network
    // audio depends on dbus
    let services = vec![
        svc("dbus", &[]),
        svc("network", &["dbus"]),
        svc("compositor", &["dbus"]),
        svc("shell", &["compositor", "network"]),
        svc("audio", &["dbus"]),
    ];
    let order = resolve_start_order(&services).unwrap();

    // dbus must be first
    assert_eq!(order[0], "dbus");
    // shell must be after compositor and network
    let shell_pos = order.iter().position(|s| s == "shell").unwrap();
    let comp_pos = order.iter().position(|s| s == "compositor").unwrap();
    let net_pos = order.iter().position(|s| s == "network").unwrap();
    assert!(shell_pos > comp_pos);
    assert!(shell_pos > net_pos);
}

#[test]
fn unknown_dependency_names_first_offender() {
    let services = vec![
        svc("a", &[]),
        svc("b", &["a", "ghost"]),
        svc("c", &["phantom"]),
    ];
    match resolve_start_order(&services).unwrap_err() {
        ResolveError::UnknownDependency {
            service,
            dependency,
        } => {
            assert_eq!(service, "b");
            assert_eq!(dependency, "ghost");
        }
        other => panic!("expected an unknown-dependency failure, got {:?}", other),
    }
}

#[test]
fn circular_dependency_lists_every_unplaced_name() {
    // a and b form the cycle; c waits on the cycle and is unplaced too
    let services = vec![
        svc("a", &["b"]),
        svc("b", &["a"]),
        svc("c", &["a"]),
        svc("free", &[]),
    ];
    match resolve_start_order(&services).unwrap_err() {
        ResolveError::CircularDependency { names } => {
            assert_eq!(names, vec!["a", "b", "c"]);
        }
        other => panic!("expected a circular-dependency failure, got {:?}", other),
    }
}

#[test]
fn unknown_dependency_message_is_exact() {
    let services = vec![svc("console", &["nonexistent"])];
    let err = resolve_start_order(&services).unwrap_err();
    assert_eq!(
        err.message(),
        "service 'console' depends on unknown service 'nonexistent'"
    );
}

#[test]
fn circular_dependency_message_joins_names() {
    let services = vec![svc("a", &["b"]), svc("b", &["a"])];
    let err = resolve_start_order(&services).unwrap_err();
    assert_eq!(
        err.message(),
        "circular dependency detected involving: a, b"
    );
}
