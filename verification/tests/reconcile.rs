use kubetransport::hostsfile::{Hosts, HostsError};
use kubetransport::reconcile::{Event, Handler, HandlerError};
use kubetransport::service::{PodObject, PortSpec, ServiceName, ServiceObject};

fn svc(name: &str) -> kubetransport::service::KubernetesService {
    kubetransport::service::KubernetesService::from_svc(ServiceObject {
        name: name.to_string(),
        ns: "default".to_string(),
        ports: vec![PortSpec {
            port: 80,
            target_port: None,
            protocol: None,
        }],
        selector: vec![("app".to_string(), name.to_string())],
    })
}

#[test]
fn applied_service_creates_entry_and_spawn() {
    let mut h = Handler::new(Hosts::from_str(""));
    let (acts, outcome) = h.handle(Event::AppliedService(svc("web")));
    assert!(outcome.is_ok());
    assert_eq!(1, acts.len());
    assert_eq!("web", acts[0].local.service_name.name);
    assert_eq!(
        "# START KUBETRANSPORT MANAGED
127.8.0.1 web.default.svc.cluster.local
# END KUBETRANSPORT MANAGED
",
        h.hosts.encode()
    );
}

#[test]
fn deleted_service_removes_entry() {
    let mut h = Handler::new(Hosts::from_str(""));
    let (_, r1) = h.handle(Event::AppliedService(svc("web")));
    assert!(r1.is_ok());
    let (acts, r2) = h.handle(Event::DeletedService(svc("web")));
    assert!(r2.is_ok());
    assert_eq!(0, acts.len());
    assert_eq!(
        "# START KUBETRANSPORT MANAGED
# END KUBETRANSPORT MANAGED
",
        h.hosts.encode()
    );
}

#[test]
fn reset_services_reapplies_with_same_addresses() {
    let mut h = Handler::new(Hosts::from_str(""));
    h.handle(Event::AppliedService(svc("one"))).1.unwrap();
    h.handle(Event::AppliedService(svc("two"))).1.unwrap();
    let before = h.hosts.encode();
    let (acts, outcome) = h.handle(Event::ResetServices(vec![svc("one"), svc("two")]));
    assert!(outcome.is_ok());
    assert_eq!(2, acts.len());
    assert_eq!(before, h.hosts.encode());
}

#[test]
fn pod_events_update_routing() {
    let mut h = Handler::new(Hosts::from_str(""));
    h.handle(Event::AppliedService(svc("web"))).1.unwrap();

    let pod = PodObject {
        name: "web-1".to_string(),
        namespace: "default".to_string(),
        labels: vec![("app".to_string(), "web".to_string())],
    };
    let (acts, outcome) = h.handle(Event::AppliedPod(pod));
    assert!(outcome.is_ok());
    assert_eq!(0, acts.len());

    let key = ServiceName {
        name: "web".to_string(),
        ns: "default".to_string(),
    };
    assert_eq!(Some("web-1".to_string()), h.pod_for(&key));

    let other = ServiceName {
        name: "db".to_string(),
        ns: "default".to_string(),
    };
    assert_eq!(None, h.pod_for(&other));
}

#[test]
fn unmatched_pod_is_not_routed() {
    let mut h = Handler::new(Hosts::from_str(""));
    h.handle(Event::AppliedService(svc("web"))).1.unwrap();
    let pod = PodObject {
        name: "stray-1".to_string(),
        namespace: "default".to_string(),
        labels: vec![("app".to_string(), "stray".to_string())],
    };
    let (_, outcome) = h.handle(Event::AppliedPod(pod));
    assert!(outcome.is_ok());
    let key = ServiceName {
        name: "web".to_string(),
        ns: "default".to_string(),
    };
    assert_eq!(None, h.pod_for(&key));
}

#[test]
fn applied_service_collision_is_hosts_error() {
    // the service's canonical name already sits on an unmanaged line
    let mut h = Handler::new(Hosts::from_str("1.2.3.4 web.default.svc.cluster.local\n"));
    let (acts, outcome) = h.handle(Event::AppliedService(svc("web")));
    assert_eq!(0, acts.len());
    assert_eq!(
        Err(HandlerError::Hosts(HostsError::NameCollidesWithUnmanaged)),
        outcome
    );
}

#[test]
fn reset_services_aborts_on_failure() {
    let mut h = Handler::new(Hosts::from_str("1.2.3.4 bad.default.svc.cluster.local\n"));
    let (acts, outcome) = h.handle(Event::ResetServices(vec![svc("good"), svc("bad")]));
    // the first service was applied and asks for a forwarder; the second
    // collides and abandons the batch
    assert_eq!(1, acts.len());
    assert_eq!("good", acts[0].local.service_name.name);
    assert_eq!(Err(HandlerError::ReconcileFailed), outcome);
}
