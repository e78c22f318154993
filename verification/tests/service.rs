use kubetransport::service::{
    KubernetesService, PodObject, PortSpec, ServiceName, ServiceNameError, ServiceObject,
    TargetPort,
};

#[test]
fn parse_service_name() {
    let sn = ServiceName::from_string("a.b.svc.cluster.local").unwrap();
    assert_eq!("a", sn.name);
    assert_eq!("b", sn.ns);

    assert!(ServiceName::from_string("a.b.c").is_err());
    assert_eq!(
        Err(ServiceNameError::MissingNamespace),
        ServiceName::from_string("nodots").map(|s| s.name)
    );
}

#[test]
fn service_name_to_string() {
    let sn = ServiceName {
        name: "crab".to_string(),
        ns: "default".to_string(),
    };
    assert_eq!("crab.default.svc.cluster.local", sn.to_string());
}

fn service_with_ports(ports: Vec<PortSpec>) -> KubernetesService {
    KubernetesService::from_svc(ServiceObject {
        name: "web".to_string(),
        ns: "default".to_string(),
        ports,
        selector: vec![("app".to_string(), "web".to_string())],
    })
}

#[test]
fn port_filter_keeps_tcp_only() {
    let svc = service_with_ports(vec![
        PortSpec {
            port: 80,
            target_port: None,
            protocol: Some("TCP".to_string()),
        },
        PortSpec {
            port: 53,
            target_port: None,
            protocol: Some("UDP".to_string()),
        },
    ]);
    assert_eq!(vec![(80, 80)], svc.service_ports);
}

#[test]
fn target_port_fallback() {
    let svc = service_with_ports(vec![PortSpec {
        port: 80,
        target_port: Some(TargetPort::Name("http".to_string())),
        protocol: None,
    }]);
    assert_eq!(vec![(80, 80)], svc.service_ports);

    let svc = service_with_ports(vec![PortSpec {
        port: 80,
        target_port: Some(TargetPort::Number(9376)),
        protocol: None,
    }]);
    assert_eq!(vec![(80, 9376)], svc.service_ports);
}

fn pod(labels: Vec<(&str, &str)>) -> PodObject {
    PodObject {
        name: "pod-1".to_string(),
        namespace: "default".to_string(),
        labels: labels
            .into_iter()
            .map(|(k, v)| (k.to_string(), v.to_string()))
            .collect(),
    }
}

#[test]
fn selector_matches_superset_labels() {
    let svc = KubernetesService::from_svc(ServiceObject {
        name: "web".to_string(),
        ns: "default".to_string(),
        ports: vec![],
        selector: vec![
            ("app".to_string(), "a".to_string()),
            ("tier".to_string(), "t".to_string()),
        ],
    });
    assert!(svc.match_pod(&pod(vec![("app", "a"), ("tier", "t"), ("extra", "x")])));
    assert!(!svc.match_pod(&pod(vec![("app", "a")])));
    assert!(!svc.match_pod(&pod(vec![("app", "a"), ("tier", "wrong")])));
}

#[test]
fn empty_selector_matches_nothing() {
    let svc = KubernetesService::from_svc(ServiceObject {
        name: "web".to_string(),
        ns: "default".to_string(),
        ports: vec![],
        selector: vec![],
    });
    assert!(!svc.match_pod(&pod(vec![("app", "a")])));
}
