//! Value types for service identity, service ports and label selectors:
//! the canonical `name.namespace.svc.cluster.local` form, the projection
//! of a service object's ports to TCP `(port, target)` pairs, and the
//! matching of a service's selector against a pod's labels.

#![verifier::loop_isolation(false)]

use vstd::prelude::*;

use crate::addr::{find_char, spec_find, HostAddr};

verus! {

/// Errors from reading a service name out of its textual form.
#[derive(Clone, Copy, Debug, PartialEq, Eq, Structural)]
pub enum ServiceNameError {
    /// No dot at all: a namespace cannot follow.
    MissingNamespace,
    /// What follows the second dot-segment is not `.svc.cluster.local`.
    InvalidSuffix,
}

/// A service's identity: its name and its namespace.
#[derive(Debug)]
pub struct ServiceName {
    pub name: String,
    pub ns: String,
}

/// Mathematical model of a service name.
pub struct ServiceNameModel {
    pub name: Seq<char>,
    pub ns: Seq<char>,
}

impl View for ServiceName {
    type V = ServiceNameModel;

    open spec fn view(&self) -> ServiceNameModel {
        ServiceNameModel { name: self.name@, ns: self.ns@ }
    }
}

impl Clone for ServiceName {
    /// A clone has the same model.
    fn clone(&self) -> (r: Self)
        ensures
            r@ == self@,
    {
        ServiceName { name: self.name.clone(), ns: self.ns.clone() }
    }
}

impl PartialEq for ServiceName {
    fn eq(&self, o: &ServiceName) -> (r: bool) {
        crate::hostsfile::str_eq(self.name.as_str(), o.name.as_str()) && crate::hostsfile::str_eq(
            self.ns.as_str(),
            o.ns.as_str(),
        )
    }
}

impl vstd::std_specs::cmp::PartialEqSpecImpl for ServiceName {
    open spec fn obeys_eq_spec() -> bool {
        true
    }

    open spec fn eq_spec(&self, o: &ServiceName) -> bool {
        self.name@ == o.name@ && self.ns@ == o.ns@
    }
}

/// Reading `name.namespace.svc.cluster.local`: everything after the second
/// dot-segment must be literally `.svc.cluster.local`.
pub open spec fn spec_parse_service_name(s: Seq<char>) -> Result<
    ServiceNameModel,
    ServiceNameError,
> {
    let i = spec_find(s, '.');
    if i == s.len() {
        Err(ServiceNameError::MissingNamespace)
    } else {
        let rest = s.skip(i + 1);
        let j = spec_find(rest, '.');
        if j == rest.len() {
            Err(ServiceNameError::InvalidSuffix)
        } else if rest.skip(j) == ".svc.cluster.local"@ {
            Ok(ServiceNameModel { name: s.take(i), ns: rest.take(j) })
        } else {
            Err(ServiceNameError::InvalidSuffix)
        }
    }
}

impl ServiceName {
    /// Read a service name out of its canonical textual form.
    pub fn from_string(s: &str) -> (r: Result<ServiceName, ServiceNameError>)
        ensures
            ({
                let p = spec_parse_service_name(s@);
                match r {
                    Ok(sn) => p == Ok::<ServiceNameModel, ServiceNameError>(sn@),
                    Err(e) => p == Err::<ServiceNameModel, ServiceNameError>(e),
                }
            }),
    {
        let n = s.unicode_len();
        proof {
            assert(s@.skip(0) =~= s@);
        }
        let i = find_char(s, 0, '.');
        if i == n {
            return Err(ServiceNameError::MissingNamespace);
        }
        let ghost rest = s@.skip(i + 1);
        let j = find_char(s, i + 1, '.');
        if j == n {
            assert(spec_find(rest, '.') == rest.len());
            return Err(ServiceNameError::InvalidSuffix);
        }
        let suffix = s.substring_char(j, n);
        proof {
            assert(rest.skip(j - (i + 1)) =~= s@.subrange(j as int, n as int));
        }
        if crate::hostsfile::str_eq(suffix, ".svc.cluster.local") {
            let name = String::from_str(s.substring_char(0, i));
            let ns = String::from_str(s.substring_char(i + 1, j));
            proof {
                assert(s@.take(i as int) =~= s@.subrange(0, i as int));
                assert(rest.take(j - (i + 1)) =~= s@.subrange(i + 1, j as int));
            }
            Ok(ServiceName { name, ns })
        } else {
            Err(ServiceNameError::InvalidSuffix)
        }
    }

    /// The canonical textual form, `name.namespace.svc.cluster.local`.
    pub fn to_string(&self) -> (r: String)
        ensures
            r@ == self.name@ + "."@ + self.ns@ + ".svc.cluster.local"@,
    {
        let mut r = self.name.clone();
        r.append(".");
        r.append(self.ns.as_str());
        r.append(".svc.cluster.local");
        r
    }
}

// ---------------------------------------------------------------------------
// Services, pods, ports and selectors
// ---------------------------------------------------------------------------

/// A service port's target as the cluster states it: a number, or the
/// symbolic name of a container port.
#[derive(Debug)]
pub enum TargetPort {
    Number(i32),
    Name(String),
}

/// One port of a service object, as plain values.
#[derive(Debug)]
pub struct PortSpec {
    pub port: i32,
    pub target_port: Option<TargetPort>,
    pub protocol: Option<String>,
}

/// A service object, as plain values: identity, ports, label selector.
#[derive(Debug)]
pub struct ServiceObject {
    pub name: String,
    pub ns: String,
    pub ports: Vec<PortSpec>,
    pub selector: Vec<(String, String)>,
}

/// A pod, as plain values: its name, namespace and labels.
#[derive(Debug)]
pub struct PodObject {
    pub name: String,
    pub namespace: String,
    pub labels: Vec<(String, String)>,
}

/// A service as this system tracks it: identity, the retained TCP
/// `(service_port, target_port)` pairs, and the label selector.
#[derive(Debug)]
pub struct KubernetesService {
    pub service_name: ServiceName,
    pub service_ports: Vec<(i32, i32)>,
    pub selector: Vec<(String, String)>,
}

/// A service name mapped to a local loopback address.
#[derive(Debug)]
pub struct LocallyMappedService {
    pub service_name: ServiceName,
    pub ip: HostAddr,
}

/// Mathematical model of a locally mapped service.
pub struct LocalServiceModel {
    pub name: ServiceNameModel,
    pub ip: HostAddr,
}

impl View for LocallyMappedService {
    type V = LocalServiceModel;

    open spec fn view(&self) -> LocalServiceModel {
        LocalServiceModel { name: self.service_name@, ip: self.ip }
    }
}

impl DeepView for LocallyMappedService {
    type V = LocalServiceModel;

    open spec fn deep_view(&self) -> LocalServiceModel {
        self@
    }
}

impl Clone for LocallyMappedService {
    /// A clone has the same model.
    fn clone(&self) -> (r: Self)
        ensures
            r@ == self@,
    {
        LocallyMappedService { service_name: self.service_name.clone(), ip: self.ip }
    }
}

/// Label lists as sequences of character-sequence pairs.
pub open spec fn labels_model(v: Seq<(String, String)>) -> Seq<(Seq<char>, Seq<char>)> {
    v.map_values(|p: (String, String)| (p.0@, p.1@))
}

/// Mathematical model of a tracked service.
pub struct ServiceModel {
    pub name: ServiceNameModel,
    pub ports: Seq<(i32, i32)>,
    pub selector: Seq<(Seq<char>, Seq<char>)>,
}

impl View for KubernetesService {
    type V = ServiceModel;

    open spec fn view(&self) -> ServiceModel {
        ServiceModel {
            name: self.service_name@,
            ports: self.service_ports@,
            selector: labels_model(self.selector@),
        }
    }
}

fn clone_labels(v: &Vec<(String, String)>) -> (r: Vec<(String, String)>)
    ensures
        labels_model(r@) == labels_model(v@),
{
    let mut r: Vec<(String, String)> = Vec::new();
    let mut i: usize = 0;
    while i < v.len()
        invariant
            0 <= i <= v@.len(),
            labels_model(r@) =~= labels_model(v@).take(i as int),
        decreases v@.len() - i,
    {
        let p = (v[i].0.clone(), v[i].1.clone());
        r.push(p);
        proof {
            assert(labels_model(r@) =~= labels_model(r@.drop_last()).push(
                (r@.last().0@, r@.last().1@),
            ));
        }
        i += 1;
    }
    proof {
        assert(labels_model(v@).take(v@.len() as int) =~= labels_model(v@));
    }
    r
}

fn clone_ports(v: &Vec<(i32, i32)>) -> (r: Vec<(i32, i32)>)
    ensures
        r@ == v@,
{
    let mut r: Vec<(i32, i32)> = Vec::new();
    let mut i: usize = 0;
    while i < v.len()
        invariant
            0 <= i <= v@.len(),
            r@ =~= v@.take(i as int),
        decreases v@.len() - i,
    {
        r.push(v[i]);
        i += 1;
    }
    proof {
        assert(v@.take(v@.len() as int) =~= v@);
    }
    r
}

impl Clone for KubernetesService {
    /// A clone has the same model.
    fn clone(&self) -> (r: Self)
        ensures
            r@ == self@,
    {
        KubernetesService {
            service_name: self.service_name.clone(),
            service_ports: clone_ports(&self.service_ports),
            selector: clone_labels(&self.selector),
        }
    }
}

/// Whether a port is retained: its protocol is TCP, the default when
/// absent.
pub open spec fn spec_port_kept(p: PortSpec) -> bool {
    match p.protocol {
        None => true,
        Some(s) => s@ == "TCP"@,
    }
}

/// The retained pair: the service port, and the numeric target port, which
/// falls back to the service port when symbolic or missing.
pub open spec fn spec_port_pair(p: PortSpec) -> (i32, i32) {
    (
        p.port,
        match p.target_port {
            Some(TargetPort::Number(n)) => n,
            Some(TargetPort::Name(_)) => p.port,
            None => p.port,
        },
    )
}

/// The retained `(service_port, target_port)` pairs of a port list, in
/// order.
pub open spec fn spec_project_ports(ps: Seq<PortSpec>) -> Seq<(i32, i32)>
    decreases ps.len(),
{
    if ps.len() == 0 {
        seq![]
    } else {
        let rest = spec_project_ports(ps.drop_last());
        if spec_port_kept(ps.last()) {
            rest.push(spec_port_pair(ps.last()))
        } else {
            rest
        }
    }
}

impl KubernetesService {
    /// Project a service object: keep the TCP ports with the target-port
    /// fallback applied, and flatten identity and selector.
    pub fn from_svc(svc: ServiceObject) -> (r: KubernetesService)
        ensures
            r@.name.name == svc.name@,
            r@.name.ns == svc.ns@,
            r@.ports == spec_project_ports(svc.ports@),
            r@.selector == labels_model(svc.selector@),
    {
        let mut ports: Vec<(i32, i32)> = Vec::new();
        let mut i: usize = 0;
        proof {
            assert(svc.ports@.take(0) =~= Seq::<PortSpec>::empty());
        }
        while i < svc.ports.len()
            invariant
                0 <= i <= svc.ports@.len(),
                ports@ == spec_project_ports(svc.ports@.take(i as int)),
            decreases svc.ports@.len() - i,
        {
            let p = &svc.ports[i];
            let kept = match &p.protocol {
                None => true,
                Some(s) => crate::hostsfile::str_eq(s.as_str(), "TCP"),
            };
            proof {
                assert(svc.ports@.take(i + 1).drop_last() =~= svc.ports@.take(i as int));
                assert(svc.ports@.take(i + 1).last() == svc.ports@[i as int]);
            }
            if kept {
                let target = match &p.target_port {
                    Some(TargetPort::Number(n)) => *n,
                    Some(TargetPort::Name(_)) => p.port,
                    None => p.port,
                };
                ports.push((p.port, target));
            }
            i += 1;
        }
        proof {
            assert(svc.ports@.take(svc.ports@.len() as int) =~= svc.ports@);
        }
        KubernetesService {
            service_name: ServiceName { name: svc.name, ns: svc.ns },
            service_ports: ports,
            selector: svc.selector,
        }
    }

    /// Whether this service's selector matches the pod's labels: the
    /// selector is non-empty, and each of its pairs appears among the
    /// labels.  An empty selector matches no pod.
    pub fn match_pod(&self, pod: &PodObject) -> (r: bool)
        ensures
            r == spec_selector_matches(self@.selector, labels_model(pod.labels@)),
    {
        if self.selector.len() == 0 {
            return false;
        }
        let mut i: usize = 0;
        while i < self.selector.len()
            invariant
                0 <= i <= self.selector@.len(),
                self.selector@.len() > 0,
                forall|k: int|
                    0 <= k < i ==> labels_model(pod.labels@).contains(
                        #[trigger] labels_model(self.selector@)[k],
                    ),
            decreases self.selector@.len() - i,
        {
            let found = labels_contain(&pod.labels, &self.selector[i].0, &self.selector[i].1);
            if !found {
                proof {
                    let ghost si = labels_model(self.selector@)[i as int];
                    assert(!labels_model(pod.labels@).contains(si));
                }
                return false;
            }
            i += 1;
        }
        true
    }
}

/// Whether the selector pairs all appear among the labels; an empty
/// selector matches nothing.
pub open spec fn spec_selector_matches(
    sel: Seq<(Seq<char>, Seq<char>)>,
    labels: Seq<(Seq<char>, Seq<char>)>,
) -> bool {
    sel.len() > 0 && forall|i: int| 0 <= i < sel.len() ==> labels.contains(#[trigger] sel[i])
}

/// Whether the labels contain this key/value pair.
fn labels_contain(labels: &Vec<(String, String)>, k: &String, v: &String) -> (r: bool)
    ensures
        r == labels_model(labels@).contains((k@, v@)),
{
    let mut i: usize = 0;
    while i < labels.len()
        invariant
            0 <= i <= labels@.len(),
            forall|j: int| 0 <= j < i ==> labels_model(labels@)[j] != (k@, v@),
        decreases labels@.len() - i,
    {
        if crate::hostsfile::str_eq(labels[i].0.as_str(), k.as_str()) && crate::hostsfile::str_eq(
            labels[i].1.as_str(),
            v.as_str(),
        ) {
            proof {
                assert(labels_model(labels@)[i as int] == (k@, v@));
            }
            return true;
        }
        i += 1;
    }
    false
}

} // verus!
