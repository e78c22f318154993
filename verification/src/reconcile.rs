//! The reconciler: a single owner of the hosts file, the known services
//! and the service-to-pod routing table, consuming one cluster event at a
//! time and answering with the forwarders to spawn.  All I/O — watching,
//! saving the hosts file, spawning — stays with the caller.

#![verifier::loop_isolation(false)]

use vstd::prelude::*;

use crate::addr::HostAddr;
use crate::hostsfile::{
    is_get_or_create_result, spec_known_services, spec_lookup, Hosts, HostsError, LineModel,
};
use crate::service::{
    labels_model, spec_selector_matches, KubernetesService, LocalServiceModel,
    LocallyMappedService, PodObject, ServiceModel, ServiceName, ServiceNameModel,
};

verus! {

/// Errors surfaced by event handling.
#[derive(Clone, Copy, Debug, PartialEq, Eq, Structural)]
pub enum HandlerError {
    /// A hosts-file operation failed.
    Hosts(HostsError),
    /// A service of a reset batch failed; the batch was abandoned there.
    ReconcileFailed,
    /// No known service matches the pod's labels.
    NoServiceMatched,
}

/// One event from the cluster, as plain values.
#[derive(Debug)]
pub enum Event {
    AppliedService(KubernetesService),
    DeletedService(KubernetesService),
    ResetServices(Vec<KubernetesService>),
    AppliedPod(PodObject),
    DeletedPod(PodObject),
    ResetPods(Vec<PodObject>),
}

/// An instruction to the caller: start a forwarder for this locally mapped
/// service with these ports.
#[derive(Debug)]
pub struct SpawnForwarder {
    pub local: LocallyMappedService,
    pub service: KubernetesService,
}

/// Mathematical model of a spawn instruction.
pub struct SpawnModel {
    pub local: LocalServiceModel,
    pub service: ServiceModel,
}

impl View for SpawnForwarder {
    type V = SpawnModel;

    open spec fn view(&self) -> SpawnModel {
        SpawnModel { local: self.local@, service: self.service@ }
    }
}

impl DeepView for SpawnForwarder {
    type V = SpawnModel;

    open spec fn deep_view(&self) -> SpawnModel {
        self@
    }
}

impl DeepView for KubernetesService {
    type V = ServiceModel;

    open spec fn deep_view(&self) -> ServiceModel {
        self@
    }
}

/// The canonical text of a service name.
pub open spec fn spec_full_name(n: ServiceNameModel) -> Seq<char> {
    n.name + "."@ + n.ns + ".svc.cluster.local"@
}

// ---------------------------------------------------------------------------
// The routing table as a map
// ---------------------------------------------------------------------------

/// The association list read as a map, later entries winning.
pub open spec fn routing_map(rt: Seq<(ServiceName, String)>) -> Map<ServiceNameModel, Seq<char>>
    decreases rt.len(),
{
    if rt.len() == 0 {
        Map::empty()
    } else {
        routing_map(rt.drop_last()).insert(rt.last().0@, rt.last().1@)
    }
}

/// No two routing entries share a key.
pub open spec fn routing_wf(rt: Seq<(ServiceName, String)>) -> bool {
    forall|i: int, j: int| 0 <= i < j < rt.len() ==> (#[trigger] rt[i]).0@ != (#[trigger] rt[j]).0@
}

proof fn lemma_routing_map_props(rt: Seq<(ServiceName, String)>)
    ensures
        forall|k: ServiceNameModel|
            routing_map(rt).dom().contains(k) <==> exists|i: int|
                0 <= i < rt.len() && (#[trigger] rt[i]).0@ == k,
        routing_wf(rt) ==> forall|i: int|
            0 <= i < rt.len() ==> routing_map(rt)[(#[trigger] rt[i]).0@] == rt[i].1@,
    decreases rt.len(),
{
    if rt.len() > 0 {
        lemma_routing_map_props(rt.drop_last());
        assert(forall|i: int| 0 <= i < rt.len() - 1 ==> rt.drop_last()[i] == rt[i]);
        assert forall|k: ServiceNameModel| routing_map(rt).dom().contains(k) implies exists|i: int|
            0 <= i < rt.len() && (#[trigger] rt[i]).0@ == k by {
            if k == rt.last().0@ {
                assert((rt[rt.len() - 1]).0@ == k);
            } else {
                assert(routing_map(rt.drop_last()).dom().contains(k));
                assert(exists|i: int|
                    0 <= i < rt.drop_last().len() && (#[trigger] rt.drop_last()[i]).0@ == k);
                let i = choose|i: int| 0 <= i < rt.drop_last().len() && (#[trigger] rt.drop_last()[i]).0@ == k;
                assert((rt[i]).0@ == k);
            }
        }
        assert forall|k: ServiceNameModel|
            (exists|i: int| 0 <= i < rt.len() && (#[trigger] rt[i]).0@ == k) implies routing_map(
            rt,
        ).dom().contains(k) by {
            let i = choose|i: int| 0 <= i < rt.len() && (#[trigger] rt[i]).0@ == k;
            if i < rt.len() - 1 {
                assert((rt.drop_last()[i]).0@ == k);
                assert(routing_map(rt.drop_last()).dom().contains(k));
                assert(routing_map(rt) == routing_map(rt.drop_last()).insert(
                    rt.last().0@,
                    rt.last().1@,
                ));
            } else {
                assert(k == rt.last().0@);
            }
        }
        if routing_wf(rt) {
            assert(routing_wf(rt.drop_last()));
            assert forall|i: int| 0 <= i < rt.len() implies routing_map(rt)[(#[trigger] rt[i]).0@]
                == rt[i].1@ by {
                if i < rt.len() - 1 {
                    assert((rt[i]).0@ != (rt[rt.len() - 1]).0@);
                    let ghost di = rt.drop_last()[i];
                    assert(routing_map(rt.drop_last())[di.0@] == di.1@);
                }
            }
        }
    }
}

/// Write `sn -> pod` into the table, replacing the entry for the key.
fn route_set(rt: &mut Vec<(ServiceName, String)>, sn: &ServiceName, pod: &String)
    requires
        routing_wf(old(rt)@),
    ensures
        routing_wf(final(rt)@),
        routing_map(final(rt)@) == routing_map(old(rt)@).insert(sn@, pod@),
{
    let mut i: usize = 0;
    while i < rt.len()
        invariant
            0 <= i <= rt@.len(),
            routing_wf(rt@),
            rt@ == old(rt)@,
            forall|j: int| 0 <= j < i ==> (#[trigger] rt@[j]).0@ != sn@,
        decreases rt@.len() - i,
    {
        let hit = rt[i].0.eq(sn);
        if hit {
            let ghost rt0 = rt@;
            rt.set(i, (sn.clone(), pod.clone()));
            proof {
                lemma_routing_update(rt0, i as int, sn@, rt@[i as int].1@);
                assert(rt@ =~= rt0.update(i as int, rt@[i as int]));
                assert forall|a: int, b: int| 0 <= a < b < rt@.len() implies (#[trigger] rt@[a]).0@
                    != (#[trigger] rt@[b]).0@ by {
                    assert(rt0[a].0@ != rt0[b].0@);
                }
            }
            return ;
        }
        i += 1;
    }
    let ghost rt0 = rt@;
    rt.push((sn.clone(), pod.clone()));
    proof {
        assert(rt@.drop_last() =~= rt0);
        assert forall|a: int, b: int| 0 <= a < b < rt@.len() implies (#[trigger] rt@[a]).0@ != (
        #[trigger] rt@[b]).0@ by {
            if b < rt@.len() - 1 {
                assert(rt0[a].0@ != rt0[b].0@);
            } else {
                assert(rt0[a].0@ != sn@);
            }
        }
    }
}

proof fn lemma_routing_update(rt: Seq<(ServiceName, String)>, i: int, k: ServiceNameModel, v: Seq<char>)
    requires
        routing_wf(rt),
        0 <= i < rt.len(),
        (rt[i]).0@ == k,
    ensures
        forall|p: (ServiceName, String)|
            p.0@ == k && p.1@ == v ==> routing_map(#[trigger] rt.update(i, p)) == routing_map(
                rt,
            ).insert(k, v),
    decreases rt.len(),
{
    assert forall|p: (ServiceName, String)| p.0@ == k && p.1@ == v implies routing_map(
        #[trigger] rt.update(i, p),
    ) == routing_map(rt).insert(k, v) by {
        let q = rt.update(i, p);
        if i == rt.len() - 1 {
            assert(q.drop_last() =~= rt.drop_last());
            assert(q.last() == p);
            assert(routing_map(q) == routing_map(rt.drop_last()).insert(k, v));
            assert(routing_map(rt).insert(k, v) =~= routing_map(rt.drop_last()).insert(k, v));
        } else {
            assert(q.drop_last() =~= rt.drop_last().update(i, p));
            assert(q.last() == rt.last());
            assert(routing_wf(rt.drop_last())) by {
                assert(forall|a: int| 0 <= a < rt.len() - 1 ==> rt.drop_last()[a] == rt[a]);
            }
            lemma_routing_update(rt.drop_last(), i, k, v);
            assert(routing_map(q) == routing_map(rt.drop_last()).insert(k, v).insert(
                rt.last().0@,
                rt.last().1@,
            ));
            assert(rt.last().0@ != k);
            assert(routing_map(rt.drop_last()).insert(k, v).insert(rt.last().0@, rt.last().1@)
                =~= routing_map(rt.drop_last()).insert(rt.last().0@, rt.last().1@).insert(k, v));
        }
    }
}

} // verus!

verus! {

// ---------------------------------------------------------------------------
// The handler's state
// ---------------------------------------------------------------------------

/// The reconciler's state: the hosts file, the known services,
/// deduplicated by name with the latest object winning, and the
/// service-to-pod routing table.
#[derive(Debug)]
pub struct Handler {
    pub hosts: Hosts,
    pub known_services: Vec<KubernetesService>,
    pub routing: Vec<(ServiceName, String)>,
}

impl Handler {
    /// The routing table carries each service name at most once.
    pub open spec fn wf(&self) -> bool {
        routing_wf(self.routing@)
    }

    pub fn new(hosts: Hosts) -> (h: Handler)
        ensures
            h.hosts == hosts,
            h.known_services@ == Seq::<KubernetesService>::empty(),
            routing_map(h.routing@) == Map::<ServiceNameModel, Seq<char>>::empty(),
            h.wf(),
    {
        Handler { hosts, known_services: Vec::new(), routing: Vec::new() }
    }

    /// The pod currently routing a service, if any.
    pub fn pod_for(&self, name: &ServiceName) -> (r: Option<String>)
        requires
            self.wf(),
        ensures
            match r {
                Some(p) => routing_map(self.routing@).dom().contains(name@) && routing_map(
                    self.routing@,
                )[name@] == p@,
                None => !routing_map(self.routing@).dom().contains(name@),
            },
    {
        proof {
            lemma_routing_map_props(self.routing@);
        }
        let mut i: usize = 0;
        while i < self.routing.len()
            invariant
                0 <= i <= self.routing@.len(),
                forall|j: int| 0 <= j < i ==> (#[trigger] self.routing@[j]).0@ != name@,
            decreases self.routing@.len() - i,
        {
            if self.routing[i].0.eq(name) {
                return Some(self.routing[i].1.clone());
            }
            i += 1;
        }
        None
    }
}

// ---------------------------------------------------------------------------
// Known services
// ---------------------------------------------------------------------------

/// The known-services list after an applied service: any entry with the
/// same name is dropped, and the new service goes to the end.
pub open spec fn spec_known_update(ks: Seq<ServiceModel>, svc: ServiceModel) -> Seq<ServiceModel> {
    ks.filter(|k: ServiceModel| k.name != svc.name).push(svc)
}

impl Handler {
    fn update_known(&mut self, svc: &KubernetesService)
        ensures
            final(self).hosts == old(self).hosts,
            final(self).routing@ == old(self).routing@,
            final(self).known_services.deep_view() == spec_known_update(
                old(self).known_services.deep_view(),
                svc@,
            ),
    {
        let ghost ks = self.known_services.deep_view();
        let mut kept: Vec<KubernetesService> = Vec::new();
        let mut i: usize = 0;
        proof {
            assert(ks.take(0) =~= Seq::<ServiceModel>::empty());
            assert(Seq::<ServiceModel>::empty().filter(|k: ServiceModel| k.name != svc@.name)
                =~= Seq::<ServiceModel>::empty());
            assert(kept.deep_view() =~= Seq::<ServiceModel>::empty());
        }
        while i < self.known_services.len()
            invariant
                0 <= i <= self.known_services@.len(),
                ks == self.known_services.deep_view(),
                kept.deep_view() == ks.take(i as int).filter(
                    |k: ServiceModel| k.name != svc@.name,
                ),
            decreases self.known_services@.len() - i,
        {
            let same = self.known_services[i].service_name.eq(&svc.service_name);
            proof {
                assert(ks.take(i + 1).drop_last() =~= ks.take(i as int));
                assert(ks.take(i + 1).last() == ks[i as int]);
                assert(ks[i as int] == self.known_services@[i as int]@);
                assert(same == (ks[i as int].name == svc@.name));
                reveal_with_fuel(Seq::filter, 2);
            }
            if !same {
                let c = self.known_services[i].clone();
                kept.push(c);
                proof {
                    assert(kept.deep_view() =~= kept.deep_view().take(kept.deep_view().len() - 1)
                        .push(kept@.last()@));
                }
            }
            i += 1;
        }
        proof {
            assert(ks.take(self.known_services@.len() as int) =~= ks);
        }
        let nc = svc.clone();
        kept.push(nc);
        self.known_services = kept;
        proof {
            assert(self.known_services.deep_view() =~= self.known_services.deep_view().take(
                self.known_services.deep_view().len() - 1,
            ).push(self.known_services@.last()@));
        }
    }
}

// ---------------------------------------------------------------------------
// Finding the local mapping for a service
// ---------------------------------------------------------------------------

/// The first locally mapped service carrying this name.
pub open spec fn spec_find_local(ls: Seq<LocalServiceModel>, n: ServiceNameModel) -> Option<
    LocalServiceModel,
>
    decreases ls.len(),
{
    if ls.len() == 0 {
        None
    } else if ls[0].name == n {
        Some(ls[0])
    } else {
        spec_find_local(ls.skip(1), n)
    }
}

proof fn lemma_find_local_at(ls: Seq<LocalServiceModel>, n: ServiceNameModel, k: int)
    requires
        0 <= k <= ls.len(),
        forall|j: int| 0 <= j < k ==> (#[trigger] ls[j]).name != n,
        k < ls.len() ==> ls[k].name == n,
    ensures
        k == ls.len() ==> spec_find_local(ls, n) == None::<LocalServiceModel>,
        k < ls.len() ==> spec_find_local(ls, n) == Some(ls[k]),
    decreases ls.len(),
{
    if ls.len() == 0 {
    } else if k == 0 {
    } else {
        assert(forall|j: int| 0 <= j < ls.skip(1).len() ==> ls.skip(1)[j] == ls[j + 1]);
        lemma_find_local_at(ls.skip(1), n, k - 1);
    }
}

fn find_local(ls: &Vec<LocallyMappedService>, n: &ServiceName) -> (r: Option<
    LocallyMappedService,
>)
    ensures
        match r {
            Some(lm) => spec_find_local(ls.deep_view(), n@) == Some(lm@),
            None => spec_find_local(ls.deep_view(), n@) == None::<LocalServiceModel>,
        },
{
    let mut i: usize = 0;
    while i < ls.len()
        invariant
            0 <= i <= ls@.len(),
            forall|j: int| 0 <= j < i ==> (#[trigger] ls.deep_view()[j]).name != n@,
        decreases ls@.len() - i,
    {
        if ls[i].service_name.eq(n) {
            proof {
                assert(ls.deep_view()[i as int] == ls@[i as int]@);
                lemma_find_local_at(ls.deep_view(), n@, i as int);
            }
            return Some(ls[i].clone());
        }
        proof {
            assert(ls.deep_view()[i as int] == ls@[i as int]@);
        }
        i += 1;
    }
    proof {
        lemma_find_local_at(ls.deep_view(), n@, ls@.len() as int);
    }
    None
}

} // verus!

verus! {

// ---------------------------------------------------------------------------
// Applying one service
// ---------------------------------------------------------------------------

/// The forwarders an applied service asks for: one, when the refreshed
/// local mappings carry its name; none otherwise.
pub open spec fn spec_spawn_actions(lines2: Seq<LineModel>, svc: ServiceModel) -> Seq<SpawnModel> {
    match spec_find_local(spec_known_services(lines2), svc.name) {
        Some(lm) => seq![SpawnModel { local: lm, service: svc }],
        None => seq![],
    }
}

/// One applied service: the known list is updated first; then the hosts
/// file allocates or reuses an address for the name, and on success the
/// refreshed local mapping, if found, is spawned.
pub open spec fn is_apply_step(
    lines: Seq<LineModel>,
    prev: Seq<LineModel>,
    known: Seq<ServiceModel>,
    svc: ServiceModel,
    lines2: Seq<LineModel>,
    known2: Seq<ServiceModel>,
    acts: Seq<SpawnModel>,
    res: Result<(), HostsError>,
) -> bool {
    known2 == spec_known_update(known, svc) && match res {
        Ok(()) => (exists|ip: HostAddr|
            #[trigger] is_get_or_create_result(
                lines,
                prev,
                spec_full_name(svc.name),
                Ok(ip),
                lines2,
            )) && acts == spec_spawn_actions(lines2, svc),
        Err(e) => is_get_or_create_result(lines, prev, spec_full_name(svc.name), Err(e), lines2)
            && acts == Seq::<SpawnModel>::empty(),
    }
}

impl Handler {
    fn apply_service(&mut self, svc: KubernetesService, acts: &mut Vec<SpawnForwarder>) -> (r:
        Result<(), HostsError>)
        ensures
            final(self).routing@ == old(self).routing@,
            final(self).hosts.prev_lines() == old(self).hosts.prev_lines(),
            ({
                let delta = match r {
                    Ok(()) => spec_spawn_actions(final(self).hosts.lines(), svc@),
                    Err(_) => Seq::<SpawnModel>::empty(),
                };
                final(acts).deep_view() == old(acts).deep_view() + delta && is_apply_step(
                    old(self).hosts.lines(),
                    old(self).hosts.prev_lines(),
                    old(self).known_services.deep_view(),
                    svc@,
                    final(self).hosts.lines(),
                    final(self).known_services.deep_view(),
                    delta,
                    r,
                )
            }),
    {
        let name = svc.service_name.to_string();
        self.update_known(&svc);
        match self.hosts.get_or_create_ip(&name) {
            Err(e) => {
                proof {
                    assert(final(acts).deep_view() =~= old(acts).deep_view() + Seq::<
                        SpawnModel,
                    >::empty());
                }
                Err(e)
            },
            Ok(ip) => {
                proof {
                    assert(is_get_or_create_result(
                        old(self).hosts.lines(),
                        old(self).hosts.prev_lines(),
                        spec_full_name(svc@.name),
                        Ok(ip),
                        self.hosts.lines(),
                    ));
                }
                let locals = self.hosts.get_known_services();
                match find_local(&locals, &svc.service_name) {
                    Some(lm) => {
                        let ghost a0 = acts.deep_view();
                        acts.push(SpawnForwarder { local: lm, service: svc });
                        proof {
                            assert(acts.deep_view() =~= acts.deep_view().take(
                                acts.deep_view().len() - 1,
                            ).push(acts@.last()@));
                            assert(acts.deep_view() =~= a0 + spec_spawn_actions(
                                self.hosts.lines(),
                                acts@.last()@.service,
                            ));
                        }
                        Ok(())
                    },
                    None => {
                        proof {
                            assert(acts.deep_view() =~= acts.deep_view() + Seq::<
                                SpawnModel,
                            >::empty());
                        }
                        Ok(())
                    },
                }
            },
        }
    }
}

// ---------------------------------------------------------------------------
// A reset batch
// ---------------------------------------------------------------------------

/// A reset batch applied in order, stopping at the first failure: the
/// relation between the state after the reset and the state after the
/// batch, with the spawn instructions collected along the way.
pub open spec fn is_applied_batch(
    lines0: Seq<LineModel>,
    prev: Seq<LineModel>,
    known0: Seq<ServiceModel>,
    svcs: Seq<ServiceModel>,
    lines2: Seq<LineModel>,
    known2: Seq<ServiceModel>,
    acts: Seq<SpawnModel>,
    ok: bool,
) -> bool
    decreases svcs.len(),
{
    if svcs.len() == 0 {
        lines2 == lines0 && known2 == known0 && acts == Seq::<SpawnModel>::empty() && ok
    } else {
        (exists|
            lm: Seq<LineModel>,
            km: Seq<ServiceModel>,
            a1: Seq<SpawnModel>,
            a2: Seq<SpawnModel>,
            res: Result<(), HostsError>,
        |
            #![trigger is_apply_step(lm, prev, km, svcs.last(), lines2, known2, a2, res), a1 + a2]
            is_applied_batch(lines0, prev, known0, svcs.drop_last(), lm, km, a1, true)
                && is_apply_step(lm, prev, km, svcs.last(), lines2, known2, a2, res) && acts == a1
                + a2 && (ok <==> res is Ok)) || (!ok && is_applied_batch(
            lines0,
            prev,
            known0,
            svcs.drop_last(),
            lines2,
            known2,
            acts,
            false,
        ))
    }
}

// ---------------------------------------------------------------------------
// Routing pods
// ---------------------------------------------------------------------------

/// The routing table after a pod event: each known service whose selector
/// matches the pod's labels routes to the pod.
pub open spec fn spec_sync_pod(
    known: Seq<ServiceModel>,
    labels: Seq<(Seq<char>, Seq<char>)>,
    pod: Seq<char>,
    m: Map<ServiceNameModel, Seq<char>>,
) -> Map<ServiceNameModel, Seq<char>>
    decreases known.len(),
{
    if known.len() == 0 {
        m
    } else {
        let m1 = spec_sync_pod(known.drop_last(), labels, pod, m);
        if spec_selector_matches(known.last().selector, labels) {
            m1.insert(known.last().name, pod)
        } else {
            m1
        }
    }
}

/// Whether any known service matches the labels.
pub open spec fn spec_any_match(
    known: Seq<ServiceModel>,
    labels: Seq<(Seq<char>, Seq<char>)>,
) -> bool {
    exists|i: int|
        0 <= i < known.len() && spec_selector_matches((#[trigger] known[i]).selector, labels)
}

/// The routing table after a whole pod-reset batch.
pub open spec fn spec_sync_pods(
    known: Seq<ServiceModel>,
    pods: Seq<PodObject>,
    m: Map<ServiceNameModel, Seq<char>>,
) -> Map<ServiceNameModel, Seq<char>>
    decreases pods.len(),
{
    if pods.len() == 0 {
        m
    } else {
        spec_sync_pod(
            known,
            labels_model(pods.last().labels@),
            pods.last().name@,
            spec_sync_pods(known, pods.drop_last(), m),
        )
    }
}

impl Handler {
    /// Route every known service that matches the pod's labels to the pod;
    /// an error when none matches.
    fn try_sync_service_port(&mut self, pod: &PodObject) -> (r: Result<(), HandlerError>)
        requires
            old(self).wf(),
        ensures
            final(self).wf(),
            final(self).hosts == old(self).hosts,
            final(self).known_services@ == old(self).known_services@,
            routing_map(final(self).routing@) == spec_sync_pod(
                old(self).known_services.deep_view(),
                labels_model(pod.labels@),
                pod.name@,
                routing_map(old(self).routing@),
            ),
            r is Ok <==> spec_any_match(old(self).known_services.deep_view(), labels_model(
                pod.labels@,
            )),
    {
        let ghost ks = self.known_services.deep_view();
        let ghost m0 = routing_map(self.routing@);
        let mut matched = false;
        let mut i: usize = 0;
        proof {
            assert(ks.take(0) =~= Seq::<ServiceModel>::empty());
        }
        while i < self.known_services.len()
            invariant
                0 <= i <= self.known_services@.len(),
                self.wf(),
                ks == self.known_services.deep_view(),
                self.hosts == old(self).hosts,
                self.known_services@ == old(self).known_services@,
                m0 == routing_map(old(self).routing@),
                routing_map(self.routing@) == spec_sync_pod(
                    ks.take(i as int),
                    labels_model(pod.labels@),
                    pod.name@,
                    m0,
                ),
                matched <==> exists|j: int|
                    0 <= j < i && spec_selector_matches(
                        (#[trigger] ks[j]).selector,
                        labels_model(pod.labels@),
                    ),
            decreases self.known_services@.len() - i,
        {
            proof {
                assert(ks.take(i + 1).drop_last() =~= ks.take(i as int));
                assert(ks.take(i + 1).last() == ks[i as int]);
                assert(ks[i as int] == self.known_services@[i as int]@);
            }
            let is_match = self.known_services[i].match_pod(pod);
            if is_match {
                let sn = self.known_services[i].service_name.clone();
                route_set(&mut self.routing, &sn, &pod.name);
                matched = true;
                proof {
                    assert(spec_selector_matches(ks[i as int].selector, labels_model(pod.labels@)));
                }
            }
            i += 1;
        }
        proof {
            assert(ks.take(self.known_services@.len() as int) =~= ks);
        }
        if matched {
            Ok(())
        } else {
            Err(HandlerError::NoServiceMatched)
        }
    }
}

} // verus!

verus! {

proof fn lemma_batch_abort_step(
    lines0: Seq<LineModel>,
    prev: Seq<LineModel>,
    known0: Seq<ServiceModel>,
    svcs: Seq<ServiceModel>,
    x: ServiceModel,
    lines2: Seq<LineModel>,
    known2: Seq<ServiceModel>,
    acts: Seq<SpawnModel>,
)
    requires
        is_applied_batch(lines0, prev, known0, svcs, lines2, known2, acts, false),
    ensures
        is_applied_batch(lines0, prev, known0, svcs.push(x), lines2, known2, acts, false),
{
    assert(svcs.push(x).drop_last() =~= svcs);
    assert(is_applied_batch(
        lines0,
        prev,
        known0,
        svcs.push(x).drop_last(),
        lines2,
        known2,
        acts,
        false,
    ));
    assert(svcs.push(x).len() > 0);
}

proof fn lemma_batch_snoc(
    lines0: Seq<LineModel>,
    prev: Seq<LineModel>,
    known0: Seq<ServiceModel>,
    svcs: Seq<ServiceModel>,
    x: ServiceModel,
    lm: Seq<LineModel>,
    km: Seq<ServiceModel>,
    a1: Seq<SpawnModel>,
    lines2: Seq<LineModel>,
    known2: Seq<ServiceModel>,
    a2: Seq<SpawnModel>,
    res: Result<(), HostsError>,
    acts: Seq<SpawnModel>,
)
    requires
        is_applied_batch(lines0, prev, known0, svcs, lm, km, a1, true),
        is_apply_step(lm, prev, km, x, lines2, known2, a2, res),
        acts == a1 + a2,
    ensures
        is_applied_batch(lines0, prev, known0, svcs.push(x), lines2, known2, acts, res is Ok),
{
    assert(svcs.push(x).drop_last() =~= svcs);
    assert(svcs.push(x).last() == x);
    assert(is_applied_batch(lines0, prev, known0, svcs.push(x).drop_last(), lm, km, a1, true));
    assert(is_apply_step(lm, prev, km, svcs.push(x).last(), lines2, known2, a2, res));
    assert(acts == a1 + a2);
}

impl Handler {
    /// Handle one cluster event: mutate the hosts file, the known services
    /// and the routing table as the event demands, and return the
    /// forwarders to spawn together with the event's outcome.  The caller
    /// saves the hosts file afterwards, success or not.
    pub fn handle(&mut self, e: Event) -> (r: (Vec<SpawnForwarder>, Result<(), HandlerError>))
        requires
            old(self).wf(),
        ensures
            final(self).wf(),
            match e {
                Event::AppliedService(svc) => final(self).routing@ == old(self).routing@ && final(self).hosts.prev_lines() == old(self).hosts.prev_lines() && (match r.1 {
                    Ok(()) => is_apply_step(
                        old(self).hosts.lines(),
                        old(self).hosts.prev_lines(),
                        old(self).known_services.deep_view(),
                        svc@,
                        final(self).hosts.lines(),
                        final(self).known_services.deep_view(),
                        r.0.deep_view(),
                        Ok(()),
                    ),
                    Err(HandlerError::Hosts(he)) => is_apply_step(
                        old(self).hosts.lines(),
                        old(self).hosts.prev_lines(),
                        old(self).known_services.deep_view(),
                        svc@,
                        final(self).hosts.lines(),
                        final(self).known_services.deep_view(),
                        r.0.deep_view(),
                        Err(he),
                    ),
                    _ => false,
                }),
                Event::DeletedService(svc) => r.0@.len() == 0 && final(self).routing@ == old(self).routing@ && final(self).known_services@ == old(self).known_services@ && final(self).hosts.prev_lines() == old(self).hosts.prev_lines() && (match spec_lookup(
                    old(self).hosts.lines(),
                    spec_full_name(svc@.name),
                ) {
                    Ok(None) => r.1 == Ok::<(), HandlerError>(()) && final(self).hosts.lines()
                        == old(self).hosts.lines(),
                    Ok(Some(i)) => r.1 == Ok::<(), HandlerError>(()) && final(self).hosts.lines()
                        == old(self).hosts.lines().remove(i),
                    Err(he) => r.1 == Err::<(), HandlerError>(HandlerError::Hosts(he)) && final(self).hosts.lines() == old(self).hosts.lines(),
                }),
                Event::ResetServices(svcs) => final(self).routing@ == old(self).routing@ && final(self).hosts.prev_lines() == old(self).hosts.lines() && is_applied_batch(
                    crate::laws::reset_kept(old(self).hosts.lines()),
                    old(self).hosts.lines(),
                    old(self).known_services.deep_view(),
                    svcs.deep_view(),
                    final(self).hosts.lines(),
                    final(self).known_services.deep_view(),
                    r.0.deep_view(),
                    r.1 is Ok,
                ) && (r.1 is Ok || r.1 == Err::<(), HandlerError>(HandlerError::ReconcileFailed)),
                Event::AppliedPod(p) => r.0@.len() == 0 && r.1 == Ok::<(), HandlerError>(())
                    && final(self).hosts == old(self).hosts && final(self).known_services@ == old(self).known_services@ && routing_map(final(self).routing@) == spec_sync_pod(
                    old(self).known_services.deep_view(),
                    labels_model(p.labels@),
                    p.name@,
                    routing_map(old(self).routing@),
                ),
                Event::DeletedPod(p) => r.0@.len() == 0 && r.1 == Ok::<(), HandlerError>(())
                    && final(self).hosts == old(self).hosts && final(self).known_services@ == old(self).known_services@ && final(self).routing@ == old(self).routing@,
                Event::ResetPods(pods) => r.0@.len() == 0 && r.1 == Ok::<(), HandlerError>(())
                    && final(self).hosts == old(self).hosts && final(self).known_services@ == old(self).known_services@ && routing_map(final(self).routing@) == spec_sync_pods(
                    old(self).known_services.deep_view(),
                    pods@,
                    routing_map(old(self).routing@),
                ),
            },
    {
        match e {
            Event::AppliedService(svc) => {
                let mut acts: Vec<SpawnForwarder> = Vec::new();
                proof {
                    assert(acts.deep_view() =~= Seq::<SpawnModel>::empty());
                }
                let ghost a0 = acts.deep_view();
                match self.apply_service(svc, &mut acts) {
                    Ok(()) => {
                        proof {
                            assert(a0 + spec_spawn_actions(self.hosts.lines(), svc@)
                                =~= spec_spawn_actions(self.hosts.lines(), svc@));
                        }
                        (acts, Ok(()))
                    },
                    Err(e2) => {
                        proof {
                            assert(a0 + Seq::<SpawnModel>::empty() =~= Seq::<SpawnModel>::empty());
                        }
                        (acts, Err(HandlerError::Hosts(e2)))
                    },
                }
            },
            Event::DeletedService(svc) => {
                let name = svc.service_name.to_string();
                match self.hosts.delete(&name) {
                    Ok(()) => (Vec::new(), Ok(())),
                    Err(e2) => (Vec::new(), Err(HandlerError::Hosts(e2))),
                }
            },
            Event::ResetServices(svcs) => {
                self.hosts.reset();
                let ghost lines1 = self.hosts.lines();
                let ghost prev1 = self.hosts.prev_lines();
                let ghost known1 = self.known_services.deep_view();
                let mut acts: Vec<SpawnForwarder> = Vec::new();
                let mut failed = false;
                let mut i: usize = 0;
                proof {
                    assert(svcs.deep_view().take(0) =~= Seq::<ServiceModel>::empty());
                    assert(acts.deep_view() =~= Seq::<SpawnModel>::empty());
                }
                while i < svcs.len()
                    invariant
                        0 <= i <= svcs@.len(),
                        self.wf(),
                        self.routing@ == old(self).routing@,
                        self.hosts.prev_lines() == prev1,
                        lines1 == crate::laws::reset_kept(old(self).hosts.lines()),
                        prev1 == old(self).hosts.lines(),
                        known1 == old(self).known_services.deep_view(),
                        is_applied_batch(
                            lines1,
                            prev1,
                            known1,
                            svcs.deep_view().take(i as int),
                            self.hosts.lines(),
                            self.known_services.deep_view(),
                            acts.deep_view(),
                            !failed,
                        ),
                    decreases svcs@.len() - i,
                {
                    proof {
                        assert(svcs.deep_view().take(i + 1).drop_last() =~= svcs.deep_view().take(
                            i as int,
                        ));
                        assert(svcs.deep_view().take(i + 1).last() == svcs.deep_view()[i as int]);
                        assert(svcs.deep_view()[i as int] == svcs@[i as int]@);
                    }
                    if !failed {
                        let ghost lm = self.hosts.lines();
                        let ghost km = self.known_services.deep_view();
                        let ghost a1 = acts.deep_view();
                        let sc = svcs[i].clone();
                        let ghost scm = sc@;
                        let step = self.apply_service(sc, &mut acts);
                        if step.is_err() {
                            failed = true;
                        }
                        proof {
                            let tk = svcs.deep_view().take(i + 1);
                            assert(tk.drop_last() =~= svcs.deep_view().take(i as int));
                            assert(tk.last() == scm);
                            let lines_now = self.hosts.lines();
                            let known_now = self.known_services.deep_view();
                            match step {
                                Ok(()) => {
                                    let d = spec_spawn_actions(lines_now, scm);
                                    lemma_batch_snoc(
                                        lines1,
                                        prev1,
                                        known1,
                                        svcs.deep_view().take(i as int),
                                        scm,
                                        lm,
                                        km,
                                        a1,
                                        lines_now,
                                        known_now,
                                        d,
                                        Ok(()),
                                        acts.deep_view(),
                                    );
                                },
                                Err(e2) => {
                                    lemma_batch_snoc(
                                        lines1,
                                        prev1,
                                        known1,
                                        svcs.deep_view().take(i as int),
                                        scm,
                                        lm,
                                        km,
                                        a1,
                                        lines_now,
                                        known_now,
                                        Seq::<SpawnModel>::empty(),
                                        Err(e2),
                                        acts.deep_view(),
                                    );
                                },
                            }
                            assert(tk =~= svcs.deep_view().take(i as int).push(scm));
                        }
                    } else {
                        proof {
                            lemma_batch_abort_step(
                                lines1,
                                prev1,
                                known1,
                                svcs.deep_view().take(i as int),
                                svcs.deep_view()[i as int],
                                self.hosts.lines(),
                                self.known_services.deep_view(),
                                acts.deep_view(),
                            );
                            assert(svcs.deep_view().take(i + 1) =~= svcs.deep_view().take(
                                i as int,
                            ).push(svcs.deep_view()[i as int]));
                        }
                    }
                    i += 1;
                }
                proof {
                    assert(svcs.deep_view().take(svcs@.len() as int) =~= svcs.deep_view());
                }
                if failed {
                    (acts, Err(HandlerError::ReconcileFailed))
                } else {
                    (acts, Ok(()))
                }
            },
            Event::AppliedPod(p) => {
                let outcome = self.try_sync_service_port(&p);
                if outcome.is_err() {
                    // no known service matched: worth a warning upstream,
                    // but never fatal to the event loop
                }
                (Vec::new(), Ok(()))
            },
            Event::DeletedPod(_p) => {
                // retained behavior: a deleted pod leaves its route in
                // place until another pod takes the service over
                (Vec::new(), Ok(()))
            },
            Event::ResetPods(pods) => {
                let ghost m0 = routing_map(self.routing@);
                let mut i: usize = 0;
                proof {
                    assert(pods@.take(0) =~= Seq::<PodObject>::empty());
                }
                while i < pods.len()
                    invariant
                        0 <= i <= pods@.len(),
                        self.wf(),
                        self.hosts == old(self).hosts,
                        self.known_services@ == old(self).known_services@,
                        m0 == routing_map(old(self).routing@),
                        routing_map(self.routing@) == spec_sync_pods(
                            old(self).known_services.deep_view(),
                            pods@.take(i as int),
                            m0,
                        ),
                    decreases pods@.len() - i,
                {
                    proof {
                        assert(pods@.take(i + 1).drop_last() =~= pods@.take(i as int));
                        assert(pods@.take(i + 1).last() == pods@[i as int]);
                    }
                    let outcome = self.try_sync_service_port(&pods[i]);
                    if outcome.is_err() {
                        // unmatched pods are skipped, as with a single pod event
                    }
                    i += 1;
                }
                proof {
                    assert(pods@.take(pods@.len() as int) =~= pods@);
                }
                (Vec::new(), Ok(()))
            },
        }
    }
}

} // verus!
