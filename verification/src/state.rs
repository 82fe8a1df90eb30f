//! Observed state of the node: which pods and containers the runtime
//! currently has, rebuilt from list snapshots (`ingest`) and kept current
//! from streamed container events (`observe`).

use crate::strmap::StrMap;
use crate::strmap::lemma_take_step;
use vstd::prelude::*;

verus! {

/// Container lifecycle states as reported by the runtime.
#[derive(Clone, Copy, Debug, PartialEq, Eq, Structural)]
pub enum CtrState {
    Created,
    Running,
    Exited,
    Unknown,
}

pub open spec fn spec_to_state(i: i32) -> Option<CtrState> {
    if i == 0 {
        Some(CtrState::Created)
    } else if i == 1 {
        Some(CtrState::Running)
    } else if i == 2 {
        Some(CtrState::Exited)
    } else if i == 3 {
        Some(CtrState::Unknown)
    } else {
        None
    }
}

/// Decodes the runtime's integer encoding of a container state.
/// Integers outside the documented range decode to `None`.
pub fn to_state(i: i32) -> (r: Option<CtrState>)
    ensures
        r == spec_to_state(i),
{
    match i {
        0 => Some(CtrState::Created),
        1 => Some(CtrState::Running),
        2 => Some(CtrState::Exited),
        3 => Some(CtrState::Unknown),
        _ => None,
    }
}

/// Observed status of one container.
pub struct CtrStatus {
    pub(crate) id: String,
    pub(crate) state: CtrState,
}

#[verifier::ext_equal]
pub struct CtrStatusV {
    pub id: Seq<char>,
    pub state: CtrState,
}

impl View for CtrStatus {
    type V = CtrStatusV;

    closed spec fn view(&self) -> CtrStatusV {
        CtrStatusV { id: self.id@, state: self.state }
    }
}

impl CtrStatus {
    pub fn new(id: String, state: CtrState) -> (r: CtrStatus)
        ensures
            r@ == (CtrStatusV { id: id@, state }),
    {
        CtrStatus { id, state }
    }

    pub fn id(&self) -> (r: &String)
        ensures
            r@ == self@.id,
    {
        &self.id
    }

    pub fn state(&self) -> (r: CtrState)
        ensures
            r == self@.state,
    {
        self.state
    }
}

/// Observed status of one pod: its runtime-assigned sandbox id and its
/// containers keyed by name.
pub struct PodStatus {
    pub(crate) id: String,
    pub(crate) ctrs: StrMap<CtrStatus>,
}

#[verifier::ext_equal]
pub struct PodStatusV {
    pub id: Seq<char>,
    pub ctrs: Map<Seq<char>, CtrStatusV>,
}

impl View for PodStatus {
    type V = PodStatusV;

    closed spec fn view(&self) -> PodStatusV {
        PodStatusV { id: self.id@, ctrs: self.ctrs@ }
    }
}

impl PodStatus {
    pub fn new(id: String) -> (r: PodStatus)
        ensures
            r@ == (PodStatusV { id: id@, ctrs: Map::<Seq<char>, CtrStatusV>::empty() }),
    {
        PodStatus { id, ctrs: StrMap::new() }
    }

    pub fn id(&self) -> (r: &String)
        ensures
            r@ == self@.id,
    {
        &self.id
    }

    pub fn ctrs(&self) -> (r: &StrMap<CtrStatus>)
        ensures
            r@ == self@.ctrs,
    {
        &self.ctrs
    }

    pub fn insert_ctr(&mut self, name: String, c: CtrStatus)
        ensures
            final(self)@ == (PodStatusV {
                id: old(self)@.id,
                ctrs: old(self)@.ctrs.insert(name@, c@),
            }),
    {
        self.ctrs.insert(name, c);
    }
}

/// Status of a pod sandbox as carried by a streamed event; `uid` is `None`
/// when the sandbox metadata was missing from the message.
pub struct SandboxStatus {
    pub id: String,
    pub uid: Option<String>,
}

#[verifier::ext_equal]
pub struct SandboxStatusV {
    pub id: Seq<char>,
    pub uid: Option<Seq<char>>,
}

impl View for SandboxStatus {
    type V = SandboxStatusV;

    open spec fn view(&self) -> SandboxStatusV {
        SandboxStatusV { id: self.id@, uid: self.uid.deep_view() }
    }
}

impl DeepView for SandboxStatus {
    type V = SandboxStatusV;

    open spec fn deep_view(&self) -> SandboxStatusV {
        self.view()
    }
}

/// One container status carried by a streamed event; `name` is `None` when
/// the container metadata was missing from the message.
pub struct EventCtrStatus {
    pub id: String,
    pub name: Option<String>,
    pub state: i32,
}

#[verifier::ext_equal]
pub struct EventCtrStatusV {
    pub id: Seq<char>,
    pub name: Option<Seq<char>>,
    pub state: i32,
}

impl View for EventCtrStatus {
    type V = EventCtrStatusV;

    open spec fn view(&self) -> EventCtrStatusV {
        EventCtrStatusV { id: self.id@, name: self.name.deep_view(), state: self.state }
    }
}

impl DeepView for EventCtrStatus {
    type V = EventCtrStatusV;

    open spec fn deep_view(&self) -> EventCtrStatusV {
        self.view()
    }
}

/// A streamed container event, as the core reads it.
pub struct ContainerEvent {
    pub container_id: String,
    pub pod_sandbox_status: Option<SandboxStatus>,
    pub containers_statuses: Vec<EventCtrStatus>,
}

#[verifier::ext_equal]
pub struct ContainerEventV {
    pub container_id: Seq<char>,
    pub pod_sandbox_status: Option<SandboxStatusV>,
    pub containers_statuses: Seq<EventCtrStatusV>,
}

impl View for ContainerEvent {
    type V = ContainerEventV;

    open spec fn view(&self) -> ContainerEventV {
        ContainerEventV {
            container_id: self.container_id@,
            pod_sandbox_status: self.pod_sandbox_status.deep_view(),
            containers_statuses: self.containers_statuses.deep_view(),
        }
    }
}

impl DeepView for ContainerEvent {
    type V = ContainerEventV;

    open spec fn deep_view(&self) -> ContainerEventV {
        self.view()
    }
}

/// One pod sandbox from a list snapshot; `uid` is `None` when the sandbox
/// metadata was missing.
pub struct PodSandboxInfo {
    pub id: String,
    pub uid: Option<String>,
}

#[verifier::ext_equal]
pub struct PodSandboxInfoV {
    pub id: Seq<char>,
    pub uid: Option<Seq<char>>,
}

impl View for PodSandboxInfo {
    type V = PodSandboxInfoV;

    open spec fn view(&self) -> PodSandboxInfoV {
        PodSandboxInfoV { id: self.id@, uid: self.uid.deep_view() }
    }
}

impl DeepView for PodSandboxInfo {
    type V = PodSandboxInfoV;

    open spec fn deep_view(&self) -> PodSandboxInfoV {
        self.view()
    }
}

/// One container from a list snapshot; `name` is the container's `"name"`
/// label, `None` when the label was missing.
pub struct ContainerInfo {
    pub id: String,
    pub pod_sandbox_id: String,
    pub name: Option<String>,
    pub state: i32,
}

#[verifier::ext_equal]
pub struct ContainerInfoV {
    pub id: Seq<char>,
    pub pod_sandbox_id: Seq<char>,
    pub name: Option<Seq<char>>,
    pub state: i32,
}

impl View for ContainerInfo {
    type V = ContainerInfoV;

    open spec fn view(&self) -> ContainerInfoV {
        ContainerInfoV {
            id: self.id@,
            pod_sandbox_id: self.pod_sandbox_id@,
            name: self.name.deep_view(),
            state: self.state,
        }
    }
}

impl DeepView for ContainerInfo {
    type V = ContainerInfoV;

    open spec fn deep_view(&self) -> ContainerInfoV {
        self.view()
    }
}

/// Container map described by a list of event container statuses, in order.
/// A status without a name or with an undecodable state is skipped.
pub open spec fn ctrs_of_statuses(sts: Seq<EventCtrStatusV>) -> Map<Seq<char>, CtrStatusV>
    decreases sts.len(),
{
    if sts.len() == 0 {
        Map::empty()
    } else {
        let m = ctrs_of_statuses(sts.drop_last());
        let c = sts.last();
        match (c.name, spec_to_state(c.state)) {
            (Some(n), Some(st)) => m.insert(n, CtrStatusV { id: c.id, state: st }),
            _ => m,
        }
    }
}

/// What one streamed event does to the observed pods:
/// - no sandbox status: every pod whose runtime id equals the event's
///   container id is removed (pod deletion);
/// - container id equals the sandbox id: a fresh empty pod is recorded under
///   the sandbox's uid (pod creation);
/// - otherwise: the whole pod under the sandbox's uid is replaced by the
///   statuses the event carries.
/// An event whose sandbox status lacks a uid changes nothing.
pub open spec fn observe_spec(s: Map<Seq<char>, PodStatusV>, e: ContainerEventV) -> Map<
    Seq<char>,
    PodStatusV,
> {
    match e.pod_sandbox_status {
        None => Map::new(
            |uid: Seq<char>| s.dom().contains(uid) && s[uid].id != e.container_id,
            |uid: Seq<char>| s[uid],
        ),
        Some(sb) => match sb.uid {
            None => s,
            Some(uid) => if e.container_id == sb.id {
                s.insert(uid, PodStatusV { id: e.container_id, ctrs: Map::empty() })
            } else {
                s.insert(
                    uid,
                    PodStatusV { id: sb.id, ctrs: ctrs_of_statuses(e.containers_statuses) },
                )
            },
        },
    }
}

/// Pods recorded by a list snapshot, keyed by uid, with empty containers.
/// A sandbox without a uid is skipped.
pub open spec fn pods_map(pods: Seq<PodSandboxInfoV>) -> Map<Seq<char>, PodStatusV>
    decreases pods.len(),
{
    if pods.len() == 0 {
        Map::empty()
    } else {
        let m = pods_map(pods.drop_last());
        let p = pods.last();
        match p.uid {
            Some(u) => m.insert(u, PodStatusV { id: p.id, ctrs: Map::empty() }),
            None => m,
        }
    }
}

/// The sandbox-id-to-uid index a list snapshot gives.
pub open spec fn uids_map(pods: Seq<PodSandboxInfoV>) -> Map<Seq<char>, Seq<char>>
    decreases pods.len(),
{
    if pods.len() == 0 {
        Map::empty()
    } else {
        let m = uids_map(pods.drop_last());
        let p = pods.last();
        match p.uid {
            Some(u) => m.insert(p.id, u),
            None => m,
        }
    }
}

/// Attaches listed containers to the pods they belong to, resolving each
/// container's sandbox id through `uids`. A container without a name label,
/// with an undecodable state, or with an unknown sandbox id is dropped.
pub open spec fn attach(
    m: Map<Seq<char>, PodStatusV>,
    uids: Map<Seq<char>, Seq<char>>,
    ctrs: Seq<ContainerInfoV>,
) -> Map<Seq<char>, PodStatusV>
    decreases ctrs.len(),
{
    if ctrs.len() == 0 {
        m
    } else {
        let m1 = attach(m, uids, ctrs.drop_last());
        let c = ctrs.last();
        match (c.name, spec_to_state(c.state)) {
            (Some(n), Some(st)) => if uids.dom().contains(c.pod_sandbox_id) && m1.dom().contains(
                uids[c.pod_sandbox_id],
            ) {
                let uid = uids[c.pod_sandbox_id];
                let pod = m1[uid];
                m1.insert(
                    uid,
                    PodStatusV {
                        id: pod.id,
                        ctrs: pod.ctrs.insert(n, CtrStatusV { id: c.id, state: st }),
                    },
                )
            } else {
                m1
            },
            _ => m1,
        }
    }
}

/// The observed state a full list snapshot yields.
pub open spec fn ingest_spec(ctrs: Seq<ContainerInfoV>, pods: Seq<PodSandboxInfoV>) -> Map<
    Seq<char>,
    PodStatusV,
> {
    attach(pods_map(pods), uids_map(pods), ctrs)
}

/// The current state of the node.
pub struct State {
    pub pods: StrMap<PodStatus>,
}

impl View for State {
    type V = Map<Seq<char>, PodStatusV>;

    open spec fn view(&self) -> Map<Seq<char>, PodStatusV> {
        self.pods@
    }
}

impl State {
    pub fn new() -> (r: State)
        ensures
            r@ == Map::<Seq<char>, PodStatusV>::empty(),
    {
        State { pods: StrMap::new() }
    }

    /// Applies one streamed container event.
    pub fn observe(&mut self, message: ContainerEvent)
        ensures
            final(self)@ == observe_spec(old(self)@, message@),
    {
        match &message.pod_sandbox_status {
            None => {
                self.remove_pods_by_id(&message.container_id);
            },
            Some(sb) => {
                match &sb.uid {
                    None => {},
                    Some(u) => {
                        if message.container_id == sb.id {
                            let pod = PodStatus::new(message.container_id.clone());
                            self.pods.insert(u.clone(), pod);
                        } else {
                            let ctrs = build_event_ctrs(&message.containers_statuses);
                            let pod = PodStatus { id: sb.id.clone(), ctrs };
                            self.pods.insert(u.clone(), pod);
                        }
                    },
                }
            },
        }
    }

    /// Removes every pod whose runtime id equals `cid`.
    fn remove_pods_by_id(&mut self, cid: &String)
        ensures
            final(self)@ == Map::<Seq<char>, PodStatusV>::new(
                |uid: Seq<char>| old(self)@.dom().contains(uid) && old(self)@[uid].id != cid@,
                |uid: Seq<char>| old(self)@[uid],
            ),
    {
        let ghost orig = self.pods@;
        let n = self.pods.klen();
        let ghost ks = self.pods.kseq();
        let mut doomed: Vec<String> = Vec::new();
        let mut i: usize = 0;
        while i < n
            invariant
                i <= n,
                self.pods@ == orig,
                self.pods.kseq() == ks,
                n == ks.len(),
                forall|d: Seq<char>| #[trigger] doomed.deep_view().contains(d) ==> orig.dom().contains(d)
                    && orig[d].id == cid@,
                forall|l: int| 0 <= l < i && orig[ks[l]].id == cid@ ==> doomed.deep_view().contains(
                    #[trigger] ks[l],
                ),
            decreases n - i,
        {
            let e = self.pods.entry_at(i);
            let ghost prev = doomed.deep_view();
            if *e.1.id() == *cid {
                doomed.push(e.0.clone());
                proof {
                    assert(doomed.deep_view()[prev.len() as int] == ks[i as int]);
                    assert(forall|j: int|
                        0 <= j < prev.len() ==> doomed.deep_view()[j] == prev[j]);
                    assert forall|d: Seq<char>| #[trigger] doomed.deep_view().contains(d) implies orig.dom().contains(d)
                        && orig[d].id == cid@ by {
                        let j = choose|j: int|
                            0 <= j < doomed.deep_view().len() && doomed.deep_view()[j] == d;
                        if j < prev.len() {
                            assert(prev[j] == d);
                            assert(prev.contains(d));
                        } else {
                            assert(d == ks[i as int]);
                        }
                    }
                    assert forall|l: int| 0 <= l < i + 1 && orig[ks[l]].id == cid@ implies doomed.deep_view().contains(
                        #[trigger] ks[l],
                    ) by {
                        if l < i {
                            assert(prev.contains(ks[l]));
                            let j = choose|j: int| 0 <= j < prev.len() && prev[j] == ks[l];
                            assert(doomed.deep_view()[j] == ks[l]);
                        } else {
                            assert(doomed.deep_view()[prev.len() as int] == ks[l]);
                        }
                    }
                }
            }
            i = i + 1;
        }
        proof {
            assert forall|uid: Seq<char>|
                orig.dom().contains(uid) && orig[uid].id == cid@ implies doomed.deep_view().contains(
                uid,
            ) by {
                assert(ks.contains(uid));
                let l = choose|l: int| 0 <= l < ks.len() && ks[l] == uid;
                assert(orig[ks[l]].id == cid@);
            }
        }
        let m = doomed.len();
        let mut j: usize = 0;
        while j < m
            invariant
                j <= m,
                m == doomed.deep_view().len(),
                forall|d: Seq<char>| #[trigger] doomed.deep_view().contains(d) ==> orig.dom().contains(d)
                    && orig[d].id == cid@,
                forall|uid: Seq<char>| orig.dom().contains(uid) && orig[uid].id == cid@
                    ==> doomed.deep_view().contains(uid),
                forall|uid: Seq<char>| #[trigger] self.pods@.dom().contains(uid) <==> (
                orig.dom().contains(uid) && !doomed.deep_view().take(j as int).contains(uid)),
                forall|uid: Seq<char>| #[trigger] self.pods@.dom().contains(uid)
                    ==> self.pods@[uid] == orig[uid],
            decreases m - j,
        {
            let ghost before = self.pods@;
            self.pods.remove(&doomed[j]);
            proof {
                let d = doomed.deep_view()[j as int];
                lemma_take_step(doomed.deep_view(), j as int);
                assert forall|uid: Seq<char>| #[trigger] self.pods@.dom().contains(uid) implies (
                orig.dom().contains(uid) && !doomed.deep_view().take(j + 1).contains(uid)) by {
                    assert(before.dom().contains(uid) && uid != d);
                    if doomed.deep_view().take(j + 1).contains(uid) {
                        let l = choose|l: int|
                            0 <= l < j + 1 && #[trigger] doomed.deep_view().take(j + 1)[l] == uid;
                        assert(doomed.deep_view().take(j as int)[l] == uid);
                        assert(doomed.deep_view().take(j as int).contains(uid));
                    }
                }
                assert forall|uid: Seq<char>|
                    orig.dom().contains(uid) && !doomed.deep_view().take(j + 1).contains(
                        uid,
                    ) implies self.pods@.dom().contains(uid) by {
                    assert forall|l: int| 0 <= l < j implies doomed.deep_view().take(j as int)[l]
                        != uid by {
                        assert(doomed.deep_view().take(j + 1)[l] == doomed.deep_view().take(
                            j as int,
                        )[l]);
                    }
                    assert(!doomed.deep_view().take(j as int).contains(uid));
                    assert(before.dom().contains(uid));
                    assert(doomed.deep_view().take(j + 1)[j as int] == d);
                    assert(uid != d);
                }
            }
            j = j + 1;
        }
        proof {
            assert(doomed.deep_view().take(m as int) =~= doomed.deep_view());
            assert(self.pods@ =~= Map::<Seq<char>, PodStatusV>::new(
                |uid: Seq<char>| orig.dom().contains(uid) && orig[uid].id != cid@,
                |uid: Seq<char>| orig[uid],
            ));
        }
    }

    /// Replaces the contents from a list snapshot.
    pub fn ingest(&mut self, containers: Vec<ContainerInfo>, pods: Vec<PodSandboxInfo>)
        ensures
            final(self)@ == ingest_spec(containers.deep_view(), pods.deep_view()),
    {
        let ghost pv = pods.deep_view();
        let ghost cv = containers.deep_view();
        let mut newpods: StrMap<PodStatus> = StrMap::new();
        let mut uids: StrMap<String> = StrMap::new();
        let n = pods.len();
        let mut i: usize = 0;
        while i < n
            invariant
                i <= n,
                n == pv.len(),
                pv == pods.deep_view(),
                newpods@ == pods_map(pv.take(i as int)),
                uids@ == uids_map(pv.take(i as int)),
            decreases n - i,
        {
            let p = &pods[i];
            proof {
                lemma_take_step(pv, i as int);
                assert(pv[i as int] == p.deep_view());
            }
            match &p.uid {
                Some(u) => {
                    uids.insert(p.id.clone(), u.clone());
                    newpods.insert(u.clone(), PodStatus::new(p.id.clone()));
                },
                None => {},
            }
            i = i + 1;
        }
        proof {
            assert(pv.take(n as int) =~= pv);
        }
        let m = containers.len();
        let mut j: usize = 0;
        while j < m
            invariant
                j <= m,
                m == cv.len(),
                cv == containers.deep_view(),
                uids@ == uids_map(pv),
                newpods@ == attach(pods_map(pv), uids_map(pv), cv.take(j as int)),
            decreases m - j,
        {
            let c = &containers[j];
            proof {
                lemma_take_step(cv, j as int);
                assert(cv[j as int] == c.deep_view());
            }
            let ghost before = newpods@;
            match &c.name {
                Some(name) => {
                    match to_state(c.state) {
                        Some(st) => {
                            match uids.get(&c.pod_sandbox_id) {
                                Some(uid) => {
                                    let uid = uid.clone();
                                    let ghost u = uid@;
                                    match newpods.remove(&uid) {
                                        Some(mut pod) => {
                                            pod.insert_ctr(
                                                name.clone(),
                                                CtrStatus::new(c.id.clone(), st),
                                            );
                                            let ghost newpod = pod@;
                                            newpods.insert(uid, pod);
                                            proof {
                                                assert(newpods@ =~= before.insert(u, newpod));
                                            }
                                        },
                                        None => {
                                            proof {
                                                assert(newpods@ =~= before);
                                            }
                                        },
                                    }
                                },
                                None => {},
                            }
                        },
                        None => {},
                    }
                },
                None => {},
            }
            j = j + 1;
        }
        proof {
            assert(cv.take(m as int) =~= cv);
        }
        self.pods = newpods;
    }
}

/// Builds the container map an event's status list describes.
fn build_event_ctrs(sts: &Vec<EventCtrStatus>) -> (r: StrMap<CtrStatus>)
    ensures
        r@ == ctrs_of_statuses(sts.deep_view()),
{
    let ghost sv = sts.deep_view();
    let mut r: StrMap<CtrStatus> = StrMap::new();
    let n = sts.len();
    let mut i: usize = 0;
    while i < n
        invariant
            i <= n,
            n == sv.len(),
            sv == sts.deep_view(),
            r@ == ctrs_of_statuses(sv.take(i as int)),
        decreases n - i,
    {
        let c = &sts[i];
        proof {
            lemma_take_step(sv, i as int);
            assert(sv[i as int] == c.deep_view());
        }
        match &c.name {
            Some(name) => {
                match to_state(c.state) {
                    Some(st) => {
                        r.insert(name.clone(), CtrStatus::new(c.id.clone(), st));
                    },
                    None => {},
                }
            },
            None => {},
        }
        i = i + 1;
    }
    proof {
        assert(sv.take(n as int) =~= sv);
    }
    r
}


/// Observing the same event twice changes nothing the second time: event
/// application is idempotent, so a replayed stream settles on one state.
pub proof fn lemma_observe_idempotent(s: Map<Seq<char>, PodStatusV>, e: ContainerEventV)
    ensures
        observe_spec(observe_spec(s, e), e) == observe_spec(s, e),
{
    let s1 = observe_spec(s, e);
    match e.pod_sandbox_status {
        None => {
            assert(observe_spec(s1, e) =~= s1);
        },
        Some(sb) => {
            match sb.uid {
                None => {},
                Some(uid) => {
                    assert(observe_spec(s1, e) =~= s1);
                },
            }
        },
    }
}

/// The uid index of a snapshot points at pods the snapshot records, under
/// the id the index was keyed by. Holds when no two sandboxes share a uid.
proof fn lemma_pods_map_consistent(pods: Seq<PodSandboxInfoV>)
    requires
        forall|i: int, j: int|
            0 <= i < j < pods.len() && pods[i].uid is Some && pods[j].uid is Some ==> pods[i].uid
                != pods[j].uid,
    ensures
        forall|id: Seq<char>| #[trigger] uids_map(pods).dom().contains(id) ==> pods_map(
            pods,
        ).dom().contains(uids_map(pods)[id]) && pods_map(pods)[uids_map(pods)[id]].id == id,
        forall|id: Seq<char>| #[trigger] uids_map(pods).dom().contains(id) ==> exists|j: int|
            0 <= j < pods.len() && #[trigger] pods[j].uid == Some(uids_map(pods)[id]),
        forall|uid: Seq<char>| #[trigger] pods_map(pods).dom().contains(uid) ==> pods_map(
            pods,
        )[uid].ctrs == Map::<Seq<char>, CtrStatusV>::empty(),
    decreases pods.len(),
{
    if pods.len() > 0 {
        let d = pods.drop_last();
        lemma_pods_map_consistent(d);
        let p = pods.last();
        match p.uid {
            None => {
                assert(pods_map(pods) == pods_map(d));
                assert(uids_map(pods) == uids_map(d));
                assert forall|uid: Seq<char>| #[trigger] pods_map(pods).dom().contains(
                    uid,
                ) implies pods_map(pods)[uid].ctrs == Map::<Seq<char>, CtrStatusV>::empty() by {
                    assert(pods_map(d).dom().contains(uid));
                }
            },
            Some(u) => {
                assert forall|id: Seq<char>| #[trigger] uids_map(pods).dom().contains(
                    id,
                ) implies pods_map(pods).dom().contains(uids_map(pods)[id]) && pods_map(
                    pods,
                )[uids_map(pods)[id]].id == id by {
                    if id != p.id {
                        assert(uids_map(d).dom().contains(id));
                        let w = uids_map(d)[id];
                        let j = choose|j: int|
                            0 <= j < d.len() && #[trigger] d[j].uid == Some(uids_map(d)[id]);
                        assert(pods[j].uid == Some(w));
                        assert(pods[j].uid != p.uid);
                        assert(w != u);
                    }
                }
                assert forall|id: Seq<char>| #[trigger] uids_map(pods).dom().contains(
                    id,
                ) implies exists|j: int|
                    0 <= j < pods.len() && #[trigger] pods[j].uid == Some(
                        uids_map(pods)[id],
                    ) by {
                    if id == p.id {
                        assert(pods[pods.len() - 1].uid == Some(uids_map(pods)[id]));
                    } else {
                        let j = choose|j: int|
                            0 <= j < d.len() && #[trigger] d[j].uid == Some(uids_map(d)[id]);
                        assert(pods[j].uid == Some(uids_map(pods)[id]));
                    }
                }
                assert forall|uid: Seq<char>| #[trigger] pods_map(pods).dom().contains(
                    uid,
                ) implies pods_map(pods)[uid].ctrs == Map::<Seq<char>, CtrStatusV>::empty() by {
                    if uid != u {
                        assert(pods_map(d).dom().contains(uid));
                    }
                }
            },
        }
    }
}

/// Attaching listed containers neither adds nor drops pods, keeps each
/// pod's id, and every container it adds to a pod comes from a listed
/// container whose sandbox id is that pod's id.
proof fn lemma_attach_tracks(
    m: Map<Seq<char>, PodStatusV>,
    uids: Map<Seq<char>, Seq<char>>,
    ctrs: Seq<ContainerInfoV>,
)
    requires
        forall|id: Seq<char>| #[trigger] uids.dom().contains(id) ==> m.dom().contains(uids[id])
            && m[uids[id]].id == id,
    ensures
        attach(m, uids, ctrs).dom() == m.dom(),
        forall|uid: Seq<char>| #[trigger] m.dom().contains(uid) ==> attach(m, uids, ctrs)[uid].id
            == m[uid].id,
        forall|uid: Seq<char>, name: Seq<char>|
            m.dom().contains(uid) && #[trigger] attach(m, uids, ctrs)[uid].ctrs.dom().contains(
                name,
            ) ==> (m[uid].ctrs.dom().contains(name) && attach(m, uids, ctrs)[uid].ctrs[name]
                == m[uid].ctrs[name]) || exists|k: int|
                0 <= k < ctrs.len() && (#[trigger] ctrs[k]).name == Some(name) && attach(
                    m,
                    uids,
                    ctrs,
                )[uid].ctrs[name].id == ctrs[k].id && ctrs[k].pod_sandbox_id == m[uid].id,
    decreases ctrs.len(),
{
    if ctrs.len() == 0 {
        assert(attach(m, uids, ctrs).dom() =~= m.dom());
    } else {
        let d = ctrs.drop_last();
        lemma_attach_tracks(m, uids, d);
        let m1 = attach(m, uids, d);
        let c = ctrs.last();
        let r = attach(m, uids, ctrs);
        assert(r.dom() =~= m.dom());
        assert forall|uid: Seq<char>, name: Seq<char>|
            m.dom().contains(uid) && #[trigger] r[uid].ctrs.dom().contains(name) implies (
        m[uid].ctrs.dom().contains(name) && r[uid].ctrs[name] == m[uid].ctrs[name]) || exists|
            k: int,
        |
            0 <= k < ctrs.len() && (#[trigger] ctrs[k]).name == Some(name) && r[uid].ctrs[name].id
                == ctrs[k].id && ctrs[k].pod_sandbox_id == m[uid].id by {
            let from_prefix = m1[uid].ctrs.dom().contains(name) && r[uid].ctrs[name]
                == m1[uid].ctrs[name];
            if from_prefix {
                if !(m[uid].ctrs.dom().contains(name) && m1[uid].ctrs[name]
                    == m[uid].ctrs[name]) {
                    let k = choose|k: int|
                        0 <= k < d.len() && (#[trigger] d[k]).name == Some(name)
                            && m1[uid].ctrs[name].id == d[k].id && d[k].pod_sandbox_id
                            == m[uid].id;
                    assert(ctrs[k] == d[k]);
                    assert((ctrs[k]).name == Some(name) && r[uid].ctrs[name].id == ctrs[k].id
                        && ctrs[k].pod_sandbox_id == m[uid].id);
                }
            } else {
                let k = ctrs.len() - 1;
                assert((ctrs[k]).name == Some(name) && r[uid].ctrs[name].id == ctrs[k].id
                    && ctrs[k].pod_sandbox_id == m[uid].id);
            }
        }
    }
}

/// After a snapshot ingest, every recorded container status stems from a
/// listed container whose sandbox id equals the id of the pod it sits
/// under: containers sit under their own pod. Holds when no two listed
/// sandboxes share a uid.
pub proof fn lemma_ingest_owns_containers(ctrs: Seq<ContainerInfoV>, pods: Seq<PodSandboxInfoV>)
    requires
        forall|i: int, j: int|
            0 <= i < j < pods.len() && pods[i].uid is Some && pods[j].uid is Some ==> pods[i].uid
                != pods[j].uid,
    ensures
        forall|uid: Seq<char>, name: Seq<char>|
            ingest_spec(ctrs, pods).dom().contains(uid) && #[trigger] ingest_spec(
                ctrs,
                pods,
            )[uid].ctrs.dom().contains(name) ==> exists|k: int|
                0 <= k < ctrs.len() && (#[trigger] ctrs[k]).name == Some(name) && ingest_spec(
                    ctrs,
                    pods,
                )[uid].ctrs[name].id == ctrs[k].id && ctrs[k].pod_sandbox_id == ingest_spec(
                    ctrs,
                    pods,
                )[uid].id,
{
    lemma_pods_map_consistent(pods);
    lemma_attach_tracks(pods_map(pods), uids_map(pods), ctrs);
}

} // verus!
