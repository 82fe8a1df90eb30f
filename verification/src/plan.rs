//! The planner: `diff` compares the desired target with the observed state
//! and produces one step per pod that needs work.

use crate::config::{ContainerConfig, ContainerConfigV, PodConfig, PodConfigV, SandBoxConfig,
    SandBoxConfigV, Target};
use crate::state::{CtrState, CtrStatusV, PodStatus, PodStatusV, State};
use crate::strmap::{StrMap, lemma_take_contains};
use vstd::prelude::*;

verus! {

/// What to do about one container of a pod.
pub enum ContainerStep {
    CreateCtr(String, ContainerConfig, SandBoxConfig),
    StartCtr(String),
    StopCtr(String),
    DeleteCtr(String),
}

#[verifier::ext_equal]
pub enum ContainerStepV {
    CreateCtr(Seq<char>, ContainerConfigV, SandBoxConfigV),
    StartCtr(Seq<char>),
    StopCtr(Seq<char>),
    DeleteCtr(Seq<char>),
}

impl View for ContainerStep {
    type V = ContainerStepV;

    open spec fn view(&self) -> ContainerStepV {
        match self {
            ContainerStep::CreateCtr(pod_id, cfg, sandbox) => ContainerStepV::CreateCtr(
                pod_id@,
                cfg@,
                sandbox@,
            ),
            ContainerStep::StartCtr(id) => ContainerStepV::StartCtr(id@),
            ContainerStep::StopCtr(id) => ContainerStepV::StopCtr(id@),
            ContainerStep::DeleteCtr(id) => ContainerStepV::DeleteCtr(id@),
        }
    }
}

/// What to do about one pod.
pub enum PodStep {
    CreatePod(SandBoxConfig),
    ChangePod(StrMap<ContainerStep>),
    DeletePod(String),
}

#[verifier::ext_equal]
pub enum PodStepV {
    CreatePod(SandBoxConfigV),
    ChangePod(Map<Seq<char>, ContainerStepV>),
    DeletePod(Seq<char>),
}

impl View for PodStep {
    type V = PodStepV;

    open spec fn view(&self) -> PodStepV {
        match self {
            PodStep::CreatePod(cfg) => PodStepV::CreatePod(cfg@),
            PodStep::ChangePod(steps) => PodStepV::ChangePod(steps@),
            PodStep::DeletePod(id) => PodStepV::DeletePod(id@),
        }
    }
}

/// A tree of steps that moves the observed state toward the target.
pub struct Plan {
    pub pods: StrMap<PodStep>,
}

impl View for Plan {
    type V = Map<Seq<char>, PodStepV>;

    open spec fn view(&self) -> Map<Seq<char>, PodStepV> {
        self.pods@
    }
}

/// The step a desired container needs, given the pod it should run in:
/// absent containers are created, created ones started, exited ones removed
/// (to be recreated on a later pass), running and unknown ones left alone.
pub open spec fn desired_step(pod: PodStatusV, pc: PodConfigV, name: Seq<char>) -> Option<
    ContainerStepV,
> {
    if !pod.ctrs.dom().contains(name) {
        Some(ContainerStepV::CreateCtr(pod.id, pc.containers[name], pc.config))
    } else {
        match pod.ctrs[name].state {
            CtrState::Created => Some(ContainerStepV::StartCtr(pod.ctrs[name].id)),
            CtrState::Running => None,
            CtrState::Exited => Some(ContainerStepV::DeleteCtr(pod.ctrs[name].id)),
            CtrState::Unknown => None,
        }
    }
}

/// The step an undesired container needs: running ones are stopped, created
/// and exited ones removed, unknown ones left alone.
pub open spec fn extra_step(c: CtrStatusV) -> Option<ContainerStepV> {
    match c.state {
        CtrState::Created => Some(ContainerStepV::DeleteCtr(c.id)),
        CtrState::Running => Some(ContainerStepV::StopCtr(c.id)),
        CtrState::Exited => Some(ContainerStepV::DeleteCtr(c.id)),
        CtrState::Unknown => None,
    }
}

/// All container steps for a desired pod: steps for its desired containers
/// and removal steps for containers it should not have.
pub open spec fn ctr_steps(pod: PodStatusV, pc: PodConfigV) -> Map<Seq<char>, ContainerStepV> {
    Map::new(
        |name: Seq<char>|
            if pc.containers.dom().contains(name) {
                desired_step(pod, pc, name) is Some
            } else {
                pod.ctrs.dom().contains(name) && extra_step(pod.ctrs[name]) is Some
            },
        |name: Seq<char>|
            if pc.containers.dom().contains(name) {
                desired_step(pod, pc, name)->0
            } else {
                extra_step(pod.ctrs[name])->0
            },
    )
}

/// Stop steps for the running containers of an undesired pod.
pub open spec fn stop_steps(pod: PodStatusV) -> Map<Seq<char>, ContainerStepV> {
    Map::new(
        |name: Seq<char>| pod.ctrs.dom().contains(name) && pod.ctrs[name].state is Running,
        |name: Seq<char>| ContainerStepV::StopCtr(pod.ctrs[name].id),
    )
}

/// The step the plan assigns to one uid, if any:
/// - a desired pod that is not observed is created, and its containers are
///   not examined until it is;
/// - a desired, observed pod gets its container steps, or no step when there
///   are none;
/// - an undesired pod is deleted once none of its containers runs; while
///   some still run, they are stopped first.
pub open spec fn pod_step_of(
    t: Map<Seq<char>, PodConfigV>,
    s: Map<Seq<char>, PodStatusV>,
    uid: Seq<char>,
) -> Option<PodStepV> {
    if t.dom().contains(uid) {
        if !s.dom().contains(uid) {
            Some(PodStepV::CreatePod(t[uid].config))
        } else if ctr_steps(s[uid], t[uid]) == Map::<Seq<char>, ContainerStepV>::empty() {
            None
        } else {
            Some(PodStepV::ChangePod(ctr_steps(s[uid], t[uid])))
        }
    } else if s.dom().contains(uid) {
        if stop_steps(s[uid]) == Map::<Seq<char>, ContainerStepV>::empty() {
            Some(PodStepV::DeletePod(s[uid].id))
        } else {
            Some(PodStepV::ChangePod(stop_steps(s[uid])))
        }
    } else {
        None
    }
}

/// The whole plan: exactly the uids that need work, each with its step.
pub open spec fn plan_of(
    t: Map<Seq<char>, PodConfigV>,
    s: Map<Seq<char>, PodStatusV>,
) -> Map<Seq<char>, PodStepV> {
    Map::new(
        |uid: Seq<char>| pod_step_of(t, s, uid) is Some,
        |uid: Seq<char>| pod_step_of(t, s, uid)->0,
    )
}

/// Computes the container steps for a desired pod that is observed.
#[verifier::loop_isolation(false)]
fn container_steps(pod: &PodStatus, pc: &PodConfig) -> (r: StrMap<ContainerStep>)
    ensures
        r@ == ctr_steps(pod@, pc@),
{
    let ghost podv = pod@;
    let ghost pcv = pc@;
    let pctrs = pod.ctrs();
    let mut steps: StrMap<ContainerStep> = StrMap::new();
    let tn = pc.containers.klen();
    let ghost tks = pc.containers.kseq();
    let mut i: usize = 0;
    while i < tn
        invariant
            i <= tn,
            forall|nm: Seq<char>| #[trigger] steps@.dom().contains(nm) <==> (tks.take(
                i as int,
            ).contains(nm) && desired_step(podv, pcv, nm) is Some),
            forall|nm: Seq<char>| #[trigger] steps@.dom().contains(nm) ==> steps@[nm]
                == desired_step(podv, pcv, nm)->0,
        decreases tn - i,
    {
        let e = pc.containers.entry_at(i);
        let name = e.0;
        let cfg = e.1;
        let ghost nm = name@;
        proof {
            lemma_take_contains(tks, i as int, nm);
        }
        let step: Option<ContainerStep> = match pctrs.get(name) {
            None => Some(
                ContainerStep::CreateCtr(pod.id().clone(), cfg.clone(), pc.config.clone()),
            ),
            Some(c) => {
                match c.state() {
                    CtrState::Created => Some(ContainerStep::StartCtr(c.id().clone())),
                    CtrState::Running => None,
                    CtrState::Exited => Some(ContainerStep::DeleteCtr(c.id().clone())),
                    CtrState::Unknown => None,
                }
            },
        };
        match step {
            Some(st) => {
                proof {
                    assert(st@ == desired_step(podv, pcv, nm)->0);
                }
                steps.insert(name.clone(), st);
                proof {
                    assert forall|x: Seq<char>| #[trigger] steps@.dom().contains(x) implies (
                    tks.take(i + 1).contains(x) && desired_step(podv, pcv, x) is Some) by {
                        if x != nm {
                            lemma_take_contains(tks, i as int, x);
                        }
                    }
                    assert forall|x: Seq<char>|
                        tks.take(i + 1).contains(x) && desired_step(podv, pcv, x)
                            is Some implies #[trigger] steps@.dom().contains(x) by {
                        if x != nm {
                            lemma_take_contains(tks, i as int, x);
                        }
                    }
                }
            },
            None => {
                proof {
                    assert forall|x: Seq<char>| #[trigger] steps@.dom().contains(x) implies (
                    tks.take(i + 1).contains(x) && desired_step(podv, pcv, x) is Some) by {
                        lemma_take_contains(tks, i as int, x);
                    }
                    assert forall|x: Seq<char>|
                        tks.take(i + 1).contains(x) && desired_step(podv, pcv, x)
                            is Some implies #[trigger] steps@.dom().contains(x) by {
                        if x != nm {
                            lemma_take_contains(tks, i as int, x);
                        }
                    }
                }
            },
        }
        i = i + 1;
    }
    proof {
        assert(tks.take(tn as int) =~= tks);
    }
    let sn = pctrs.klen();
    let ghost sks = pctrs.kseq();
    let mut j: usize = 0;
    while j < sn
        invariant
            j <= sn,
            forall|nm: Seq<char>| #[trigger] steps@.dom().contains(nm) <==> ((tks.contains(nm)
                && desired_step(podv, pcv, nm) is Some) || (sks.take(j as int).contains(nm)
                && !pcv.containers.dom().contains(nm) && extra_step(podv.ctrs[nm]) is Some)),
            forall|nm: Seq<char>| #[trigger] steps@.dom().contains(nm) ==> steps@[nm] == (
            if pcv.containers.dom().contains(nm) {
                desired_step(podv, pcv, nm)->0
            } else {
                extra_step(podv.ctrs[nm])->0
            }),
        decreases sn - j,
    {
        let e = pctrs.entry_at(j);
        let name = e.0;
        let c = e.1;
        let ghost nm = name@;
        proof {
            lemma_take_contains(sks, j as int, nm);
        }
        if !pc.containers.contains_key(name) {
            let step: Option<ContainerStep> = match c.state() {
                CtrState::Created => Some(ContainerStep::DeleteCtr(c.id().clone())),
                CtrState::Running => Some(ContainerStep::StopCtr(c.id().clone())),
                CtrState::Exited => Some(ContainerStep::DeleteCtr(c.id().clone())),
                CtrState::Unknown => None,
            };
            match step {
                Some(st) => {
                    proof {
                        assert(st@ == extra_step(podv.ctrs[nm])->0);
                    }
                    steps.insert(name.clone(), st);
                    proof {
                        assert forall|x: Seq<char>|
                            x != nm && #[trigger] sks.take(j + 1).contains(x) implies sks.take(
                            j as int,
                        ).contains(x) by {
                            lemma_take_contains(sks, j as int, x);
                        }
                        assert forall|x: Seq<char>| x != nm && #[trigger] sks.take(
                            j as int,
                        ).contains(x) implies sks.take(j + 1).contains(x) by {
                            lemma_take_contains(sks, j as int, x);
                        }
                    }
                },
                None => {
                    proof {
                        assert forall|x: Seq<char>| #[trigger] sks.take(j + 1).contains(x) && x
                            != nm implies sks.take(j as int).contains(x) by {
                            lemma_take_contains(sks, j as int, x);
                        }
                        assert forall|x: Seq<char>| #[trigger] sks.take(j as int).contains(
                            x,
                        ) implies sks.take(j + 1).contains(x) by {
                            lemma_take_contains(sks, j as int, x);
                        }
                    }
                },
            }
        } else {
            proof {
                assert forall|x: Seq<char>| #[trigger] sks.take(j + 1).contains(x) && x
                    != nm implies sks.take(j as int).contains(x) by {
                    lemma_take_contains(sks, j as int, x);
                }
                assert forall|x: Seq<char>| #[trigger] sks.take(j as int).contains(x) implies sks.take(
                    j + 1,
                ).contains(x) by {
                    lemma_take_contains(sks, j as int, x);
                }
            }
        }
        j = j + 1;
    }
    proof {
        assert(sks.take(sn as int) =~= sks);
        assert(steps@ =~= ctr_steps(podv, pcv));
    }
    steps
}

/// Computes the stop steps for an undesired pod.
#[verifier::loop_isolation(false)]
fn stop_only_steps(pod: &PodStatus) -> (r: StrMap<ContainerStep>)
    ensures
        r@ == stop_steps(pod@),
{
    let ghost podv = pod@;
    let pctrs = pod.ctrs();
    let mut steps: StrMap<ContainerStep> = StrMap::new();
    let n = pctrs.klen();
    let ghost ks = pctrs.kseq();
    let mut i: usize = 0;
    while i < n
        invariant
            i <= n,
            forall|nm: Seq<char>| #[trigger] steps@.dom().contains(nm) <==> (ks.take(
                i as int,
            ).contains(nm) && podv.ctrs[nm].state is Running),
            forall|nm: Seq<char>| #[trigger] steps@.dom().contains(nm) ==> steps@[nm]
                == ContainerStepV::StopCtr(podv.ctrs[nm].id),
        decreases n - i,
    {
        let e = pctrs.entry_at(i);
        let name = e.0;
        let c = e.1;
        let ghost nm = name@;
        proof {
            lemma_take_contains(ks, i as int, nm);
        }
        match c.state() {
            CtrState::Running => {
                steps.insert(name.clone(), ContainerStep::StopCtr(c.id().clone()));
            },
            _ => {},
        }
        proof {
            assert forall|x: Seq<char>| #[trigger] ks.take(i + 1).contains(x) && x
                != nm implies ks.take(i as int).contains(x) by {
                lemma_take_contains(ks, i as int, x);
            }
            assert forall|x: Seq<char>| #[trigger] ks.take(i as int).contains(x) implies ks.take(
                i + 1,
            ).contains(x) by {
                lemma_take_contains(ks, i as int, x);
            }
        }
        i = i + 1;
    }
    proof {
        assert(ks.take(n as int) =~= ks);
        assert(steps@ =~= stop_steps(podv));
    }
    steps
}

/// Produces the plan that moves `state` toward `target`.
#[verifier::loop_isolation(false)]
pub fn diff(target: &Target, state: &State) -> (r: Plan)
    ensures
        r@ == plan_of(target@, state@),
{
    let ghost tv = target@;
    let ghost sv = state@;
    let mut plan = Plan { pods: StrMap::new() };
    let tn = target.pods.klen();
    let ghost tks = target.pods.kseq();
    let mut i: usize = 0;
    while i < tn
        invariant
            i <= tn,
            forall|u: Seq<char>| #[trigger] plan@.dom().contains(u) <==> (tks.take(
                i as int,
            ).contains(u) && pod_step_of(tv, sv, u) is Some),
            forall|u: Seq<char>| #[trigger] plan@.dom().contains(u) ==> plan@[u] == pod_step_of(
                tv,
                sv,
                u,
            )->0,
        decreases tn - i,
    {
        let e = target.pods.entry_at(i);
        let uid = e.0;
        let pc = e.1;
        let ghost u = uid@;
        proof {
            lemma_take_contains(tks, i as int, u);
        }
        let step: Option<PodStep> = match state.pods.get(uid) {
            None => Some(PodStep::CreatePod(pc.config.clone())),
            Some(pod) => {
                let steps = container_steps(pod, pc);
                if steps.is_empty() {
                    None
                } else {
                    Some(PodStep::ChangePod(steps))
                }
            },
        };
        match step {
            Some(st) => {
                proof {
                    assert(pod_step_of(tv, sv, u) is Some);
                    assert(st@ == pod_step_of(tv, sv, u)->0);
                }
                let ghost p0 = plan@;
                plan.pods.insert(uid.clone(), st);
                proof {
                    assert(plan@ == p0.insert(u, st@));
                    assert forall|x: Seq<char>| x != u && #[trigger] plan@.dom().contains(
                        x,
                    ) implies tks.take(i + 1).contains(x) by {
                        assert(p0.dom().contains(x));
                        lemma_take_contains(tks, i as int, x);
                    }
                    assert forall|x: Seq<char>|
                        x != u && tks.take(i + 1).contains(x) && pod_step_of(tv, sv, x)
                            is Some implies #[trigger] plan@.dom().contains(x) by {
                        lemma_take_contains(tks, i as int, x);
                        assert(tks.take(i as int).contains(x));
                        assert(p0.dom().contains(x));
                    }
                }
            },
            None => {
                proof {
                    assert(pod_step_of(tv, sv, u) is None);
                    assert forall|x: Seq<char>| #[trigger] plan@.dom().contains(x) implies (
                    tks.take(i + 1).contains(x) && pod_step_of(tv, sv, x) is Some) by {
                        lemma_take_contains(tks, i as int, x);
                    }
                    assert forall|x: Seq<char>|
                        tks.take(i + 1).contains(x) && pod_step_of(tv, sv, x)
                            is Some implies #[trigger] plan@.dom().contains(x) by {
                        if x != u {
                            lemma_take_contains(tks, i as int, x);
                        }
                    }
                }
            },
        }
        i = i + 1;
    }
    proof {
        assert(tks.take(tn as int) =~= tks);
    }
    let sn = state.pods.klen();
    let ghost sks = state.pods.kseq();
    let mut j: usize = 0;
    while j < sn
        invariant
            j <= sn,
            forall|u: Seq<char>| #[trigger] plan@.dom().contains(u) <==> ((tks.contains(u)
                && pod_step_of(tv, sv, u) is Some) || (sks.take(j as int).contains(u)
                && !tv.dom().contains(u))),
            forall|u: Seq<char>| #[trigger] plan@.dom().contains(u) ==> plan@[u] == pod_step_of(
                tv,
                sv,
                u,
            )->0,
        decreases sn - j,
    {
        let e = state.pods.entry_at(j);
        let uid = e.0;
        let pod = e.1;
        let ghost u = uid@;
        proof {
            lemma_take_contains(sks, j as int, u);
        }
        if !target.pods.contains_key(uid) {
            let stops = stop_only_steps(pod);
            let st: PodStep = if stops.is_empty() {
                PodStep::DeletePod(pod.id().clone())
            } else {
                PodStep::ChangePod(stops)
            };
            proof {
                assert(pod_step_of(tv, sv, u) is Some);
                assert(st@ == pod_step_of(tv, sv, u)->0);
            }
            plan.pods.insert(uid.clone(), st);
            proof {
                assert forall|x: Seq<char>| x != u && #[trigger] sks.take(j + 1).contains(
                    x,
                ) implies sks.take(j as int).contains(x) by {
                    lemma_take_contains(sks, j as int, x);
                }
                assert forall|x: Seq<char>| #[trigger] sks.take(j as int).contains(x) implies sks.take(
                    j + 1,
                ).contains(x) by {
                    lemma_take_contains(sks, j as int, x);
                }
            }
        } else {
            proof {
                assert forall|x: Seq<char>| #[trigger] sks.take(j + 1).contains(x) && x
                    != u implies sks.take(j as int).contains(x) by {
                    lemma_take_contains(sks, j as int, x);
                }
                assert forall|x: Seq<char>| #[trigger] sks.take(j as int).contains(x) implies sks.take(
                    j + 1,
                ).contains(x) by {
                    lemma_take_contains(sks, j as int, x);
                }
                assert(sks.take(j + 1).contains(u));
                assert(tv.dom().contains(u));
            }
        }
        j = j + 1;
    }
    proof {
        assert(sks.take(sn as int) =~= sks);
        assert forall|u: Seq<char>| pod_step_of(tv, sv, u) is Some implies #[trigger] plan@.dom().contains(
            u,
        ) by {
            if tv.dom().contains(u) {
                assert(tks.contains(u));
            } else {
                assert(sv.dom().contains(u));
                assert(sks.contains(u));
            }
        }
        assert(plan@ =~= plan_of(tv, sv));
    }
    plan
}

/// A plan never contains a step for a uid that is absent from both the
/// target and the observed state.
pub proof fn lemma_plan_only_known_uids(
    t: Map<Seq<char>, PodConfigV>,
    s: Map<Seq<char>, PodStatusV>,
)
    ensures
        forall|uid: Seq<char>| #[trigger] plan_of(t, s).dom().contains(uid) ==> t.dom().contains(
            uid,
        ) || s.dom().contains(uid),
{
}

/// A pod-creation step is emitted only for a uid the observed state does
/// not have; containers of such a pod are not examined until it appears.
pub proof fn lemma_create_only_when_absent(
    t: Map<Seq<char>, PodConfigV>,
    s: Map<Seq<char>, PodStatusV>,
)
    ensures
        forall|uid: Seq<char>| #[trigger] plan_of(t, s).dom().contains(uid) && plan_of(
            t,
            s,
        )[uid] is CreatePod ==> !s.dom().contains(uid),
{
}

/// The observed state satisfies the target: the same pods are present, every
/// desired container of each pod is observed running, and no pod carries a
/// container its configuration does not name.
pub open spec fn satisfies(t: Map<Seq<char>, PodConfigV>, s: Map<Seq<char>, PodStatusV>) -> bool {
    &&& forall|uid: Seq<char>| #[trigger] t.dom().contains(uid) ==> s.dom().contains(uid)
    &&& forall|uid: Seq<char>| #[trigger] s.dom().contains(uid) ==> t.dom().contains(uid)
    &&& forall|uid: Seq<char>, name: Seq<char>|
        t.dom().contains(uid) && #[trigger] t[uid].containers.dom().contains(name)
            ==> s[uid].ctrs.dom().contains(name) && s[uid].ctrs[name].state is Running
    &&& forall|uid: Seq<char>, name: Seq<char>|
        s.dom().contains(uid) && #[trigger] s[uid].ctrs.dom().contains(name)
            ==> t.dom().contains(uid) && t[uid].containers.dom().contains(name)
}

/// A state that already satisfies the target yields an empty plan.
pub proof fn lemma_satisfied_plan_empty(
    t: Map<Seq<char>, PodConfigV>,
    s: Map<Seq<char>, PodStatusV>,
)
    requires
        satisfies(t, s),
    ensures
        plan_of(t, s) == Map::<Seq<char>, PodStepV>::empty(),
{
    assert forall|uid: Seq<char>| #[trigger] pod_step_of(t, s, uid) is None by {
        if t.dom().contains(uid) {
            assert(s.dom().contains(uid));
            assert(ctr_steps(s[uid], t[uid]) =~= Map::<Seq<char>, ContainerStepV>::empty());
        } else {
            assert(!s.dom().contains(uid));
        }
    }
    assert(plan_of(t, s) =~= Map::<Seq<char>, PodStepV>::empty());
}

} // verus!
