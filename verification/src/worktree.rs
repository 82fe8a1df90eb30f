//! The work tree: the executor's picture of the tasks that are in flight,
//! one entry per pod, mirroring the shape of the plan. `execute` turns a
//! plan into a new tree, carrying running tasks forward where the plan still
//! asks for the same work and asking the caller to spawn tasks for the rest.
//! Entries not carried forward are simply absent from the new tree; the
//! caller drops their tasks, which cancels them.

use crate::config::{ContainerConfigV, SandBoxConfigV};
use crate::plan::{ContainerStep, ContainerStepV, Plan, PodStep, PodStepV};
use crate::strmap::{StrMap, lemma_take_contains};
use vstd::prelude::*;

verus! {

/// Identity of a supervised task. Tasks spawned by one `execute` call share
/// its fresh epoch and are told apart by slot; reused tasks keep their
/// original identity.
#[derive(Clone, Copy, Debug, PartialEq, Eq, Hash, Structural)]
pub struct TaskId {
    pub epoch: u64,
    pub slot: usize,
}

/// The runtime operation a freshly spawned task is to supervise.
pub enum TaskOp {
    CreateSandbox(crate::config::SandBoxConfig),
    PullAndCreate(String, crate::config::ContainerConfig, crate::config::SandBoxConfig),
    StartContainer(String),
    StopContainer(String),
    RemoveContainer(String),
    RemovePod(String),
}

#[verifier::ext_equal]
pub enum TaskOpV {
    CreateSandbox(SandBoxConfigV),
    PullAndCreate(Seq<char>, ContainerConfigV, SandBoxConfigV),
    StartContainer(Seq<char>),
    StopContainer(Seq<char>),
    RemoveContainer(Seq<char>),
    RemovePod(Seq<char>),
}

impl View for TaskOp {
    type V = TaskOpV;

    open spec fn view(&self) -> TaskOpV {
        match self {
            TaskOp::CreateSandbox(cfg) => TaskOpV::CreateSandbox(cfg@),
            TaskOp::PullAndCreate(pid, cfg, sb) => TaskOpV::PullAndCreate(pid@, cfg@, sb@),
            TaskOp::StartContainer(id) => TaskOpV::StartContainer(id@),
            TaskOp::StopContainer(id) => TaskOpV::StopContainer(id@),
            TaskOp::RemoveContainer(id) => TaskOpV::RemoveContainer(id@),
            TaskOp::RemovePod(id) => TaskOpV::RemovePod(id@),
        }
    }
}

/// The operation that carries out one container step.
pub open spec fn ctr_op_of(st: ContainerStepV) -> TaskOpV {
    match st {
        ContainerStepV::CreateCtr(pid, cfg, sb) => TaskOpV::PullAndCreate(pid, cfg, sb),
        ContainerStepV::StartCtr(id) => TaskOpV::StartContainer(id),
        ContainerStepV::StopCtr(id) => TaskOpV::StopContainer(id),
        ContainerStepV::DeleteCtr(id) => TaskOpV::RemoveContainer(id),
    }
}

/// In-flight task for one container, mirroring `ContainerStep`.
#[derive(Clone, Copy, Debug, PartialEq, Eq, Structural)]
pub enum ContainerTask {
    CreateCtr(TaskId),
    StartCtr(TaskId),
    StopCtr(TaskId),
    DeleteCtr(TaskId),
}

impl View for ContainerTask {
    type V = ContainerTask;

    open spec fn view(&self) -> ContainerTask {
        *self
    }
}

/// The identity a container task carries.
pub open spec fn ctr_task_id(t: ContainerTask) -> TaskId {
    match t {
        ContainerTask::CreateCtr(id) => id,
        ContainerTask::StartCtr(id) => id,
        ContainerTask::StopCtr(id) => id,
        ContainerTask::DeleteCtr(id) => id,
    }
}

/// A fresh container task for `st`: the matching variant, carrying an
/// identity of epoch `ep`.
pub open spec fn ctr_task_fresh_for(st: ContainerStepV, t: ContainerTask, ep: u64) -> bool {
    &&& ctr_task_id(t).epoch == ep
    &&& match st {
        ContainerStepV::CreateCtr(_, _, _) => t is CreateCtr,
        ContainerStepV::StartCtr(_) => t is StartCtr,
        ContainerStepV::StopCtr(_) => t is StopCtr,
        ContainerStepV::DeleteCtr(_) => t is DeleteCtr,
    }
}

/// In-flight tasks for one pod, mirroring `PodStep`.
pub enum PodTask {
    CreatePod(TaskId),
    ChangePod(StrMap<ContainerTask>),
    DeletePod(TaskId),
}

#[verifier::ext_equal]
pub enum PodTaskV {
    CreatePod(TaskId),
    ChangePod(Map<Seq<char>, ContainerTask>),
    DeletePod(TaskId),
}

impl View for PodTask {
    type V = PodTaskV;

    open spec fn view(&self) -> PodTaskV {
        match self {
            PodTask::CreatePod(id) => PodTaskV::CreatePod(*id),
            PodTask::ChangePod(m) => PodTaskV::ChangePod(m@),
            PodTask::DeletePod(id) => PodTaskV::DeletePod(*id),
        }
    }
}

/// Every identity in the entry has an epoch of at most `ep`.
pub open spec fn pod_task_epochs_at_most(p: PodTaskV, ep: u64) -> bool {
    match p {
        PodTaskV::CreatePod(id) => id.epoch <= ep,
        PodTaskV::DeletePod(id) => id.epoch <= ep,
        PodTaskV::ChangePod(m) => forall|n: Seq<char>| #[trigger]
            m.dom().contains(n) ==> ctr_task_id(m[n]).epoch <= ep,
    }
}

/// A tree of in-flight tasks for the pods the most recent plan mentioned.
pub struct WorkTree {
    pods: StrMap<PodTask>,
    epoch: u64,
}

impl View for WorkTree {
    type V = Map<Seq<char>, PodTaskV>;

    closed spec fn view(&self) -> Map<Seq<char>, PodTaskV> {
        self.pods@
    }
}

/// What the new tree holds at `uid`, given the plan's step there and the old
/// tree: the same entry as before when the step kind is unchanged (for a
/// change step, container tasks are carried forward name by name), and a
/// fresh task of epoch `ep` for everything else.
pub open spec fn pod_entry_ok(
    step: PodStepV,
    oldm: Map<Seq<char>, PodTaskV>,
    uid: Seq<char>,
    entry: PodTaskV,
    ep: u64,
) -> bool {
    match step {
        PodStepV::CreatePod(_) => {
            if oldm.dom().contains(uid) && oldm[uid] is CreatePod {
                entry == oldm[uid]
            } else {
                entry matches PodTaskV::CreatePod(id) && id.epoch == ep
            }
        },
        PodStepV::DeletePod(_) => {
            if oldm.dom().contains(uid) && oldm[uid] is DeletePod {
                entry == oldm[uid]
            } else {
                entry matches PodTaskV::DeletePod(id) && id.epoch == ep
            }
        },
        PodStepV::ChangePod(steps) => {
            &&& entry is ChangePod
            &&& entry->ChangePod_0.dom() == steps.dom()
            &&& forall|n: Seq<char>| #[trigger] steps.dom().contains(n) ==> {
                if oldm.dom().contains(uid) && oldm[uid] is ChangePod
                    && oldm[uid]->ChangePod_0.dom().contains(n) {
                    entry->ChangePod_0[n] == oldm[uid]->ChangePod_0[n]
                } else {
                    ctr_task_fresh_for(steps[n], entry->ChangePod_0[n], ep)
                }
            }
        },
    }
}

/// The spawn request `sp` asks for work the new tree records: some pod entry
/// (or some container task under one) carries exactly this identity, and the
/// operation is the one that pod's or container's step calls for.
pub open spec fn spawn_serves(
    p: Map<Seq<char>, PodStepV>,
    newm: Map<Seq<char>, PodTaskV>,
    sp: (TaskId, TaskOpV),
) -> bool {
    exists|uid: Seq<char>| #![auto]
        p.dom().contains(uid) && newm.dom().contains(uid) && match p[uid] {
            PodStepV::CreatePod(cfg) => sp.1 == TaskOpV::CreateSandbox(cfg) && newm[uid]
                == PodTaskV::CreatePod(sp.0),
            PodStepV::DeletePod(pid) => sp.1 == TaskOpV::RemovePod(pid) && newm[uid]
                == PodTaskV::DeletePod(sp.0),
            PodStepV::ChangePod(steps) => newm[uid] is ChangePod && exists|n: Seq<char>| #![auto]
                steps.dom().contains(n) && sp.1 == ctr_op_of(steps[n])
                    && newm[uid]->ChangePod_0.dom().contains(n) && ctr_task_id(
                    newm[uid]->ChangePod_0[n],
                ) == sp.0,
        }
}

/// The spawn list as identity-operation pairs.
pub open spec fn spawn_pairs(sp: Seq<(TaskId, TaskOp)>) -> Seq<(TaskId, TaskOpV)> {
    sp.map_values(|p: (TaskId, TaskOp)| (p.0, p.1@))
}

pub open spec fn has_spawn(sp: Seq<(TaskId, TaskOpV)>, id: TaskId, op: TaskOpV) -> bool {
    exists|k: int| 0 <= k < sp.len() && sp[k] == (id, op)
}

/// Every fresh task the entry at `uid` carries has a spawn request in the
/// list, under its identity and with the operation its step calls for.
pub open spec fn entry_spawned(
    step: PodStepV,
    oldm: Map<Seq<char>, PodTaskV>,
    uid: Seq<char>,
    entry: PodTaskV,
    sp: Seq<(TaskId, TaskOpV)>,
) -> bool {
    match step {
        PodStepV::CreatePod(cfg) => {
            if oldm.dom().contains(uid) && oldm[uid] is CreatePod {
                true
            } else {
                entry matches PodTaskV::CreatePod(id) ==> has_spawn(
                    sp,
                    id,
                    TaskOpV::CreateSandbox(cfg),
                )
            }
        },
        PodStepV::DeletePod(pid) => {
            if oldm.dom().contains(uid) && oldm[uid] is DeletePod {
                true
            } else {
                entry matches PodTaskV::DeletePod(id) ==> has_spawn(sp, id, TaskOpV::RemovePod(pid))
            }
        },
        PodStepV::ChangePod(steps) => {
            entry is ChangePod ==> forall|n: Seq<char>| #[trigger] steps.dom().contains(n)
                && entry->ChangePod_0.dom().contains(n) && !(oldm.dom().contains(uid) && oldm[uid]
                is ChangePod && oldm[uid]->ChangePod_0.dom().contains(n)) ==> has_spawn(
                sp,
                ctr_task_id(entry->ChangePod_0[n]),
                ctr_op_of(steps[n]),
            )
        },
    }
}

/// A spawn list that has grown keeps every request it already had.
proof fn lemma_has_spawn_extend(
    sp1: Seq<(TaskId, TaskOpV)>,
    sp2: Seq<(TaskId, TaskOpV)>,
    id: TaskId,
    op: TaskOpV,
)
    requires
        has_spawn(sp1, id, op),
        sp1.len() <= sp2.len(),
        sp2.take(sp1.len() as int) == sp1,
    ensures
        has_spawn(sp2, id, op),
{
    let k = choose|k: int| 0 <= k < sp1.len() && sp1[k] == (id, op);
    assert(sp2.take(sp1.len() as int)[k] == sp2[k]);
    assert(sp2[k] == (id, op));
}

proof fn lemma_entry_spawned_extend(
    step: PodStepV,
    oldm: Map<Seq<char>, PodTaskV>,
    uid: Seq<char>,
    entry: PodTaskV,
    sp1: Seq<(TaskId, TaskOpV)>,
    sp2: Seq<(TaskId, TaskOpV)>,
)
    requires
        entry_spawned(step, oldm, uid, entry, sp1),
        sp1.len() <= sp2.len(),
        sp2.take(sp1.len() as int) == sp1,
    ensures
        entry_spawned(step, oldm, uid, entry, sp2),
{
    match step {
        PodStepV::CreatePod(cfg) => {
            if !(oldm.dom().contains(uid) && oldm[uid] is CreatePod) {
                match entry {
                    PodTaskV::CreatePod(id) => {
                        lemma_has_spawn_extend(sp1, sp2, id, TaskOpV::CreateSandbox(cfg));
                    },
                    _ => {},
                }
            }
        },
        PodStepV::DeletePod(pid) => {
            if !(oldm.dom().contains(uid) && oldm[uid] is DeletePod) {
                match entry {
                    PodTaskV::DeletePod(id) => {
                        lemma_has_spawn_extend(sp1, sp2, id, TaskOpV::RemovePod(pid));
                    },
                    _ => {},
                }
            }
        },
        PodStepV::ChangePod(steps) => {
            if entry is ChangePod {
                assert forall|n: Seq<char>| #[trigger] steps.dom().contains(n)
                    && entry->ChangePod_0.dom().contains(n) && !(oldm.dom().contains(uid)
                    && oldm[uid] is ChangePod && oldm[uid]->ChangePod_0.dom().contains(
                    n,
                )) implies has_spawn(
                    sp2,
                    ctr_task_id(entry->ChangePod_0[n]),
                    ctr_op_of(steps[n]),
                ) by {
                    lemma_has_spawn_extend(
                        sp1,
                        sp2,
                        ctr_task_id(entry->ChangePod_0[n]),
                        ctr_op_of(steps[n]),
                    );
                }
            }
        },
    }
}

impl WorkTree {
    #[verifier::type_invariant]
    spec fn wf(self) -> bool {
        forall|uid: Seq<char>| #[trigger] self.pods@.dom().contains(uid)
            ==> pod_task_epochs_at_most(self.pods@[uid], self.epoch)
    }

    /// The epoch below which every identity in the tree was allocated.
    pub closed spec fn epoch(self) -> u64 {
        self.epoch
    }

    pub fn new() -> (r: WorkTree)
        ensures
            r@ == Map::<Seq<char>, PodTaskV>::empty(),
            r.epoch() == 0,
    {
        WorkTree { pods: StrMap::new(), epoch: 0 }
    }

    /// The tree's current epoch, together with the bound it puts on every
    /// identity the tree holds.
    pub fn current_epoch(&self) -> (r: u64)
        ensures
            r == self.epoch(),
            forall|uid: Seq<char>| #[trigger] self@.dom().contains(uid)
                ==> pod_task_epochs_at_most(self@[uid], self.epoch()),
    {
        proof {
            use_type_invariant(&*self);
        }
        self.epoch
    }

    /// Read access to the per-pod entries.
    pub fn pods(&self) -> (r: &StrMap<PodTask>)
        ensures
            r@ == self@,
    {
        &self.pods
    }
}

/// A fresh container task (and its operation) for one container step.
fn spawn_ctr(st: &ContainerStep, id: TaskId) -> (r: (ContainerTask, TaskOp))
    ensures
        ctr_task_id(r.0) == id,
        ctr_task_fresh_for(st@, r.0, id.epoch),
        r.1@ == ctr_op_of(st@),
{
    match st {
        ContainerStep::CreateCtr(pid, cfg, sb) => (
            ContainerTask::CreateCtr(id),
            TaskOp::PullAndCreate(pid.clone(), cfg.clone(), sb.clone()),
        ),
        ContainerStep::StartCtr(cid) => (
            ContainerTask::StartCtr(id),
            TaskOp::StartContainer(cid.clone()),
        ),
        ContainerStep::StopCtr(cid) => (
            ContainerTask::StopCtr(id),
            TaskOp::StopContainer(cid.clone()),
        ),
        ContainerStep::DeleteCtr(cid) => (
            ContainerTask::DeleteCtr(id),
            TaskOp::RemoveContainer(cid.clone()),
        ),
    }
}

/// Turns a plan into a new work tree.
///
/// The new tree has exactly the plan's pods. Wherever the old tree was
/// already doing work of the same kind — the same pod step kind, or for a
/// change step the same container name — the old task is carried forward
/// under its old identity and nothing is spawned for it. Everything else
/// gets a fresh identity of a fresh epoch, and a matching entry in the
/// returned spawn list tells the caller which operation to start under that
/// identity. Old entries not carried forward are left behind for the caller
/// to drop, which cancels them.
#[verifier::loop_isolation(false)]
pub fn execute(plan: &Plan, old_tree: &WorkTree) -> (r: (WorkTree, Vec<(TaskId, TaskOp)>))
    requires
        old_tree.epoch() < u64::MAX,
    ensures
        r.0@.dom() == plan@.dom(),
        r.0.epoch() == old_tree.epoch() + 1,
        forall|uid: Seq<char>| #[trigger] plan@.dom().contains(uid) ==> pod_entry_ok(
            plan@[uid],
            old_tree@,
            uid,
            r.0@[uid],
            (old_tree.epoch() + 1) as u64,
        ),
        forall|k: int| 0 <= k < r.1@.len() ==> (#[trigger] r.1@[k]).0.epoch == old_tree.epoch()
            + 1 && r.1@[k].0.slot == k,
        forall|k: int| 0 <= k < r.1@.len() ==> spawn_serves(
            plan@,
            r.0@,
            ((#[trigger] r.1@[k]).0, r.1@[k].1@),
        ),
        forall|uid: Seq<char>| #[trigger] plan@.dom().contains(uid) ==> entry_spawned(
            plan@[uid],
            old_tree@,
            uid,
            r.0@[uid],
            spawn_pairs(r.1@),
        ),
{
    let ghost pv = plan@;
    let ghost oldm = old_tree@;
    let epoch = old_tree.current_epoch() + 1;
    let mut newpods: StrMap<PodTask> = StrMap::new();
    let mut spawns: Vec<(TaskId, TaskOp)> = Vec::new();
    let pn = plan.pods.klen();
    let ghost pks = plan.pods.kseq();
    let mut i: usize = 0;
    while i < pn
        invariant
            i <= pn,
            forall|uid: Seq<char>| #[trigger] newpods@.dom().contains(uid) <==> pks.take(
                i as int,
            ).contains(uid),
            forall|uid: Seq<char>| #[trigger] newpods@.dom().contains(uid) ==> pod_entry_ok(
                pv[uid],
                oldm,
                uid,
                newpods@[uid],
                epoch,
            ),
            forall|k: int| 0 <= k < spawns@.len() ==> (#[trigger] spawns@[k]).0.epoch == epoch
                && spawns@[k].0.slot == k,
            forall|k: int| 0 <= k < spawns@.len() ==> spawn_serves(
                pv,
                newpods@,
                ((#[trigger] spawns@[k]).0, spawns@[k].1@),
            ),
            forall|uid: Seq<char>| #[trigger] newpods@.dom().contains(uid) ==> entry_spawned(
                pv[uid],
                oldm,
                uid,
                newpods@[uid],
                spawn_pairs(spawns@),
            ),
        decreases pn - i,
    {
        let e = plan.pods.entry_at(i);
        let uid = e.0;
        let step = e.1;
        let ghost u = uid@;
        proof {
            lemma_take_contains(pks, i as int, u);
            assert(!pks.take(i as int).contains(u));
            assert(!newpods@.dom().contains(u));
        }
        let ghost before = newpods@;
        let ghost spawns_before = spawns@;
        let old_entry: Option<&PodTask> = old_tree.pods().get(uid);
        match step {
            PodStep::CreatePod(cfg) => {
                let reuse: Option<TaskId> = match old_entry {
                    Some(PodTask::CreatePod(tid)) => Some(*tid),
                    _ => None,
                };
                match reuse {
                    Some(tid) => {
                        newpods.insert(uid.clone(), PodTask::CreatePod(tid));
                        proof {
                            assert(spawns@.take(spawns_before.len() as int) =~= spawns_before);
                            assert(entry_spawned(pv[u], oldm, u, newpods@[u], spawn_pairs(spawns@)));
                        }
                    },
                    None => {
                        let tid = TaskId { epoch, slot: spawns.len() };
                        spawns.push((tid, TaskOp::CreateSandbox(cfg.clone())));
                        newpods.insert(uid.clone(), PodTask::CreatePod(tid));
                        proof {
                            assert(spawn_serves(
                                pv,
                                newpods@,
                                (spawns@.last().0, spawns@.last().1@),
                            ));
                            assert(spawns@.take(spawns_before.len() as int) =~= spawns_before);
                            assert(spawn_pairs(spawns@)[spawns@.len() - 1] == (
                                tid,
                                TaskOpV::CreateSandbox(cfg@),
                            ));
                            assert(entry_spawned(pv[u], oldm, u, newpods@[u], spawn_pairs(spawns@)));
                        }
                    },
                }
            },
            PodStep::DeletePod(pid) => {
                let reuse: Option<TaskId> = match old_entry {
                    Some(PodTask::DeletePod(tid)) => Some(*tid),
                    _ => None,
                };
                match reuse {
                    Some(tid) => {
                        newpods.insert(uid.clone(), PodTask::DeletePod(tid));
                        proof {
                            assert(spawns@.take(spawns_before.len() as int) =~= spawns_before);
                            assert(entry_spawned(pv[u], oldm, u, newpods@[u], spawn_pairs(spawns@)));
                        }
                    },
                    None => {
                        let tid = TaskId { epoch, slot: spawns.len() };
                        spawns.push((tid, TaskOp::RemovePod(pid.clone())));
                        newpods.insert(uid.clone(), PodTask::DeletePod(tid));
                        proof {
                            assert(spawn_serves(
                                pv,
                                newpods@,
                                (spawns@.last().0, spawns@.last().1@),
                            ));
                            assert(spawns@.take(spawns_before.len() as int) =~= spawns_before);
                            assert(spawn_pairs(spawns@)[spawns@.len() - 1] == (
                                tid,
                                TaskOpV::RemovePod(pid@),
                            ));
                            assert(entry_spawned(pv[u], oldm, u, newpods@[u], spawn_pairs(spawns@)));
                        }
                    },
                }
            },
            PodStep::ChangePod(steps) => {
                let old_tasks: Option<&StrMap<ContainerTask>> = match old_entry {
                    Some(PodTask::ChangePod(m)) => Some(m),
                    _ => None,
                };
                let ghost stepsm = steps@;
                let mut tasks: StrMap<ContainerTask> = StrMap::new();
                let sn = steps.klen();
                let ghost sks = steps.kseq();
                let ghost s0 = spawns@.len() as int;
                let mut j: usize = 0;
                while j < sn
                    invariant
                        j <= sn,
                        newpods@ == before,
                        forall|n: Seq<char>| #[trigger] tasks@.dom().contains(n) <==> sks.take(
                            j as int,
                        ).contains(n),
                        forall|n: Seq<char>| #[trigger] tasks@.dom().contains(n) ==> {
                            if oldm.dom().contains(u) && oldm[u] is ChangePod
                                && oldm[u]->ChangePod_0.dom().contains(n) {
                                tasks@[n] == oldm[u]->ChangePod_0[n]
                            } else {
                                ctr_task_fresh_for(stepsm[n], tasks@[n], epoch)
                            }
                        },
                        spawns@.len() >= s0,
                        spawns@.take(s0) == spawns_before,
                        forall|k: int| 0 <= k < spawns@.len() ==> (#[trigger] spawns@[k]).0.epoch
                            == epoch && spawns@[k].0.slot == k,
                        forall|k: int| 0 <= k < s0 ==> spawn_serves(
                            pv,
                            newpods@,
                            ((#[trigger] spawns@[k]).0, spawns@[k].1@),
                        ),
                        forall|k: int| s0 <= k < spawns@.len() ==> exists|n: Seq<char>| #![auto]
                            stepsm.dom().contains(n) && (#[trigger] spawns@[k]).1@ == ctr_op_of(
                                stepsm[n],
                            ) && tasks@.dom().contains(n) && ctr_task_id(tasks@[n]) == spawns@[k].0,
                        forall|n: Seq<char>| #[trigger] tasks@.dom().contains(n) && !(
                        oldm.dom().contains(u) && oldm[u] is ChangePod
                            && oldm[u]->ChangePod_0.dom().contains(n)) ==> has_spawn(
                            spawn_pairs(spawns@),
                            ctr_task_id(tasks@[n]),
                            ctr_op_of(stepsm[n]),
                        ),
                    decreases sn - j,
                {
                    let se = steps.entry_at(j);
                    let name = se.0;
                    let cstep = se.1;
                    let ghost nm = name@;
                    proof {
                        lemma_take_contains(sks, j as int, nm);
                        assert(!sks.take(j as int).contains(nm));
                        assert(!tasks@.dom().contains(nm));
                    }
                    let ghost tasks_before = tasks@;
                    let ghost sp_before = spawns@;
                    let reused: Option<ContainerTask> = match old_tasks {
                        Some(om) => {
                            match om.get(name) {
                                Some(t) => Some(*t),
                                None => None,
                            }
                        },
                        None => None,
                    };
                    match reused {
                        Some(t) => {
                            tasks.insert(name.clone(), t);
                            proof {
                                assert forall|n: Seq<char>| #[trigger] tasks@.dom().contains(n)
                                    && !(oldm.dom().contains(u) && oldm[u] is ChangePod
                                    && oldm[u]->ChangePod_0.dom().contains(n)) implies has_spawn(
                                    spawn_pairs(spawns@),
                                    ctr_task_id(tasks@[n]),
                                    ctr_op_of(stepsm[n]),
                                ) by {
                                    assert(n != nm);
                                    assert(tasks@[n] == tasks_before[n]);
                                }
                            }
                        },
                        None => {
                            let tid = TaskId { epoch, slot: spawns.len() };
                            let st = spawn_ctr(cstep, tid);
                            spawns.push((tid, st.1));
                            tasks.insert(name.clone(), st.0);
                            proof {
                                assert(spawns@.take(s0) =~= sp_before.take(s0));
                                assert(spawns@.take(sp_before.len() as int) =~= sp_before);
                                assert(spawn_pairs(spawns@).take(sp_before.len() as int)
                                    =~= spawn_pairs(sp_before));
                                assert(spawn_pairs(spawns@)[spawns@.len() - 1] == (
                                    tid,
                                    ctr_op_of(stepsm[nm]),
                                ));
                                assert forall|n: Seq<char>| #[trigger] tasks@.dom().contains(n)
                                    && !(oldm.dom().contains(u) && oldm[u] is ChangePod
                                    && oldm[u]->ChangePod_0.dom().contains(n)) implies has_spawn(
                                    spawn_pairs(spawns@),
                                    ctr_task_id(tasks@[n]),
                                    ctr_op_of(stepsm[n]),
                                ) by {
                                    if n == nm {
                                    } else {
                                        assert(tasks@[n] == tasks_before[n]);
                                        lemma_has_spawn_extend(
                                            spawn_pairs(sp_before),
                                            spawn_pairs(spawns@),
                                            ctr_task_id(tasks_before[n]),
                                            ctr_op_of(stepsm[n]),
                                        );
                                    }
                                }
                            }
                        },
                    }
                    proof {
                        assert forall|k: int| s0 <= k < spawns@.len() implies exists|
                            n: Seq<char>,
                        | #![auto]
                            stepsm.dom().contains(n) && (#[trigger] spawns@[k]).1@ == ctr_op_of(
                                stepsm[n],
                            ) && tasks@.dom().contains(n) && ctr_task_id(tasks@[n])
                                == spawns@[k].0 by {
                            if k < sp_before.len() {
                                let n0 = choose|n0: Seq<char>| #![auto]
                                    stepsm.dom().contains(n0) && sp_before[k].1@ == ctr_op_of(
                                        stepsm[n0],
                                    ) && tasks_before.dom().contains(n0) && ctr_task_id(
                                        tasks_before[n0],
                                    ) == sp_before[k].0;
                                assert(n0 != nm);
                                assert(tasks@.dom().contains(n0) && ctr_task_id(tasks@[n0])
                                    == spawns@[k].0);
                            } else {
                                assert(tasks@.dom().contains(nm) && ctr_task_id(tasks@[nm])
                                    == spawns@[k].0);
                            }
                        }
                    }
                    j = j + 1;
                }
                proof {
                    assert(sks.take(sn as int) =~= sks);
                }
                let ghost tasksm = tasks@;
                newpods.insert(uid.clone(), PodTask::ChangePod(tasks));
                proof {
                    assert(tasksm.dom() =~= stepsm.dom());
                    assert(pod_entry_ok(pv[u], oldm, u, newpods@[u], epoch));
                    assert(entry_spawned(pv[u], oldm, u, newpods@[u], spawn_pairs(spawns@)));
                    assert forall|k: int| 0 <= k < spawns@.len() implies spawn_serves(
                        pv,
                        newpods@,
                        ((#[trigger] spawns@[k]).0, spawns@[k].1@),
                    ) by {
                        if k < s0 {
                            assert(spawns@[k] == spawns_before[k]);
                            let w = choose|w: Seq<char>| #![auto]
                                pv.dom().contains(w) && before.dom().contains(w) && match pv[w] {
                                    PodStepV::CreatePod(cfg) => spawns_before[k].1@
                                        == TaskOpV::CreateSandbox(cfg) && before[w]
                                        == PodTaskV::CreatePod(spawns_before[k].0),
                                    PodStepV::DeletePod(pid) => spawns_before[k].1@
                                        == TaskOpV::RemovePod(pid) && before[w]
                                        == PodTaskV::DeletePod(spawns_before[k].0),
                                    PodStepV::ChangePod(stm) => before[w] is ChangePod && exists|
                                        n: Seq<char>,
                                    | #![auto]
                                        stm.dom().contains(n) && spawns_before[k].1@ == ctr_op_of(
                                            stm[n],
                                        ) && before[w]->ChangePod_0.dom().contains(n)
                                            && ctr_task_id(before[w]->ChangePod_0[n])
                                            == spawns_before[k].0,
                                };
                            assert(w != u);
                            assert(newpods@[w] == before[w]);
                        } else {
                            let n0 = choose|n0: Seq<char>| #![auto]
                                stepsm.dom().contains(n0) && spawns@[k].1@ == ctr_op_of(
                                    stepsm[n0],
                                ) && tasksm.dom().contains(n0) && ctr_task_id(tasksm[n0])
                                    == spawns@[k].0;
                            assert(newpods@.dom().contains(u));
                            assert(newpods@[u] is ChangePod);
                            assert(newpods@[u]->ChangePod_0 == tasksm);
                        }
                    }
                }
            },
        }
        proof {
            assert(spawns@.take(spawns_before.len() as int) =~= spawns_before);
            assert(spawn_pairs(spawns@).take(spawns_before.len() as int) =~= spawn_pairs(
                spawns_before,
            ));
            assert forall|x: Seq<char>| #[trigger] newpods@.dom().contains(x) implies entry_spawned(
                pv[x],
                oldm,
                x,
                newpods@[x],
                spawn_pairs(spawns@),
            ) by {
                if x != u {
                    assert(before.dom().contains(x));
                    assert(newpods@[x] == before[x]);
                    lemma_entry_spawned_extend(
                        pv[x],
                        oldm,
                        x,
                        before[x],
                        spawn_pairs(spawns_before),
                        spawn_pairs(spawns@),
                    );
                }
            }
            assert forall|x: Seq<char>| #[trigger] newpods@.dom().contains(x) implies pks.take(
                i + 1,
            ).contains(x) by {
                lemma_take_contains(pks, i as int, x);
            }
            assert forall|x: Seq<char>| pks.take(i + 1).contains(x) implies #[trigger] newpods@.dom().contains(
                x,
            ) by {
                if x != u {
                    lemma_take_contains(pks, i as int, x);
                }
            }
        }
        i = i + 1;
    }
    proof {
        assert(pks.take(pn as int) =~= pks);
        assert forall|uid: Seq<char>| #[trigger] pv.dom().contains(uid) implies newpods@.dom().contains(
            uid,
        ) by {
            assert(pks.contains(uid));
        }
        assert(newpods@.dom() =~= pv.dom());
    }
    let tree = WorkTree { pods: newpods, epoch };
    proof {
        assert forall|uid: Seq<char>| #[trigger] newpods@.dom().contains(uid) implies pod_task_epochs_at_most(
            newpods@[uid],
            epoch,
        ) by {
            assert(pod_entry_ok(pv[uid], oldm, uid, newpods@[uid], epoch));
            match pv[uid] {
                PodStepV::CreatePod(_) => {
                    if oldm.dom().contains(uid) && oldm[uid] is CreatePod {
                        assert(pod_task_epochs_at_most(oldm[uid], old_tree.epoch()));
                    }
                },
                PodStepV::DeletePod(_) => {
                    if oldm.dom().contains(uid) && oldm[uid] is DeletePod {
                        assert(pod_task_epochs_at_most(oldm[uid], old_tree.epoch()));
                    }
                },
                PodStepV::ChangePod(stm) => {
                    assert forall|n: Seq<char>| #[trigger]
                        newpods@[uid]->ChangePod_0.dom().contains(n) implies ctr_task_id(
                        newpods@[uid]->ChangePod_0[n],
                    ).epoch <= epoch by {
                        assert(stm.dom().contains(n));
                        if oldm.dom().contains(uid) && oldm[uid] is ChangePod
                            && oldm[uid]->ChangePod_0.dom().contains(n) {
                            assert(pod_task_epochs_at_most(oldm[uid], old_tree.epoch()));
                        }
                    }
                },
            }
        }
    }
    (tree, spawns)
}

} // verus!
