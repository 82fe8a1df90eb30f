use agent::config::{ContainerConfig, SandBoxConfig};
use agent::plan::{ContainerStep, Plan, PodStep};
use agent::strmap::StrMap;
use agent::worktree::{ContainerTask, PodTask, TaskOp, WorkTree, execute};

fn sandbox(name: &str, uid: &str) -> SandBoxConfig {
    SandBoxConfig {
        name: name.to_string(),
        uid: uid.to_string(),
        resources: None,
        namespace: "default".to_string(),
    }
}

fn ctr_config(name: &str) -> ContainerConfig {
    ContainerConfig {
        name: name.to_string(),
        image: "img".to_string(),
        command: "run".to_string(),
        args: vec![],
        working_dir: String::new(),
        envs: vec![],
        privileged: false,
    }
}

fn plan_one(uid: &str, step: PodStep) -> Plan {
    let mut pods = StrMap::new();
    pods.insert(uid.to_string(), step);
    Plan { pods }
}

#[test]
fn worktree_reuse_across_plans() {
    // Plan #1: create the pod; a task is spawned.
    let tree0 = WorkTree::new();
    let plan1 = plan_one("u1", PodStep::CreatePod(sandbox("p", "u1")));
    let (tree1, spawns1) = execute(&plan1, &tree0);
    assert_eq!(spawns1.len(), 1);
    let task_a = spawns1[0].0;
    assert!(matches!(spawns1[0].1, TaskOp::CreateSandbox(ref cfg) if cfg.name == "p"));
    match tree1.pods().get(&"u1".to_string()) {
        Some(PodTask::CreatePod(id)) => assert_eq!(*id, task_a),
        _ => panic!("expected a create-pod task for u1"),
    }

    // Plan #2 asks for the same work: the task is carried forward, nothing
    // is spawned.
    let plan2 = plan_one("u1", PodStep::CreatePod(sandbox("p", "u1")));
    let (tree2, spawns2) = execute(&plan2, &tree1);
    assert!(spawns2.is_empty());
    match tree2.pods().get(&"u1".to_string()) {
        Some(PodTask::CreatePod(id)) => assert_eq!(*id, task_a),
        _ => panic!("expected the carried-forward task for u1"),
    }

    // Plan #3 changes the step kind: the old task is left behind and a new
    // one is spawned under a new identity.
    let plan3 = plan_one("u1", PodStep::DeletePod("p1".to_string()));
    let (tree3, spawns3) = execute(&plan3, &tree2);
    assert_eq!(spawns3.len(), 1);
    let task_b = spawns3[0].0;
    assert_ne!(task_a, task_b);
    assert!(matches!(spawns3[0].1, TaskOp::RemovePod(ref id) if id == "p1"));
    match tree3.pods().get(&"u1".to_string()) {
        Some(PodTask::DeletePod(id)) => assert_eq!(*id, task_b),
        _ => panic!("expected a delete-pod task for u1"),
    }
}

#[test]
fn change_pod_tasks_are_reused_by_name() {
    let tree0 = WorkTree::new();
    let mut steps1 = StrMap::new();
    steps1.insert("c".to_string(), ContainerStep::StartCtr("x".to_string()));
    steps1.insert("d".to_string(), ContainerStep::StopCtr("y".to_string()));
    let plan1 = plan_one("u1", PodStep::ChangePod(steps1));
    let (tree1, spawns1) = execute(&plan1, &tree0);
    assert_eq!(spawns1.len(), 2);

    let (task_c, task_d) = match tree1.pods().get(&"u1".to_string()) {
        Some(PodTask::ChangePod(tasks)) => {
            let c = match tasks.get(&"c".to_string()) {
                Some(ContainerTask::StartCtr(id)) => *id,
                _ => panic!("expected a start task for c"),
            };
            let d = match tasks.get(&"d".to_string()) {
                Some(ContainerTask::StopCtr(id)) => *id,
                _ => panic!("expected a stop task for d"),
            };
            (c, d)
        }
        _ => panic!("expected change-pod tasks for u1"),
    };
    assert_ne!(task_c, task_d);

    // The next plan keeps c, drops d and adds e: c's task is carried
    // forward, one task is spawned for e, and d's task is gone.
    let mut steps2 = StrMap::new();
    steps2.insert("c".to_string(), ContainerStep::StartCtr("x".to_string()));
    steps2.insert(
        "e".to_string(),
        ContainerStep::CreateCtr("p1".to_string(), ctr_config("e"), sandbox("p", "u1")),
    );
    let plan2 = plan_one("u1", PodStep::ChangePod(steps2));
    let (tree2, spawns2) = execute(&plan2, &tree1);
    assert_eq!(spawns2.len(), 1);
    assert!(matches!(
        spawns2[0].1,
        TaskOp::PullAndCreate(ref pid, ref cfg, _) if pid == "p1" && cfg.name == "e"
    ));
    match tree2.pods().get(&"u1".to_string()) {
        Some(PodTask::ChangePod(tasks)) => {
            assert_eq!(tasks.klen(), 2);
            assert!(matches!(tasks.get(&"c".to_string()), Some(ContainerTask::StartCtr(id)) if *id == task_c));
            assert!(matches!(tasks.get(&"e".to_string()), Some(ContainerTask::CreateCtr(id)) if *id == spawns2[0].0));
            assert!(tasks.get(&"d".to_string()).is_none());
        }
        _ => panic!("expected change-pod tasks for u1"),
    }
}

#[test]
fn pods_not_in_the_plan_are_left_behind() {
    let tree0 = WorkTree::new();
    let plan1 = plan_one("u1", PodStep::CreatePod(sandbox("p", "u1")));
    let (tree1, _) = execute(&plan1, &tree0);

    let plan2 = plan_one("u2", PodStep::CreatePod(sandbox("q", "u2")));
    let (tree2, spawns2) = execute(&plan2, &tree1);
    assert_eq!(spawns2.len(), 1);
    assert!(tree2.pods().get(&"u1".to_string()).is_none());
    assert!(tree2.pods().get(&"u2".to_string()).is_some());
}

#[test]
fn each_execute_call_uses_a_fresh_epoch() {
    let tree0 = WorkTree::new();
    let plan1 = plan_one("u1", PodStep::CreatePod(sandbox("p", "u1")));
    let (tree1, spawns1) = execute(&plan1, &tree0);
    let plan2 = plan_one("u2", PodStep::CreatePod(sandbox("q", "u2")));
    let (_, spawns2) = execute(&plan2, &tree1);
    assert_eq!(spawns1[0].0.epoch + 1, spawns2[0].0.epoch);
    assert_eq!(spawns1[0].0.slot, 0);
    assert_eq!(spawns2[0].0.slot, 0);
}
