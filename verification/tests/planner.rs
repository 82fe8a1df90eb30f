use agent::config::{ContainerConfig, PodConfig, SandBoxConfig, Target};
use agent::plan::{ContainerStep, PodStep, diff};
use agent::state::{CtrState, CtrStatus, PodStatus, State};
use agent::strmap::StrMap;

fn sandbox(name: &str, uid: &str) -> SandBoxConfig {
    SandBoxConfig {
        name: name.to_string(),
        uid: uid.to_string(),
        resources: None,
        namespace: "default".to_string(),
    }
}

fn ctr_config(name: &str) -> ContainerConfig {
    ContainerConfig {
        name: name.to_string(),
        image: "img".to_string(),
        command: "run".to_string(),
        args: vec![],
        working_dir: String::new(),
        envs: vec![],
        privileged: false,
    }
}

fn pod_config(name: &str, uid: &str, ctrs: &[&str]) -> PodConfig {
    let mut containers = StrMap::new();
    for c in ctrs {
        containers.insert(c.to_string(), ctr_config(c));
    }
    PodConfig { config: sandbox(name, uid), containers }
}

fn pod_status(id: &str, ctrs: &[(&str, &str, CtrState)]) -> PodStatus {
    let mut pod = PodStatus::new(id.to_string());
    for (name, cid, st) in ctrs {
        pod.insert_ctr(name.to_string(), CtrStatus::new(cid.to_string(), *st));
    }
    pod
}

#[test]
fn create_pod_from_empty() {
    let state = State::new();
    let mut target = Target::new();
    target.pods.insert("u1".to_string(), pod_config("p", "u1", &[]));
    let plan = diff(&target, &state);
    assert_eq!(plan.pods.klen(), 1);
    match plan.pods.get(&"u1".to_string()) {
        Some(PodStep::CreatePod(cfg)) => {
            assert_eq!(cfg.name, "p");
            assert_eq!(cfg.uid, "u1");
            assert_eq!(cfg.namespace, "default");
        }
        _ => panic!("expected CreatePod for u1"),
    }
}

#[test]
fn start_created_container() {
    let mut state = State::new();
    state
        .pods
        .insert("u1".to_string(), pod_status("p1", &[("c", "x", CtrState::Created)]));
    let mut target = Target::new();
    target.pods.insert("u1".to_string(), pod_config("p", "u1", &["c"]));
    let plan = diff(&target, &state);
    assert_eq!(plan.pods.klen(), 1);
    match plan.pods.get(&"u1".to_string()) {
        Some(PodStep::ChangePod(steps)) => {
            assert_eq!(steps.klen(), 1);
            match steps.get(&"c".to_string()) {
                Some(ContainerStep::StartCtr(id)) => assert_eq!(id.as_str(), "x"),
                _ => panic!("expected StartCtr for c"),
            }
        }
        _ => panic!("expected ChangePod for u1"),
    }
}

#[test]
fn restart_exited_container_across_two_ticks() {
    let mut target = Target::new();
    target.pods.insert("u1".to_string(), pod_config("p", "u1", &["c"]));

    // First tick: the exited container is deleted.
    let mut state = State::new();
    state
        .pods
        .insert("u1".to_string(), pod_status("p1", &[("c", "x", CtrState::Exited)]));
    let plan = diff(&target, &state);
    match plan.pods.get(&"u1".to_string()) {
        Some(PodStep::ChangePod(steps)) => match steps.get(&"c".to_string()) {
            Some(ContainerStep::DeleteCtr(id)) => assert_eq!(id.as_str(), "x"),
            _ => panic!("expected DeleteCtr for c"),
        },
        _ => panic!("expected ChangePod for u1"),
    }

    // Second tick, after the removal was observed: the container is created.
    let mut state = State::new();
    state.pods.insert("u1".to_string(), pod_status("p1", &[]));
    let plan = diff(&target, &state);
    match plan.pods.get(&"u1".to_string()) {
        Some(PodStep::ChangePod(steps)) => match steps.get(&"c".to_string()) {
            Some(ContainerStep::CreateCtr(pod_id, cfg, sb)) => {
                assert_eq!(pod_id.as_str(), "p1");
                assert_eq!(cfg.name, "c");
                assert_eq!(sb.uid, "u1");
            }
            _ => panic!("expected CreateCtr for c"),
        },
        _ => panic!("expected ChangePod for u1"),
    }
}

#[test]
fn remove_undesired_pod_with_running_containers() {
    let target = Target::new();
    let mut state = State::new();
    state.pods.insert(
        "u2".to_string(),
        pod_status("p2", &[("c1", "x1", CtrState::Running), ("c2", "x2", CtrState::Exited)]),
    );
    let plan = diff(&target, &state);
    assert_eq!(plan.pods.klen(), 1);
    match plan.pods.get(&"u2".to_string()) {
        Some(PodStep::ChangePod(steps)) => {
            assert_eq!(steps.klen(), 1);
            match steps.get(&"c1".to_string()) {
                Some(ContainerStep::StopCtr(id)) => assert_eq!(id.as_str(), "x1"),
                _ => panic!("expected StopCtr for c1"),
            }
            assert!(steps.get(&"c2".to_string()).is_none());
        }
        _ => panic!("expected ChangePod for u2"),
    }

    // Next tick, once c1 was observed exited: the pod is deleted.
    let mut state = State::new();
    state.pods.insert(
        "u2".to_string(),
        pod_status("p2", &[("c1", "x1", CtrState::Exited), ("c2", "x2", CtrState::Exited)]),
    );
    let plan = diff(&target, &state);
    match plan.pods.get(&"u2".to_string()) {
        Some(PodStep::DeletePod(id)) => assert_eq!(id.as_str(), "p2"),
        _ => panic!("expected DeletePod for u2"),
    }
}

#[test]
fn extraneous_container_under_desired_pod() {
    let mut target = Target::new();
    target.pods.insert("u1".to_string(), pod_config("p", "u1", &["c"]));
    let mut state = State::new();
    state.pods.insert(
        "u1".to_string(),
        pod_status("p1", &[("c", "xc", CtrState::Running), ("d", "xd", CtrState::Running)]),
    );
    let plan = diff(&target, &state);
    assert_eq!(plan.pods.klen(), 1);
    match plan.pods.get(&"u1".to_string()) {
        Some(PodStep::ChangePod(steps)) => {
            assert_eq!(steps.klen(), 1);
            match steps.get(&"d".to_string()) {
                Some(ContainerStep::StopCtr(id)) => assert_eq!(id.as_str(), "xd"),
                _ => panic!("expected StopCtr for d"),
            }
            assert!(steps.get(&"c".to_string()).is_none());
        }
        _ => panic!("expected ChangePod for u1"),
    }
}

#[test]
fn satisfied_state_gives_empty_plan() {
    let mut target = Target::new();
    target.pods.insert("u1".to_string(), pod_config("p", "u1", &["c"]));
    let mut state = State::new();
    state
        .pods
        .insert("u1".to_string(), pod_status("p1", &[("c", "x", CtrState::Running)]));
    let plan = diff(&target, &state);
    assert!(plan.pods.is_empty());
}

#[test]
fn unknown_containers_are_left_alone() {
    let mut target = Target::new();
    target.pods.insert("u1".to_string(), pod_config("p", "u1", &["c"]));
    let mut state = State::new();
    state.pods.insert(
        "u1".to_string(),
        pod_status("p1", &[("c", "x", CtrState::Unknown), ("d", "y", CtrState::Unknown)]),
    );
    let plan = diff(&target, &state);
    assert!(plan.pods.is_empty());
}

#[test]
fn extraneous_created_and_exited_containers_are_deleted() {
    let mut target = Target::new();
    target.pods.insert("u1".to_string(), pod_config("p", "u1", &[]));
    let mut state = State::new();
    state.pods.insert(
        "u1".to_string(),
        pod_status("p1", &[("a", "xa", CtrState::Created), ("b", "xb", CtrState::Exited)]),
    );
    let plan = diff(&target, &state);
    match plan.pods.get(&"u1".to_string()) {
        Some(PodStep::ChangePod(steps)) => {
            assert_eq!(steps.klen(), 2);
            assert!(matches!(
                steps.get(&"a".to_string()),
                Some(ContainerStep::DeleteCtr(id)) if id.as_str() == "xa"
            ));
            assert!(matches!(
                steps.get(&"b".to_string()),
                Some(ContainerStep::DeleteCtr(id)) if id.as_str() == "xb"
            ));
        }
        _ => panic!("expected ChangePod for u1"),
    }
}

#[test]
fn undesired_pod_with_only_stopped_containers_is_deleted() {
    let target = Target::new();
    let mut state = State::new();
    state
        .pods
        .insert("u3".to_string(), pod_status("p3", &[("c", "x", CtrState::Created)]));
    let plan = diff(&target, &state);
    match plan.pods.get(&"u3".to_string()) {
        Some(PodStep::DeletePod(id)) => assert_eq!(id.as_str(), "p3"),
        _ => panic!("expected DeletePod for u3"),
    }
}

#[test]
fn plan_mentions_only_known_uids() {
    let mut target = Target::new();
    target.pods.insert("u1".to_string(), pod_config("p", "u1", &[]));
    let mut state = State::new();
    state
        .pods
        .insert("u2".to_string(), pod_status("p2", &[("c", "x", CtrState::Running)]));
    let plan = diff(&target, &state);
    assert!(plan.pods.get(&"u1".to_string()).is_some());
    assert!(plan.pods.get(&"u2".to_string()).is_some());
    assert!(plan.pods.get(&"u3".to_string()).is_none());
    assert_eq!(plan.pods.klen(), 2);
}
