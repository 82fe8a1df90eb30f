use agent::config::{PodConfig, SandBoxConfig, Target};
use agent::control::{LoopInput, control_step};
use agent::plan::PodStep;
use agent::state::{
    ContainerEvent, ContainerInfo, CtrState, PodSandboxInfo, SandboxStatus, State,
};
use agent::strmap::StrMap;
use agent::tasks::{AttemptOutcome, RestartPolicy, SupervisorStep, attempt_max, supervise_decide};

#[test]
fn attempt_budget_by_policy() {
    assert_eq!(attempt_max(RestartPolicy::Always), u64::MAX);
    assert_eq!(attempt_max(RestartPolicy::MaxAttempts(5)), 5);
    assert_eq!(attempt_max(RestartPolicy::Never), 1);
}

#[test]
fn supervisor_stops_on_success() {
    let (step, attempts) = supervise_decide(AttemptOutcome::Success, 3, 10);
    assert_eq!(step, SupervisorStep::Stop);
    assert_eq!(attempts, 3);
}

#[test]
fn supervisor_retries_until_the_budget_is_spent() {
    let (step, attempts) = supervise_decide(AttemptOutcome::Failure, 0, 2);
    assert_eq!(step, SupervisorStep::Retry);
    assert_eq!(attempts, 1);
    let (step, attempts) = supervise_decide(AttemptOutcome::Failure, 1, 2);
    assert_eq!(step, SupervisorStep::Stop);
    assert_eq!(attempts, 2);
    // A policy of a single attempt stops at the first failure.
    let (step, _) = supervise_decide(AttemptOutcome::Failure, 0, 1);
    assert_eq!(step, SupervisorStep::Stop);
}

fn pod_config(name: &str, uid: &str) -> PodConfig {
    PodConfig {
        config: SandBoxConfig {
            name: name.to_string(),
            uid: uid.to_string(),
            resources: None,
            namespace: "default".to_string(),
        },
        containers: StrMap::new(),
    }
}

#[test]
fn control_step_skips_empty_event_batches() {
    let mut state = State::new();
    let mut target = Target::new();
    let plan = control_step(&mut state, &mut target, LoopInput::Events(vec![]));
    assert!(plan.is_none());
    assert_eq!(state.pods.klen(), 0);
}

#[test]
fn control_step_takes_a_new_target_and_plans() {
    let mut state = State::new();
    let mut target = Target::new();
    let mut fresh = Target::new();
    fresh.pods.insert("u1".to_string(), pod_config("p", "u1"));
    let plan = control_step(&mut state, &mut target, LoopInput::NewTarget(fresh));
    let plan = plan.expect("a new target must be planned for");
    assert!(matches!(
        plan.pods.get(&"u1".to_string()),
        Some(PodStep::CreatePod(cfg)) if cfg.name == "p"
    ));
    assert!(target.pods.get(&"u1".to_string()).is_some());
}

#[test]
fn control_step_applies_events_in_batch_order() {
    let mut state = State::new();
    let mut target = Target::new();
    let creation = ContainerEvent {
        container_id: "p1".to_string(),
        pod_sandbox_status: Some(SandboxStatus {
            id: "p1".to_string(),
            uid: Some("u1".to_string()),
        }),
        containers_statuses: vec![],
    };
    let deletion = ContainerEvent {
        container_id: "p1".to_string(),
        pod_sandbox_status: None,
        containers_statuses: vec![],
    };
    let plan = control_step(&mut state, &mut target, LoopInput::Events(vec![creation, deletion]));
    assert!(plan.is_some());
    // Creation then deletion leaves no pod behind.
    assert_eq!(state.pods.klen(), 0);
}

#[test]
fn control_step_refresh_replaces_the_state() {
    let mut state = State::new();
    let mut target = Target::new();
    let pods = vec![PodSandboxInfo { id: "p1".to_string(), uid: Some("u1".to_string()) }];
    let containers = vec![ContainerInfo {
        id: "x".to_string(),
        pod_sandbox_id: "p1".to_string(),
        name: Some("c".to_string()),
        state: 1,
    }];
    let plan = control_step(&mut state, &mut target, LoopInput::Refresh(containers, pods));
    let plan = plan.expect("a refresh must be planned for");
    // The undesired pod's running container is stopped.
    assert!(plan.pods.get(&"u1".to_string()).is_some());
    let pod = state.pods.get(&"u1".to_string()).expect("pod missing");
    assert_eq!(pod.id().as_str(), "p1");
    let c = pod.ctrs().get(&"c".to_string()).expect("container missing");
    assert_eq!(c.state(), CtrState::Running);
}
