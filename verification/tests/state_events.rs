use agent::state::{
    ContainerEvent, ContainerInfo, CtrState, EventCtrStatus, PodSandboxInfo, SandboxStatus, State,
    to_state,
};

fn creation_event(uid: &str, pod_id: &str) -> ContainerEvent {
    ContainerEvent {
        container_id: pod_id.to_string(),
        pod_sandbox_status: Some(SandboxStatus {
            id: pod_id.to_string(),
            uid: Some(uid.to_string()),
        }),
        containers_statuses: vec![],
    }
}

fn deletion_event(pod_id: &str) -> ContainerEvent {
    ContainerEvent {
        container_id: pod_id.to_string(),
        pod_sandbox_status: None,
        containers_statuses: vec![],
    }
}

fn ctr_event(uid: &str, pod_id: &str, ctrs: &[(&str, &str, i32)]) -> ContainerEvent {
    ContainerEvent {
        container_id: ctrs.first().map(|c| c.1.to_string()).unwrap_or_default(),
        pod_sandbox_status: Some(SandboxStatus {
            id: pod_id.to_string(),
            uid: Some(uid.to_string()),
        }),
        containers_statuses: ctrs
            .iter()
            .map(|(name, cid, st)| EventCtrStatus {
                id: cid.to_string(),
                name: Some(name.to_string()),
                state: *st,
            })
            .collect(),
    }
}

fn assert_pod(state: &State, uid: &str, pod_id: &str, ctrs: &[(&str, &str, CtrState)]) {
    let pod = state.pods.get(&uid.to_string()).expect("pod missing");
    assert_eq!(pod.id().as_str(), pod_id);
    assert_eq!(pod.ctrs().klen(), ctrs.len());
    for (name, cid, st) in ctrs {
        let c = pod.ctrs().get(&name.to_string()).expect("container missing");
        assert_eq!(c.id().as_str(), *cid);
        assert_eq!(c.state(), *st);
    }
}

#[test]
fn to_state_decodes_the_documented_range() {
    assert_eq!(to_state(0), Some(CtrState::Created));
    assert_eq!(to_state(1), Some(CtrState::Running));
    assert_eq!(to_state(2), Some(CtrState::Exited));
    assert_eq!(to_state(3), Some(CtrState::Unknown));
    assert_eq!(to_state(4), None);
    assert_eq!(to_state(-1), None);
}

#[test]
fn observe_pod_creation_and_deletion() {
    let mut state = State::new();
    state.observe(creation_event("u1", "p1"));
    assert_eq!(state.pods.klen(), 1);
    assert_pod(&state, "u1", "p1", &[]);

    state.observe(creation_event("u2", "p2"));
    assert_eq!(state.pods.klen(), 2);

    state.observe(deletion_event("p1"));
    assert_eq!(state.pods.klen(), 1);
    assert!(state.pods.get(&"u1".to_string()).is_none());
    assert_pod(&state, "u2", "p2", &[]);
}

#[test]
fn observe_replaces_the_whole_pod() {
    let mut state = State::new();
    state.observe(creation_event("u1", "p1"));
    state.observe(ctr_event("u1", "p1", &[("c", "x", 1), ("d", "y", 0)]));
    assert_pod(
        &state,
        "u1",
        "p1",
        &[("c", "x", CtrState::Running), ("d", "y", CtrState::Created)],
    );

    // The next message carries the whole pod; missing containers are gone.
    state.observe(ctr_event("u1", "p1", &[("c", "x", 2)]));
    assert_pod(&state, "u1", "p1", &[("c", "x", CtrState::Exited)]);
}

fn base_state() -> State {
    let mut s = State::new();
    s.observe(creation_event("u1", "p1"));
    s
}

#[test]
fn observe_creation_is_idempotent() {
    let mut once = base_state();
    once.observe(creation_event("u2", "p2"));
    let mut twice = base_state();
    twice.observe(creation_event("u2", "p2"));
    twice.observe(creation_event("u2", "p2"));
    assert_states_equal(&once, &twice);
}

#[test]
fn observe_container_event_is_idempotent() {
    let mut once = base_state();
    once.observe(ctr_event("u1", "p1", &[("c", "x", 1)]));
    let mut twice = base_state();
    twice.observe(ctr_event("u1", "p1", &[("c", "x", 1)]));
    twice.observe(ctr_event("u1", "p1", &[("c", "x", 1)]));
    assert_states_equal(&once, &twice);
}

#[test]
fn observe_deletion_is_idempotent() {
    let mut once = base_state();
    once.observe(deletion_event("p1"));
    let mut twice = base_state();
    twice.observe(deletion_event("p1"));
    twice.observe(deletion_event("p1"));
    assert_states_equal(&once, &twice);
}

fn assert_states_equal(a: &State, b: &State) {
    assert_eq!(a.pods.klen(), b.pods.klen());
    for i in 0..a.pods.klen() {
        let (uid, pod) = a.pods.entry_at(i);
        let other = b.pods.get(uid).expect("pod missing in second state");
        assert_eq!(pod.id(), other.id());
        assert_eq!(pod.ctrs().klen(), other.ctrs().klen());
        for j in 0..pod.ctrs().klen() {
            let (name, c) = pod.ctrs().entry_at(j);
            let oc = other.ctrs().get(name).expect("container missing");
            assert_eq!(c.id(), oc.id());
            assert_eq!(c.state(), oc.state());
        }
    }
}

#[test]
fn malformed_events_are_ignored() {
    let mut state = State::new();
    state.observe(creation_event("u1", "p1"));

    // Sandbox status without a uid: the event changes nothing.
    state.observe(ContainerEvent {
        container_id: "zz".to_string(),
        pod_sandbox_status: Some(SandboxStatus { id: "pz".to_string(), uid: None }),
        containers_statuses: vec![],
    });
    assert_eq!(state.pods.klen(), 1);
    assert_pod(&state, "u1", "p1", &[]);

    // A status without a name and one with an undecodable state are skipped.
    state.observe(ContainerEvent {
        container_id: "x".to_string(),
        pod_sandbox_status: Some(SandboxStatus {
            id: "p1".to_string(),
            uid: Some("u1".to_string()),
        }),
        containers_statuses: vec![
            EventCtrStatus { id: "x".to_string(), name: None, state: 1 },
            EventCtrStatus { id: "y".to_string(), name: Some("c".to_string()), state: 9 },
            EventCtrStatus { id: "z".to_string(), name: Some("d".to_string()), state: 1 },
        ],
    });
    assert_pod(&state, "u1", "p1", &[("d", "z", CtrState::Running)]);
}

#[test]
fn ingest_rebuilds_and_attaches_by_sandbox_id() {
    let mut state = State::new();
    state.observe(creation_event("old", "gone"));

    let pods = vec![
        PodSandboxInfo { id: "p1".to_string(), uid: Some("u1".to_string()) },
        PodSandboxInfo { id: "p2".to_string(), uid: Some("u2".to_string()) },
        PodSandboxInfo { id: "p3".to_string(), uid: None },
    ];
    let containers = vec![
        ContainerInfo {
            id: "x".to_string(),
            pod_sandbox_id: "p1".to_string(),
            name: Some("c".to_string()),
            state: 1,
        },
        ContainerInfo {
            id: "y".to_string(),
            pod_sandbox_id: "p2".to_string(),
            name: Some("c".to_string()),
            state: 2,
        },
        // Dangling sandbox id: dropped.
        ContainerInfo {
            id: "zz".to_string(),
            pod_sandbox_id: "nowhere".to_string(),
            name: Some("c".to_string()),
            state: 1,
        },
        // Missing name label: dropped.
        ContainerInfo {
            id: "w".to_string(),
            pod_sandbox_id: "p1".to_string(),
            name: None,
            state: 1,
        },
        // Undecodable state: dropped.
        ContainerInfo {
            id: "v".to_string(),
            pod_sandbox_id: "p1".to_string(),
            name: Some("e".to_string()),
            state: 7,
        },
    ];
    state.ingest(containers, pods);

    // The old contents are gone; containers sit under the pod whose id
    // matches their sandbox id.
    assert_eq!(state.pods.klen(), 2);
    assert_pod(&state, "u1", "p1", &[("c", "x", CtrState::Running)]);
    assert_pod(&state, "u2", "p2", &[("c", "y", CtrState::Exited)]);
}

#[test]
fn deletion_removes_every_pod_with_the_event_id() {
    let mut state = State::new();
    state.observe(creation_event("u1", "p1"));
    // A second uid observed under the same sandbox id.
    state.observe(ctr_event("u2", "p1", &[("c", "x", 1)]));
    state.observe(creation_event("u3", "p3"));
    assert_eq!(state.pods.klen(), 3);

    state.observe(deletion_event("p1"));
    assert_eq!(state.pods.klen(), 1);
    assert_pod(&state, "u3", "p3", &[]);
}
