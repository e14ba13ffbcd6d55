use pulsar_topic_health::health::TopicHealth;
use pulsar_topic_health::keys::{confirmation, handle_key, key_facts, Key, KeyFacts, Response};
use pulsar_topic_health::kube::{KubeReport, NodeInfo, PodLogs, PodSummary};
use pulsar_topic_health::view::{KubeFocus, PendingAction, View, ViewState};

fn facts(allow_actions: bool) -> KeyFacts {
    KeyFacts {
        pods: vec!["p0".to_string(), "p1".to_string()],
        pod_nodes: vec![Some("n0".to_string()), None],
        nodes: vec!["n0".to_string()],
        log_len: 3,
        namespace: "ns".to_string(),
        selector: "app=x".to_string(),
        allow_actions,
    }
}

fn press(state: &mut ViewState, c: char, facts: &KeyFacts) -> Response {
    handle_key(state, Key::Char { c, ctrl: false }, facts, &no_topics())
}

fn no_topics() -> Vec<TopicHealth> {
    Vec::new()
}

fn at(view: View) -> ViewState {
    ViewState { view, ..Default::default() }
}

#[test]
fn actions_need_the_configuration() {
    for c in ['d', 'R', 'D'] {
        let mut state = at(View::Kube);
        press(&mut state, c, &facts(false));
        assert!(state.pending.is_none());
        press(&mut state, c, &facts(true));
        assert!(state.pending.is_some());
    }
}

#[test]
fn actions_need_a_confirmation() {
    let mut state = at(View::Kube);
    assert!(matches!(press(&mut state, 'd', &facts(true)), Response::Nothing));
    match press(&mut state, 'y', &facts(true)) {
        Response::Run(PendingAction::DeletePod { namespace, pod }) => {
            assert_eq!(namespace, "ns");
            assert_eq!(pod, "p0");
        }
        _ => panic!("the pod is to be deleted"),
    }
    assert!(state.pending.is_none());
    // Any other key calls it off, and does nothing else.
    press(&mut state, 'R', &facts(true));
    assert!(matches!(press(&mut state, 'q', &facts(true)), Response::Nothing));
    assert!(state.pending.is_none());
    assert!(matches!(press(&mut state, 'y', &facts(true)), Response::Nothing));
}

#[test]
fn draining_needs_a_known_node() {
    let mut state = at(View::Kube);
    press(&mut state, 'D', &facts(true));
    match &state.pending {
        Some(PendingAction::CordonDrainNode { node }) => assert_eq!(node, "n0"),
        _ => panic!("the node of the first pod"),
    }
    let mut state = at(View::Kube);
    state.cursor = 1;
    press(&mut state, 'D', &facts(true));
    assert!(state.pending.is_none());
}

#[test]
fn actions_are_only_where_pods_are() {
    for view in [View::Topic, View::Partition, View::Combined, View::NodeDetail, View::Metrics] {
        for c in ['d', 'R', 'D'] {
            let mut state = at(view);
            press(&mut state, c, &facts(true));
            assert!(state.pending.is_none());
        }
    }
}

#[test]
fn moving_and_opening() {
    let mut state = at(View::Kube);
    press(&mut state, 'j', &facts(false));
    press(&mut state, 'j', &facts(false));
    assert_eq!(state.cursor, 1);
    handle_key(&mut state, Key::Enter, &facts(false), &no_topics());
    assert_eq!(state.view, View::PodDetail);
    assert_eq!(state.selected_pod.as_deref(), Some("p1"));
    handle_key(&mut state, Key::Down, &facts(false), &no_topics());
    assert_eq!(state.log_cursor, 1);
    handle_key(&mut state, Key::Enter, &facts(false), &no_topics());
    assert!(state.log_expanded);
    handle_key(&mut state, Key::Esc, &facts(false), &no_topics());
    assert_eq!(state.view, View::PodDetail);
    handle_key(&mut state, Key::Esc, &facts(false), &no_topics());
    assert_eq!(state.view, View::Kube);
    handle_key(&mut state, Key::Tab, &facts(false), &no_topics());
    assert_eq!(state.kube_focus, KubeFocus::Nodes);
    handle_key(&mut state, Key::Enter, &facts(false), &no_topics());
    assert_eq!(state.view, View::NodeDetail);
}

#[test]
fn metrics_scroll_and_follow_on() {
    let mut state = at(View::Kube);
    press(&mut state, 'm', &facts(false));
    assert_eq!(state.view, View::Kube);
    let mut state = at(View::Metrics);
    handle_key(&mut state, Key::PageDown, &facts(false), &no_topics());
    press(&mut state, 'k', &facts(false));
    assert_eq!(state.metrics_scroll, 9);
    handle_key(&mut state, Key::PageUp, &facts(false), &no_topics());
    assert_eq!(state.metrics_scroll, 0);
    press(&mut state, 'v', &facts(false));
    assert_eq!(state.view, View::Stability);
}

#[test]
fn leaving_and_refreshing() {
    let mut state = ViewState::default();
    assert!(matches!(press(&mut state, 'q', &facts(false)), Response::Quit));
    assert!(matches!(press(&mut state, 'c', &facts(false)), Response::Nothing));
    let key = Key::Char { c: 'c', ctrl: true };
    assert!(matches!(handle_key(&mut state, key, &facts(false), &no_topics()), Response::Quit));
    assert!(matches!(press(&mut state, 'r', &facts(false)), Response::Refresh));
    press(&mut state, '?', &facts(false));
    assert!(state.show_help);
}

#[test]
fn facts_are_read_off_the_report() {
    let mut report = KubeReport::empty("ns");
    report.pods = vec![PodSummary {
        name: "p".to_string(),
        ready: 1,
        total_containers: 1,
        restarts: 0,
        age_secs: None,
        image: None,
        reason: None,
        oom_killed: false,
        transform_error: false,
        memory_pressure: false,
        node: Some("n".to_string()),
        cpu_used_milli: None,
        mem_used_bytes: None,
        cpu_request_milli: None,
        cpu_limit_milli: None,
        mem_request_bytes: None,
        mem_limit_bytes: None,
    }];
    report.nodes = vec![NodeInfo {
        name: "n".to_string(),
        alloc_cpu_milli: None,
        alloc_mem_bytes: None,
        instance_type: None,
    }];
    report.pod_logs =
        vec![PodLogs { pod: "p".to_string(), lines: vec!["a".to_string(), "b".to_string()] }];
    let state = ViewState {
        view: View::PodDetail,
        selected_pod: Some("p".to_string()),
        ..Default::default()
    };
    let f = key_facts(&state, &Some(report), "app=x", true);
    assert_eq!(f.pods, vec!["p"]);
    assert_eq!(f.pod_nodes, vec![Some("n".to_string())]);
    assert_eq!(f.nodes, vec!["n"]);
    assert_eq!(f.log_len, 2);
    assert_eq!(f.namespace, "ns");
    assert!(f.allow_actions);
    let f = key_facts(&state, &None, "app=x", true);
    assert!(f.pods.is_empty() && f.nodes.is_empty());
    assert_eq!(f.log_len, 0);
}

#[test]
fn confirmations_name_the_target() {
    let a = PendingAction::DeletePod { namespace: "ns".to_string(), pod: "p".to_string() };
    assert_eq!(
        confirmation(&a),
        "delete pod p in namespace ns? y=confirm, any other key cancels"
    );
    let a = PendingAction::RecycleAll { namespace: "ns".to_string(), selector: "s".to_string() };
    assert!(confirmation(&a).contains("one at a time"));
    let a = PendingAction::CordonDrainNode { node: "n".to_string() };
    assert!(confirmation(&a).starts_with("cordon and drain node n"));
}
