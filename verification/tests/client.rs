use pulsar_topic_health::kube::actions::{
    cordon_outcome, deletion, drain_outcomes, eviction_targets, is_daemonset_pod, listing_failure,
    pod_ready, summarize_outcomes, ActionOutcome, Eviction, NodePod, Roll, RollStep,
};
use pulsar_topic_health::kube::assembly::{
    assemble, facts_countable, ClusterFacts, LogText, Usage,
};
use pulsar_topic_health::kube::client::{
    age_secs_from, config_outcomes, config_to_read, discover, event_countable, interesting_event,
    kube_event, mark_pods, node_info, pod_countable, pod_summary, recent_events, report_on,
    usage_countable, with_usage, ContainerFacts, ContainerSpec, EventFacts, KubeQuery, NodeFacts,
    PodFacts,
};
use pulsar_topic_health::kube::Discovery;

fn some(s: &str) -> Option<String> {
    Some(s.to_string())
}

fn container(image: &str, cpu: Option<&str>, mem: Option<&str>) -> ContainerSpec {
    ContainerSpec {
        image: some(image),
        cpu_request: cpu.map(String::from),
        cpu_limit: cpu.map(String::from),
        mem_request: None,
        mem_limit: mem.map(String::from),
    }
}

fn facts() -> PodFacts {
    PodFacts {
        name: some("pod-1"),
        created: Some(1_000),
        containers: vec![
            container("img:1", Some("250m"), Some("1Gi")),
            container("side:9", Some("1"), None),
        ],
        statuses: vec![
            ContainerFacts {
                ready: true,
                restart_count: 2,
                waiting_reason: None,
                terminated_reason: some("OOMKilled"),
            },
            ContainerFacts {
                ready: false,
                restart_count: 1,
                waiting_reason: some("CrashLoopBackOff"),
                terminated_reason: None,
            },
        ],
        phase: some("Running"),
        node: some("n1"),
    }
}

#[test]
fn pods_are_summed_up() {
    let f = facts();
    assert!(pod_countable(&f, 1_060));
    let p = pod_summary(&f, 1_060);
    assert_eq!(p.name, "pod-1");
    assert_eq!((p.ready, p.total_containers, p.restarts), (1, 2, 3));
    assert_eq!(p.age_secs, Some(60));
    assert_eq!(p.image.as_deref(), Some("img:1"));
    assert!(p.oom_killed);
    assert_eq!(p.node.as_deref(), Some("n1"));
    assert_eq!(p.cpu_request_milli, Some(1250));
    assert_eq!(p.mem_limit_bytes, Some(1 << 30));
    assert_eq!(p.mem_request_bytes, None);
    assert_eq!(age_secs_from(5, 9), 0);
    assert_eq!(age_secs_from(9, 5), 4);
}

#[test]
fn restarts_past_the_largest_integer_are_announced() {
    let mut f = facts();
    f.statuses[0].restart_count = i32::MAX;
    assert!(!pod_countable(&f, 1_060));
}

#[test]
fn usage_is_added_up() {
    let p = pod_summary(&facts(), 1_060);
    let cpu = vec![some("100m"), some("50m")];
    let mem = vec![some("10Mi"), None];
    assert!(usage_countable(&cpu, &mem));
    let p = with_usage(p, &cpu, &mem);
    assert_eq!(p.cpu_used_milli, Some(150));
    assert_eq!(p.mem_used_bytes, Some(10 << 20));
}

#[test]
fn pods_are_marked_by_name() {
    let p = pod_summary(&facts(), 1_060);
    let marked = mark_pods(vec![p], &vec!["pod-1".to_string()], &vec!["other".to_string()]);
    assert!(marked[0].transform_error);
    assert!(!marked[0].memory_pressure);
}

#[test]
fn nodes_are_read() {
    let n = node_info(&NodeFacts {
        name: "n1".to_string(),
        cpu: some("3920m"),
        memory: some("bad"),
        instance_type: some("m5"),
    });
    assert_eq!(n.alloc_cpu_milli, Some(3920));
    assert_eq!(n.alloc_mem_bytes, None);
    assert_eq!(n.instance_type.as_deref(), Some("m5"));
}

#[test]
fn events_of_interest_are_kept() {
    let event = |reason: Option<&str>, seen: Option<i64>| EventFacts {
        reason: reason.map(String::from),
        message: some("m"),
        involved: some("p"),
        last_seen: seen,
        event_time: Some(0),
    };
    let list = vec![
        event(Some("BackOff"), Some(900)),
        event(Some("Scheduled"), Some(990)),
        event(Some("OOMKilling"), None),
        event(None, Some(990)),
        event(Some("Evicted"), Some(500)),
    ];
    assert!(list.iter().all(|e| event_countable(e, 1_000)));
    let kept = recent_events(&list, 1_000, 500);
    let reasons: Vec<&str> = kept.iter().map(|e| e.reason.as_str()).collect();
    assert_eq!(reasons, vec!["BackOff", "Evicted"]);
    assert_eq!(kept[0].age_secs, Some(100));
    assert!(kube_event(&list[3], 1_000).is_none());
    assert!(interesting_event("Unhealthy"));
    assert!(!interesting_event("Pulled"));
}

#[test]
fn configuration_is_read_only_where_something_is_expected() {
    let mut q = KubeQuery {
        namespace: "ns".to_string(),
        selector: "app=x".to_string(),
        configmap: some("cm"),
        expected_config: Vec::new(),
        log_tail: None,
        event_window_secs: 1800,
        metrics_port: None,
    };
    assert!(config_to_read(&q).is_none());
    q.expected_config = vec![("a".to_string(), "1".to_string())];
    assert_eq!(config_to_read(&q).map(|s| s.as_str()), Some("cm"));
    let missing = config_outcomes(&None, &q.expected_config);
    assert!(!missing[0].pass && missing[0].actual.is_none());
    let found = config_outcomes(&some("a = 1\n"), &q.expected_config);
    assert!(found[0].pass);
}

#[test]
fn what_could_have_been_selected() {
    let names = vec!["x".to_string(), "y".to_string()];
    assert!(matches!(discover("z", names.clone(), &Vec::new()), Discovery::Namespaces(_)));
    let labels = vec![vec![("app".to_string(), "a".to_string())]];
    match discover("x", names, &labels) {
        Discovery::Labels { namespace, suggestion, .. } => {
            assert_eq!(namespace, "x");
            assert_eq!(suggestion.as_deref(), Some("app=a"));
        }
        _ => panic!("the namespace is there"),
    }
}

#[test]
fn reports_tell_images_and_skew() {
    let mut later = facts();
    later.created = Some(1_030);
    later.containers[0].image = some("img:2");
    let pods = vec![pod_summary(&facts(), 1_060), pod_summary(&later, 1_060)];
    let r = report_on("ns", pods);
    assert_eq!(r.images, vec!["img:1", "img:2"]);
    assert_eq!(r.rollout_skew_secs, Some(30));
    assert_eq!(r.namespace, "ns");
}

fn cluster() -> ClusterFacts {
    ClusterFacts {
        now: 1_060,
        pods: vec![facts()],
        usage: vec![Some(Usage { cpu: vec![some("100m")], memory: vec![some("1Mi")] })],
        logs: vec![LogText {
            pod: "pod-1".to_string(),
            text: "capturing dropped rows to DLQ\nall good\n".to_string(),
        }],
        nodes: vec![
            NodeFacts { name: "n1".to_string(), cpu: some("2"), memory: None, instance_type: None },
            NodeFacts { name: "n2".to_string(), cpu: some("2"), memory: None, instance_type: None },
        ],
        events: Vec::new(),
        config: Some(None),
        metrics: Vec::new(),
        namespaces: vec!["ns".to_string()],
        labels: vec![vec![("app".to_string(), "a".to_string())]],
    }
}

fn query() -> KubeQuery {
    KubeQuery {
        namespace: "ns".to_string(),
        selector: "app=x".to_string(),
        configmap: some("cm"),
        expected_config: vec![("a".to_string(), "1".to_string())],
        log_tail: Some(10),
        event_window_secs: 1800,
        metrics_port: None,
    }
}

#[test]
fn a_report_is_put_together() {
    let facts = cluster();
    assert!(facts_countable(&facts));
    let r = assemble(&query(), facts);
    assert_eq!(r.namespace, "ns");
    assert!(r.error.is_none() && r.discovery.is_none());
    assert_eq!(r.pods[0].cpu_used_milli, Some(100));
    assert!(r.pods[0].transform_error && !r.pods[0].memory_pressure);
    // Only the node that the pod runs on.
    assert_eq!(r.nodes.len(), 1);
    assert_eq!(r.nodes[0].name, "n1");
    assert!(!r.config_assertions[0].pass);
    assert_eq!(r.pod_logs[0].lines.len(), 2);
    assert_eq!(r.log_stats.unwrap().total, 2);
}

#[test]
fn a_report_without_pods_tells_what_to_select() {
    let mut facts = cluster();
    facts.pods.clear();
    facts.usage.clear();
    let mut q = query();
    q.log_tail = None;
    let r = assemble(&q, facts);
    assert!(r.pods.is_empty() && r.nodes.is_empty() && r.log_stats.is_none());
    match r.discovery {
        Some(Discovery::Labels { suggestion, .. }) => {
            assert_eq!(suggestion.as_deref(), Some("app=a"))
        }
        _ => panic!("the namespace is there"),
    }
    let mut facts = cluster();
    facts.usage.clear();
    assert!(!facts_countable(&facts));
}

#[test]
fn a_collapse_is_judged_by_the_pods_own_log() {
    let collapse = |logs: &[(&str, &[u32])]| {
        let mut facts = cluster();
        facts.logs = logs
            .iter()
            .map(|(pod, readings)| LogText {
                pod: pod.to_string(),
                text: readings
                    .iter()
                    .map(|n| format!("{{\"fields\":{{\"throughput_rps\":{n}}}}}\n"))
                    .collect(),
            })
            .collect();
        assemble(&query(), facts).log_stats.unwrap().throughput_collapsed
    };
    // A busy pod in front of one that has been idle since its start.
    assert!(!collapse(&[("a", &[50, 40]), ("b", &[0, 0])]));
    // A collapsed pod in front of a busy one.
    assert!(collapse(&[("a", &[50, 0]), ("b", &[30, 40])]));
}

// ── Actions ──────────────────────────────────────────────────────────────────

#[test]
fn a_roll_goes_one_pod_at_a_time() {
    let mut roll = Roll::start(vec!["a".to_string(), "b".to_string()], "app=x");
    match roll.next_step() {
        RollStep::Delete(pod) => assert_eq!(pod, "a"),
        _ => panic!("the first pod is deleted first"),
    }
    roll.deleted(None);
    assert!(matches!(roll.next_step(), RollStep::Count));
    roll.counted(1, false);
    assert!(matches!(roll.next_step(), RollStep::Count));
    roll.counted(2, false);
    match roll.next_step() {
        RollStep::Delete(pod) => assert_eq!(pod, "b"),
        _ => panic!("the second pod follows"),
    }
    roll.deleted(None);
    roll.counted(3, true);
    assert!(matches!(roll.next_step(), RollStep::Finish));
    let out = roll.outcomes();
    assert_eq!(out.len(), 2);
    assert_eq!(out[1].message(), "recycled b (2/2)");
    assert!(out.iter().all(|o| o.is_ok()));
}

#[test]
fn a_roll_stops_on_the_first_failure() {
    let names = || vec!["a".to_string(), "b".to_string()];
    let mut roll = Roll::start(names(), "s");
    roll.deleted(some("denied"));
    assert!(matches!(roll.next_step(), RollStep::Finish));
    assert_eq!(summarize_outcomes(&roll.outcomes()), "delete a: denied");

    let mut roll = Roll::start(names(), "s");
    roll.deleted(None);
    roll.counted(1, true);
    assert!(matches!(roll.next_step(), RollStep::Finish));
    assert_eq!(
        summarize_outcomes(&roll.outcomes()),
        "after a: timed out waiting for 2 ready (saw 1) — stopping roll"
    );

    let mut roll = Roll::start(names(), "s");
    roll.deleted(None);
    roll.count_failed("gone");
    assert_eq!(
        summarize_outcomes(&roll.outcomes()),
        "after a: list while waiting: gone — stopping roll"
    );

    let roll = Roll::start(Vec::new(), "s");
    assert!(matches!(roll.next_step(), RollStep::Finish));
    assert_eq!(summarize_outcomes(&roll.outcomes()), "no pods match selector s");
}

#[test]
fn daemon_sets_keep_their_pods() {
    let pod = |name: Option<&str>, kind: &str| NodePod {
        namespace: some("ns"),
        name: name.map(String::from),
        owner_kinds: vec![kind.to_string()],
    };
    let pods = vec![pod(Some("a"), "ReplicaSet"), pod(Some("b"), "DaemonSet"), pod(None, "Job")];
    assert!(is_daemonset_pod(&pods[1]));
    assert_eq!(eviction_targets(&pods), vec![("ns".to_string(), "a".to_string())]);
}

#[test]
fn outcomes_in_words() {
    assert_eq!(deletion("p", &None).message(), "deleted pod p");
    assert_eq!(deletion("p", &some("no")).message(), "delete p: no");
    assert!(!deletion("p", &some("no")).is_ok());
    assert_eq!(cordon_outcome("n", &None).message(), "cordoned n");
    assert_eq!(cordon_outcome("n", &some("no")).message(), "cordon n: no");
    assert_eq!(listing_failure("n", "no").message(), "list pods on n: no");
    let list = vec![
        Eviction { namespace: "ns".to_string(), name: "a".to_string(), error: None },
        Eviction { namespace: "ns".to_string(), name: "b".to_string(), error: some("busy") },
    ];
    let out = drain_outcomes("n", &list);
    assert_eq!(out[0].message(), "evict ns/b: busy");
    assert_eq!(out[1].message(), "drained n: evicted 1 pods");
    assert_eq!(summarize_outcomes(&Vec::new()), "no-op");
    let done = vec![ActionOutcome::Done("x".to_string()), ActionOutcome::Done("y".to_string())];
    assert_eq!(summarize_outcomes(&done), "y");
}

#[test]
fn ready_pods() {
    let c = |t: &str, s: &str| vec![(t.to_string(), s.to_string())];
    assert!(pod_ready(&c("Ready", "True")));
    assert!(!pod_ready(&c("Ready", "False")));
    assert!(!pod_ready(&c("Initialized", "True")));
}
