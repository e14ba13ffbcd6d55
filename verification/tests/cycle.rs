use pulsar_topic_health::cycle::{
    annotate_with_kube, apply_interval_drain, attach_second_sample, backlogs, change_countable,
    exit_code, problems, unhealthy_count, unhealthy_line,
};
use pulsar_topic_health::drain::Trend;
use pulsar_topic_health::health::{Status, TopicHealth};
use pulsar_topic_health::kube::{Discovery, KubeReport, PodMetrics};
use pulsar_topic_health::metrics::MetricsTracker;
use pulsar_topic_health::number::Double;
use pulsar_topic_health::session::{conclude, process_metrics, Session};
use pulsar_topic_health::state::{PriorState, StateKey};

fn health(topic: &str, status: Status, backlog: Option<i64>) -> TopicHealth {
    TopicHealth {
        topic: topic.to_string(),
        status,
        total_backlog: backlog,
        backlog_bytes: backlog,
        consumers: Some(1),
        unacked_messages: Some(0),
        msg_rate_out: Double { bits: 0 },
        min_headroom: None,
        trimmed_partitions: Vec::new(),
        at_edge_partitions: Vec::new(),
        hot_partitions: Vec::new(),
        partition_gaps: Vec::new(),
        partitions: Vec::new(),
        drain: None,
        state_since: None,
        kube_hint: None,
        error: None,
    }
}

#[test]
fn hints_only_on_topics_that_are_not_healthy() {
    let mut report = KubeReport::empty("ns");
    report.images = vec!["i:1".to_string(), "i:2".to_string()];
    let mut results =
        vec![health("a", Status::Healthy, Some(0)), health("b", Status::NoConsumers, Some(5))];
    annotate_with_kube(&mut results, &report);
    assert_eq!(results[0].kube_hint, None);
    assert_eq!(results[1].kube_hint.as_deref(), Some("kube: split rollout"));
}

#[test]
fn drain_between_cycles() {
    let mut results = vec![
        health("a", Status::Backlog, Some(7_000)),
        health("b", Status::Backlog, Some(10)),
        health("c", Status::Error, None),
    ];
    let previous = vec![("a".to_string(), 10_000), ("c".to_string(), 5)];
    apply_interval_drain(&mut results, &previous, Double { bits: 30.0f64.to_bits() });
    assert_eq!(results[0].drain.unwrap().trend, Trend::Draining);
    assert_eq!(results[0].drain.unwrap().delta, -3_000);
    assert!(results[1].drain.is_none());
    assert_eq!(
        backlogs(&results),
        vec![("a".to_string(), 7_000), ("b".to_string(), 10), ("c".to_string(), 0)]
    );
}

#[test]
fn drain_within_a_run() {
    let mut results =
        vec![health("a", Status::Backlog, Some(100)), health("b", Status::Backlog, Some(100))];
    attach_second_sample(&mut results, &vec![Some(200), None], 10);
    assert_eq!(results[0].drain.unwrap().trend, Trend::Growing);
    assert!(results[1].drain.is_none());
    assert!(change_countable(1, i64::MAX));
    assert!(!change_countable(-1, i64::MAX));
}

#[test]
fn problems_are_what_is_not_healthy() {
    let results = vec![
        health("a", Status::Healthy, Some(0)),
        health("b", Status::Trimmed, Some(0)),
        health("c", Status::Healthy, Some(0)),
        health("d", Status::Error, None),
    ];
    assert_eq!(unhealthy_count(&results), 2);
    let names: Vec<String> = problems(results).into_iter().map(|h| h.topic).collect();
    assert_eq!(names, vec!["b", "d"]);
}

#[test]
fn exit_codes() {
    let well = vec![health("a", Status::Healthy, Some(0))];
    let unwell = vec![health("a", Status::Backlog, Some(0))];
    assert_eq!(exit_code(&well, &None), 0);
    assert_eq!(exit_code(&unwell, &None), 2);
    assert_eq!(exit_code(&well, &Some(KubeReport::unreachable("ns", "x".to_string()))), 2);
    let mut report = KubeReport::empty("ns");
    report.discovery = Some(Discovery::Namespaces(Vec::new()));
    assert_eq!(exit_code(&unwell, &Some(report)), 3);
}

#[test]
fn unhealthy_topics_in_words() {
    assert_eq!(
        unhealthy_line(2, 5, "my-sub", 100),
        "2 of 5 topic(s) unhealthy (subscription: my-sub, threshold: 100)"
    );
}

#[test]
fn a_single_run_is_concluded() {
    let mut results =
        vec![health("a", Status::Backlog, Some(100)), health("b", Status::Healthy, Some(5))];
    let mut report = KubeReport::empty("ns");
    report.images = vec!["i:1".to_string(), "i:2".to_string()];
    let prior = vec![(
        "a".to_string(),
        PriorState { key: StateKey("backlog|growing".to_string()), since: "t0".to_string() },
    )];
    conclude(&mut results, &vec![Some(200), None], 10, &prior, "t1", &Some(report));
    // The trend is part of the state that is looked up.
    assert_eq!(results[0].drain.unwrap().trend, Trend::Growing);
    assert_eq!(results[0].state_since.as_deref(), Some("t0"));
    assert_eq!(results[0].kube_hint.as_deref(), Some("kube: split rollout"));
    assert!(results[1].drain.is_none());
    assert_eq!(results[1].state_since.as_deref(), Some("t1"));
    assert_eq!(results[1].kube_hint, None);
    // Without a window the second reading does not count.
    let mut results = vec![health("a", Status::Backlog, Some(100))];
    conclude(&mut results, &vec![Some(200)], 0, &Vec::new(), "t1", &None);
    assert!(results[0].drain.is_none());
}

#[test]
fn a_session_remembers_the_last_cycle() {
    let mut session = Session::new(Vec::new());
    let mut first = vec![health("a", Status::Backlog, Some(10_000))];
    session.complete(&mut first, None, "t1");
    assert!(first[0].drain.is_none());
    assert_eq!(first[0].state_since.as_deref(), Some("t1"));
    let window = Some(Double { bits: 30.0f64.to_bits() });
    let mut second = vec![health("a", Status::Backlog, Some(7_000))];
    session.complete(&mut second, window, "t2");
    assert_eq!(second[0].drain.unwrap().trend, Trend::Draining);
    assert_eq!(second[0].state_since.as_deref(), Some("t2"));
    let mut third = vec![health("a", Status::Backlog, Some(4_000))];
    session.complete(&mut third, window, "t3");
    assert_eq!(third[0].state_since.as_deref(), Some("t2"));
    assert_eq!(session.previous, vec![("a".to_string(), 4_000)]);
}

#[test]
fn metrics_of_all_pods_are_processed() {
    let mut report = KubeReport::empty("ns");
    let scrape = |pod: &str, lag: u32| PodMetrics {
        pod: pod.to_string(),
        metrics_text: format!("ssync_pulsar_consumer_lag {lag}\n"),
        health: Some("ok".to_string()),
    };
    let mut tracker = MetricsTracker::new(5, Vec::new());
    report.pod_metrics = vec![scrape("a", 10), scrape("b", 20)];
    process_metrics(&mut report, &mut tracker);
    report.pod_metrics = vec![scrape("a", 30), scrape("b", 20)];
    let lines = process_metrics(&mut report, &mut tracker);
    assert!(lines[0].starts_with("metrics[a]: "));
    assert!(lines[0].contains("consumer lag=30↑ ⚠"));
    assert!(lines[1].contains("consumer lag=20 "));
    assert_eq!(report.pod_metric_summaries.len(), 2);
    let first = &report.pod_metric_summaries[0];
    assert_eq!(first.pod, "a");
    assert_eq!(first.health.as_deref(), Some("ok"));
    assert!(first.lines.iter().any(|l| l.label == "consumer lag" && l.worsening));
}

#[test]
fn connections_that_flap_are_seen() {
    let number = |d: Double| f64::from_bits(d.bits);
    let scrape = |pod: &str, parts: u32, culls: u32, reconnects: u32| PodMetrics {
        pod: pod.to_string(),
        metrics_text: format!(
            "ssync_source_partitions_active {parts}\n\
             ssync_source_consumers_culled_total{{reason=\"idle_timeout\"}} {culls}\n\
             ssync_source_consumers_culled_total{{reason=\"shutdown\"}} 1000\n\
             ssync_source_idle_cull_threshold_seconds 30\n\
             ssync_pulsar_reconnections_total {reconnects}\n"
        ),
        health: None,
    };
    let mut report = KubeReport::empty("ns");
    let mut tracker = MetricsTracker::new(5, Vec::new());
    for (i, parts) in [90, 0, 90, 0].into_iter().enumerate() {
        let n = i as u32;
        report.pod_metrics = vec![scrape("b", parts, 2 * n, n), scrape("a", 90, 0, 20 * n)];
        process_metrics(&mut report, &mut tracker);
    }
    let lines = &report.pod_stability;
    assert_eq!(lines.len(), 2);
    assert_eq!(lines[0].pod, "b");
    assert_eq!(number(lines[0].active_parts), 0.0);
    assert_eq!(number(lines[0].active_parts_churn), 270.0);
    assert_eq!(number(lines[0].reconnect_rate), 1.0);
    assert_eq!(number(lines[0].idle_cull_rate), 2.0);
    assert_eq!(number(lines[0].idle_cull_threshold_secs), 30.0);
    assert_eq!(number(lines[0].throttle_transition_rate), 0.0);
    assert!(lines[0].flapping_rebalance && !lines[0].flapping_rate && lines[0].idle_cull_loop);
    assert_eq!(lines[1].pod, "a");
    assert_eq!(number(lines[1].active_parts), 90.0);
    assert_eq!(number(lines[1].active_parts_churn), 0.0);
    assert_eq!(number(lines[1].reconnect_rate), 20.0);
    assert!(lines[1].flapping_rate && !lines[1].flapping_rebalance && !lines[1].idle_cull_loop);
}
