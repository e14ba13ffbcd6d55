use pulsar_topic_health::drain::{DrainStats, Trend};
use pulsar_topic_health::health::{Status, TopicHealth};
use pulsar_topic_health::number::Double;
use pulsar_topic_health::state::{
    assign_state_since, format_duration_between, format_secs, hide_first_starts, prior_from_results,
    prior_from_snapshot, serialized_status, PriorState, SnapshotTopic, StateKey,
};

fn health(topic: &str, status: Status, trend: Option<Trend>) -> TopicHealth {
    TopicHealth {
        topic: topic.to_string(),
        status,
        total_backlog: Some(0),
        backlog_bytes: Some(0),
        consumers: Some(1),
        unacked_messages: Some(0),
        msg_rate_out: Double { bits: 0 },
        min_headroom: None,
        trimmed_partitions: Vec::new(),
        at_edge_partitions: Vec::new(),
        hot_partitions: Vec::new(),
        partition_gaps: Vec::new(),
        partitions: Vec::new(),
        drain: trend.map(|t| DrainStats {
            trend: t,
            delta: 0,
            net_per_sec: Double { bits: 0 },
            eta_secs: None,
        }),
        state_since: None,
        kube_hint: None,
        error: None,
    }
}

fn entry<'a>(prior: &'a Vec<(String, PriorState)>, topic: &str) -> &'a PriorState {
    &prior.iter().find(|p| p.0 == topic).unwrap().1
}

#[test]
fn state_key_includes_trend() {
    let a = StateKey::of(&health("t", Status::Backlog, Some(Trend::Growing)));
    let b = StateKey::of(&health("t", Status::Backlog, Some(Trend::Draining)));
    let c = StateKey::of(&health("t", Status::Backlog, Some(Trend::Growing)));
    assert_ne!(a, b, "growing vs draining are different states");
    assert_eq!(a, c);
}

#[test]
fn unchanged_state_inherits_since() {
    let mut results = vec![health("t", Status::Backlog, Some(Trend::Growing))];
    let prior = vec![(
        "t".to_string(),
        PriorState {
            key: StateKey::of(&results[0]),
            since: "2026-07-30T10:00:00Z".to_string(),
        },
    )];
    assign_state_since(&mut results, &prior, "2026-07-30T12:00:00Z");
    assert_eq!(results[0].state_since.as_deref(), Some("2026-07-30T10:00:00Z"));
}

#[test]
fn changed_state_resets_since_to_now() {
    let mut results = vec![health("t", Status::Backlog, Some(Trend::Draining))];
    let prior = vec![(
        "t".to_string(),
        PriorState {
            // Was growing, now draining — a state change.
            key: StateKey::of(&health("t", Status::Backlog, Some(Trend::Growing))),
            since: "2026-07-30T10:00:00Z".to_string(),
        },
    )];
    assign_state_since(&mut results, &prior, "2026-07-30T12:00:00Z");
    assert_eq!(results[0].state_since.as_deref(), Some("2026-07-30T12:00:00Z"));
}

#[test]
fn no_prior_sets_since_to_now() {
    let mut results = vec![health("t", Status::Healthy, None)];
    assign_state_since(&mut results, &Vec::new(), "2026-07-30T12:00:00Z");
    assert_eq!(results[0].state_since.as_deref(), Some("2026-07-30T12:00:00Z"));
}

#[test]
fn reads_prior_from_snapshot_json() {
    let topics = vec![
        SnapshotTopic {
            topic: "a".to_string(),
            status: Some("backlog".to_string()),
            trend: Some("growing".to_string()),
            state_since: Some("2026-07-30T09:00:00Z".to_string()),
        },
        SnapshotTopic {
            topic: "b".to_string(),
            status: Some("ok".to_string()),
            trend: None,
            state_since: Some("2026-07-30T08:00:00Z".to_string()),
        },
    ];
    let prior = prior_from_snapshot(&topics);
    assert_eq!(entry(&prior, "a").key, StateKey("backlog|growing".to_string()));
    assert_eq!(entry(&prior, "a").since, "2026-07-30T09:00:00Z");
    assert_eq!(entry(&prior, "b").key, StateKey("ok".to_string()));
}

#[test]
fn duration_formatting() {
    assert_eq!(
        format_duration_between("2026-07-30T12:00:00Z", "2026-07-30T12:00:45Z").as_deref(),
        Some("45s")
    );
    assert_eq!(
        format_duration_between("2026-07-30T12:00:00Z", "2026-07-30T12:15:00Z").as_deref(),
        Some("15m")
    );
    assert_eq!(
        format_duration_between("2026-07-30T10:00:00Z", "2026-07-30T12:00:00Z").as_deref(),
        Some("2h")
    );
    assert_eq!(
        format_duration_between("2026-07-28T12:00:00Z", "2026-07-30T12:00:00Z").as_deref(),
        Some("2d")
    );
    // since after now → None
    assert!(format_duration_between("2026-07-30T13:00:00Z", "2026-07-30T12:00:00Z").is_none());
}

// ── Further cases ────────────────────────────────────────────────────────────

#[test]
fn later_entries_of_a_snapshot_win() {
    let topic = |status: Option<&str>, since: Option<&str>| SnapshotTopic {
        topic: "a".to_string(),
        status: status.map(String::from),
        trend: None,
        state_since: since.map(String::from),
    };
    let prior = prior_from_snapshot(&vec![
        topic(Some("ok"), Some("x")),
        topic(Some("backlog"), None),
        topic(None, Some("y")),
    ]);
    assert_eq!(prior.len(), 1);
    assert_eq!(entry(&prior, "a").key, StateKey("backlog".to_string()));
    assert_eq!(entry(&prior, "a").since, "");
    // An unknown start is no start to inherit.
    let mut results = vec![health("a", Status::Backlog, None)];
    assign_state_since(&mut results, &prior, "now");
    assert_eq!(results[0].state_since.as_deref(), Some("now"));
}

#[test]
fn a_state_that_lasts_keeps_its_start() {
    let mut results = vec![health("a", Status::Trimmed, Some(Trend::Stable))];
    assign_state_since(&mut results, &Vec::new(), "t0");
    for now in ["t1", "t2", "t3"] {
        let prior = prior_from_results(&results);
        assign_state_since(&mut results, &prior, now);
        assert_eq!(results[0].state_since.as_deref(), Some("t0"));
    }
}

#[test]
fn a_snapshot_tells_what_the_results_told() {
    let mut results = vec![health("a", Status::NoConsumers, Some(Trend::Empty))];
    assign_state_since(&mut results, &Vec::new(), "t0");
    let written = SnapshotTopic {
        topic: "a".to_string(),
        status: Some(serialized_status(Status::NoConsumers).to_string()),
        trend: Some("empty".to_string()),
        state_since: Some("t0".to_string()),
    };
    assert_eq!(written.key(), Some(StateKey::of(&results[0])));
    let from_file = prior_from_snapshot(&vec![written]);
    let from_memory = prior_from_results(&results);
    assert_eq!(entry(&from_file, "a").key, entry(&from_memory, "a").key);
    assert_eq!(entry(&from_file, "a").since, entry(&from_memory, "a").since);
}

#[test]
fn duration_units_change_at_their_sizes() {
    assert_eq!(format_secs(59), "59s");
    assert_eq!(format_secs(60), "1m");
    assert_eq!(format_secs(3599), "59m");
    assert_eq!(format_secs(3600), "1h");
    assert_eq!(format_secs(86_399), "23h");
    assert_eq!(format_secs(86_400), "1d");
    assert!(format_duration_between("x", "2026-07-30T12:00:00Z").is_none());
}

#[test]
fn no_time_is_shown_without_history() {
    let mut first = vec![health("a", Status::Backlog, None)];
    assign_state_since(&mut first, &Vec::new(), "t1");
    let prior = prior_from_results(&first);
    hide_first_starts(&mut first, &Vec::new());
    assert_eq!(first[0].state_since, None);
    let mut second = vec![health("a", Status::Healthy, None), health("b", Status::Healthy, None)];
    assign_state_since(&mut second, &prior, "t2");
    hide_first_starts(&mut second, &prior);
    assert_eq!(second[0].state_since.as_deref(), Some("t2"));
    assert_eq!(second[1].state_since, None);
}
