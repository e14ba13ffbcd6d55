use pulsar_topic_health::health::{PartitionDetail, Status, TopicHealth};
use pulsar_topic_health::number::Double;
use pulsar_topic_health::view::{
    fmt_bytes, partition_rows, partition_rows_for_topic, partition_status_legend, status_legend,
    status_severity, trend_legend, KubeFocus, Severity, View, ViewState,
};

fn topic_with_partitions(name: &str, parts: &[(u32, i64, &'static str)]) -> TopicHealth {
    let partitions = parts
        .iter()
        .map(|(idx, backlog, status)| PartitionDetail {
            partition: format!("{name}-partition-{idx}"),
            index: *idx,
            backlog: *backlog,
            backlog_bytes: backlog * 1000,
            consumers: if *status == "no_consumers" { 0 } else { 3 },
            unacked_messages: 0,
            status,
        })
        .collect();
    TopicHealth {
        topic: name.to_string(),
        status: Status::Backlog,
        total_backlog: Some(parts.iter().map(|(_, b, _)| b).sum()),
        backlog_bytes: Some(0),
        consumers: Some(3),
        unacked_messages: Some(0),
        msg_rate_out: Double { bits: 0 },
        min_headroom: None,
        trimmed_partitions: Vec::new(),
        at_edge_partitions: Vec::new(),
        hot_partitions: Vec::new(),
        partition_gaps: Vec::new(),
        partitions,
        drain: None,
        state_since: None,
        kube_hint: None,
        error: None,
    }
}

#[test]
fn help_toggles() {
    let mut state = ViewState::default();
    assert!(!state.show_help);
    state.toggle_help();
    assert!(state.show_help);
    state.toggle_help();
    assert!(!state.show_help);
}

#[test]
fn severity_classification() {
    assert_eq!(status_severity("OK"), Severity::Good);
    assert_eq!(status_severity("BACKLOG"), Severity::Warn);
    assert_eq!(status_severity("NO_CONSUMERS"), Severity::Bad);
    assert_eq!(status_severity("TRIMMED"), Severity::Bad);
    assert_eq!(status_severity("growing"), Severity::Bad);
    assert_eq!(status_severity("draining"), Severity::Warn);
    // partition statuses
    assert_eq!(status_severity("no_consumers"), Severity::Bad);
    assert_eq!(status_severity("hot"), Severity::Warn);
    assert_eq!(status_severity("ok"), Severity::Good);
}

#[test]
fn legends_are_populated() {
    assert!(status_legend().iter().any(|(k, _)| *k == "NO_CONSUMERS"));
    assert!(trend_legend().iter().any(|(k, _)| *k == "growing"));
}

#[test]
fn view_cycles_through_four() {
    let mut v = View::Topic;
    v = v.next();
    assert_eq!(v, View::Partition);
    v = v.next();
    assert_eq!(v, View::Kube);
    v = v.next();
    assert_eq!(v, View::Combined);
    v = v.next();
    assert_eq!(v, View::Topic);
}

#[test]
fn partition_rows_flattened_and_sorted() {
    let topics = vec![
        topic_with_partitions("b-topic", &[(1, 10, "ok"), (0, 20, "hot")]),
        topic_with_partitions("a-topic", &[(0, 5, "ok")]),
    ];
    let rows = partition_rows(&topics);
    // Sorted by topic then index: a-topic/0, b-topic/0, b-topic/1.
    assert_eq!(rows.len(), 3);
    assert_eq!(rows[0].topic, "a-topic");
    assert_eq!(rows[1].partition, "b-topic-partition-0");
    assert_eq!(rows[2].partition, "b-topic-partition-1");
}

#[test]
fn cursor_moves_and_clamps() {
    let mut state = ViewState::default();
    assert_eq!(state.cursor, 0);
    state.cursor_up(); // already at top, stays
    assert_eq!(state.cursor, 0);
    state.cursor_down(3);
    state.cursor_down(3);
    assert_eq!(state.cursor, 2);
    state.cursor_down(3); // at last row, clamps
    assert_eq!(state.cursor, 2);
    state.cursor_up();
    assert_eq!(state.cursor, 1);
}

#[test]
fn cursor_down_noop_on_empty() {
    let mut state = ViewState::default();
    state.cursor_down(0);
    assert_eq!(state.cursor, 0);
}

#[test]
fn clamp_after_rowset_shrinks() {
    let mut state = ViewState { cursor: 5, ..Default::default() };
    state.clamp_cursor(3);
    assert_eq!(state.cursor, 2, "clamped to last row");
    state.clamp_cursor(0);
    assert_eq!(state.cursor, 0, "empty set resets to 0");
}

#[test]
fn drill_in_scopes_to_selected_topic_and_switches_view() {
    let topics = vec![
        topic_with_partitions("soccer", &[(0, 5, "ok")]),
        topic_with_partitions("tennis", &[(0, 5, "ok"), (1, 9, "hot")]),
    ];
    let mut state = ViewState::default();
    state.cursor_down(topics.len()); // cursor now on "tennis"
    state.drill_in(&topics);
    assert_eq!(state.drilled_topic.as_deref(), Some("tennis"));
    assert_eq!(state.view, View::Combined);

    // The lower pane shows only tennis's partitions.
    let rows = partition_rows_for_topic(&topics, state.drilled_topic.as_deref().unwrap());
    assert_eq!(rows.len(), 2);
    assert!(rows.iter().all(|r| r.topic == "tennis"));
}

#[test]
fn drill_out_returns_to_topic_view() {
    let mut state = ViewState {
        view: View::Combined,
        drilled_topic: Some("tennis".to_string()),
        cursor: 1,
        ..Default::default()
    };
    state.drill_out();
    assert_eq!(state.view, View::Topic);
    assert!(state.drilled_topic.is_none());
    assert_eq!(state.cursor, 1, "cursor preserved on the way out");
}

#[test]
fn node_drill_in_and_out() {
    let nodes = vec!["node-a".to_string(), "node-b".to_string()];
    let mut state = ViewState { view: View::Kube, cursor: 1, ..Default::default() };
    state.drill_into_node(&nodes);
    assert_eq!(state.view, View::NodeDetail);
    assert_eq!(state.selected_node.as_deref(), Some("node-b"));
    state.drill_out();
    assert_eq!(state.view, View::Kube, "node drill-out returns to kube");
    assert!(state.selected_node.is_none());
}

#[test]
fn partition_status_legend_covers_hot() {
    assert!(partition_status_legend().iter().any(|(k, _)| *k == "hot"));
    assert!(partition_status_legend().iter().any(|(k, _)| *k == "no_consumers"));
}

#[test]
fn cycle_view_resets_cursor() {
    let mut state = ViewState { cursor: 4, ..Default::default() };
    state.cycle_view();
    assert_eq!(state.view, View::Partition);
    assert_eq!(state.cursor, 0);
}

#[test]
fn partition_rows_for_topic_only_that_topic() {
    let topics = vec![
        topic_with_partitions("soccer", &[(0, 5, "ok"), (1, 7, "ok")]),
        topic_with_partitions("tennis", &[(0, 5, "ok")]),
    ];
    let rows = partition_rows_for_topic(&topics, "soccer");
    assert_eq!(rows.len(), 2);
    assert!(rows.iter().all(|r| r.topic == "soccer"));
    // Unknown topic → empty.
    assert!(partition_rows_for_topic(&topics, "nope").is_empty());
}

// ── Further cases ────────────────────────────────────────────────────────────

#[test]
fn byte_sizes() {
    assert_eq!(fmt_bytes(0), "—");
    assert_eq!(fmt_bytes(1023), "1023 B");
    assert_eq!(fmt_bytes(1024), "1.00 KiB");
    assert_eq!(fmt_bytes(1536), "1.50 KiB");
    assert_eq!(fmt_bytes(1 << 30), "1.00 GiB");
}

#[test]
fn focus_and_wrap_toggle() {
    let mut state = ViewState::default();
    assert_eq!(state.kube_focus, KubeFocus::Pods);
    state.toggle_kube_focus();
    assert_eq!(state.kube_focus, KubeFocus::Nodes);
    state.toggle_kube_focus();
    assert_eq!(state.kube_focus, KubeFocus::Pods);
    let before = state.log_wrap;
    state.toggle_log_wrap();
    assert_eq!(state.log_wrap, !before);
}

#[test]
fn the_log_cursor_stays_in_the_log() {
    let mut state = ViewState::default();
    state.log_cursor_down(2);
    state.log_cursor_down(2);
    assert_eq!(state.log_cursor, 1);
    state.log_expand();
    assert!(state.log_collapse());
    assert!(!state.log_collapse());
    state.log_cursor_up();
    state.log_cursor_up();
    assert_eq!(state.log_cursor, 0);
}

#[test]
fn the_metrics_scroll_stops_at_its_ends() {
    let mut state = ViewState::default();
    state.metrics_scroll_up(5);
    assert_eq!(state.metrics_scroll, 0);
    state.metrics_scroll_down(7);
    state.metrics_scroll_up(3);
    assert_eq!(state.metrics_scroll, 4);
    state.metrics_scroll_down(u16::MAX);
    assert_eq!(state.metrics_scroll, u16::MAX);
}
