use pulsar_topic_health::config::{
    AdminConfig, ColorThresholds, Config, ConfigError, KubeConfig, MetricsConfig, Settings,
    ThresholdLevel,
};
use pulsar_topic_health::detail::{
    fleet_panel, node_panel, pod_body_panel, pod_head_panel, pods_notice_text, stability_panel,
    Stability,
};
use pulsar_topic_health::fleet::{
    metric_line_span, metrics_lines, metrics_scroll, pod_metrics_lines, short_pod, stability_rows,
    stability_titles,
};
use pulsar_topic_health::health::{Status, TopicHealth};
use pulsar_topic_health::kube::{
    KubeReport, LogStats, MetricLine, NodeInfo, PodLogs, PodMetricSummary, PodStabilityLine,
    PodSummary,
};
use pulsar_topic_health::number::Double;
use pulsar_topic_health::panels::{
    expanded_log, log_rows, log_scroll, log_stats_lines, no_match_text, node_detail_lines,
    pod_info_lines,
};
use pulsar_topic_health::screen::{
    alarm, bold, fill, footer_text, header_text, help_lines, node_rows, partition_grid, plain,
    pod_rows, topic_detail, topic_rows, topic_titles, under_cursor, GridRow, Line,
};
use pulsar_topic_health::table::Paint;
use pulsar_topic_health::view::{PartitionRow, View, ViewState};

fn texts(lines: &Vec<Line>) -> Vec<String> {
    lines
        .iter()
        .map(|l| l.spans.iter().map(|s| s.text.as_str()).collect::<Vec<&str>>().concat())
        .collect()
}

fn cells(row: &GridRow) -> Vec<&str> {
    row.cells.iter().map(|c| c.text.as_str()).collect()
}

fn health(topic: &str) -> TopicHealth {
    TopicHealth {
        topic: topic.to_string(),
        status: Status::Backlog,
        total_backlog: Some(500),
        backlog_bytes: Some(2048),
        consumers: None,
        unacked_messages: Some(0),
        msg_rate_out: Double { bits: 0 },
        min_headroom: None,
        trimmed_partitions: Vec::new(),
        at_edge_partitions: Vec::new(),
        hot_partitions: Vec::new(),
        partition_gaps: Vec::new(),
        partitions: Vec::new(),
        drain: None,
        state_since: None,
        kube_hint: Some("kube: split rollout".to_string()),
        error: None,
    }
}

fn pod(name: &str, node: Option<&str>) -> PodSummary {
    PodSummary {
        name: name.to_string(),
        ready: 1,
        total_containers: 2,
        restarts: 3,
        age_secs: Some(60),
        image: None,
        reason: None,
        oom_killed: false,
        transform_error: false,
        memory_pressure: false,
        node: node.map(String::from),
        cpu_used_milli: None,
        mem_used_bytes: None,
        cpu_request_milli: None,
        cpu_limit_milli: None,
        mem_request_bytes: None,
        mem_limit_bytes: None,
    }
}

fn metric(label: &str, value: f64, category: &str) -> MetricLine {
    MetricLine {
        label: label.to_string(),
        value: Double { bits: value.to_bits() },
        arrow: "↑".to_string(),
        breached: false,
        worsening: false,
        improving: false,
        category: category.to_string(),
        changed: false,
        stalled: false,
        is_rate: false,
        present: true,
    }
}

fn summary(pod: &str, lines: Vec<MetricLine>) -> PodMetricSummary {
    PodMetricSummary { pod: pod.to_string(), lines, health: None }
}

#[test]
fn header_and_footer() {
    let mut state = ViewState::default();
    assert_eq!(
        header_text(&state, "x/my-sub", "now"),
        " pulsar-topic-health · sub: my-sub · view: topic · as of now"
    );
    state.drilled_topic = Some("a/b/c".to_string());
    assert!(header_text(&state, "s", "now").contains(" · drilled: c · as of now"));
    assert!(footer_text(View::Kube).contains("Tab=pods/nodes"));
    assert!(footer_text(View::Topic).contains("Enter=drill in"));
    assert_ne!(footer_text(View::Metrics), footer_text(View::Stability));
}

#[test]
fn help_tells_of_actions_where_they_are_allowed() {
    let open = texts(&help_lines(true));
    let shut = texts(&help_lines(false));
    assert!(open.iter().any(|l| l.contains("d=delete pod")));
    assert!(!shut.iter().any(|l| l.contains("d=delete pod")));
    assert_eq!(shut[0], "Status legend");
    assert_eq!(shut.last().unwrap(), "press ? to close");
}

#[test]
fn rows_of_topics() {
    let topics = vec![health("x/a"), health("x/b")];
    let rows = topic_rows(&topics, 1);
    assert_eq!(
        cells(&rows[0]),
        vec!["a", "BACKLOG", "500", "2.00 KiB", "—", "—", "kube: split rollout"]
    );
    assert_eq!(rows[0].style, plain());
    assert_eq!(rows[1].style, under_cursor());
    assert_eq!(topic_titles(false).len(), 7);
    assert_eq!(topic_titles(true).len(), 9);
    assert_eq!(topic_detail(&topics[0]), "kube: split rollout");
}

#[test]
fn rows_of_partitions_pods_and_nodes() {
    let rows = vec![PartitionRow {
        topic: "x/a".to_string(),
        partition: "x/a-partition-3".to_string(),
        index: 3,
        backlog: 7,
        backlog_bytes: 1024,
        consumers: 2,
        unacked_messages: 1,
        status: "hot",
    }];
    let grid = partition_grid(&rows, None);
    assert_eq!(cells(&grid[0]), vec!["a", "p3", "hot", "7", "1.00 KiB", "2", "1"]);
    assert_eq!(grid[0].cells[2].style.fg, Some(Paint::Yellow));
    let grid = pod_rows(&vec![pod("p", None)], Some(0));
    assert_eq!(cells(&grid[0]), vec!["p", "1/2", "3", "1m", "·/·", "·/·", "Running"]);
    assert_eq!(grid[0].style, under_cursor());
    let node = NodeInfo {
        name: "n".to_string(),
        alloc_cpu_milli: Some(1500),
        alloc_mem_bytes: None,
        instance_type: None,
    };
    let grid = node_rows(&vec![node], None);
    assert_eq!(cells(&grid[0]), vec!["n", "—", "1.5 CPU", "? alloc"]);
}

#[test]
fn pods_and_nodes_in_detail() {
    let mut p = pod("p", Some("n"));
    p.oom_killed = true;
    let lines = texts(&pod_info_lines(&p));
    assert_eq!(lines[0], "pod:   p");
    assert_eq!(lines[1], "node:  n");
    assert_eq!(lines[2], "ready: 1/2   restarts: 3");
    assert_eq!(lines.last().unwrap(), "OOMKilled");
    let mut report = KubeReport::empty("ns");
    report.pods = vec![pod("p", Some("n")), pod("q", Some("m"))];
    report.nodes = vec![NodeInfo {
        name: "n".to_string(),
        alloc_cpu_milli: None,
        alloc_mem_bytes: Some(1 << 30),
        instance_type: Some("m5".to_string()),
    }];
    assert_eq!(
        texts(&node_detail_lines(&report, "n")),
        vec![
            "node:  n",
            "type:  m5",
            "alloc: ? CPU / 1.00 GiB",
            "",
            "pods on this node:",
            "  p   ·/·   mem ·/·"
        ]
    );
    assert_eq!(no_match_text(&report), "no pods matched in namespace ns");
}

#[test]
fn log_panels() {
    let report = KubeReport::empty("ns");
    assert_eq!(
        texts(&log_stats_lines(&report)),
        vec!["no logs scanned (set --kube-log-tail > 0)"]
    );
    let mut report = KubeReport::empty("ns");
    report.log_stats = Some(LogStats {
        total: 9,
        by_level: vec![("INFO".to_string(), 5), ("WARN".to_string(), 4)],
        top_messages: (0..6).map(|i| (format!("m{i}"), 6 - i)).collect(),
        operational: vec![("subscribe ok".to_string(), 2)],
        rss_first_mb: Some(100),
        rss_last_mb: Some(300),
        last_throughput_rps: Some(12),
        transform_errors: 0,
        oom_warnings: 1,
        backpressure: 0,
        reconnects: 3,
        throughput_collapsed: false,
    });
    let mut tight = pod("streamer-2", None);
    tight.memory_pressure = true;
    report.pods = vec![pod("streamer-1", None), tight];
    let lines = log_stats_lines(&report);
    assert_eq!(lines[0].spans[0].style, alarm());
    assert_eq!(lines[1].spans[0].style, alarm());
    assert_eq!(texts(&lines)[1], "MEM-CRITICAL on: streamer-2");
    assert_eq!(
        texts(&lines)[2..].to_vec(),
        vec![
            "levels: WARN 4  INFO 5",
            "rss: 100 MB ↑ 300 MB",
            "throughput: 12 rps",
            "subscribe ok: 2",
            "6× m0",
            "5× m1",
            "4× m2",
            "3× m3"
        ]
    );
    let rows = log_rows(&vec!["one".to_string(), "two".to_string()], 1, 80);
    assert_eq!(texts(&rows), vec!["one", "two"]);
    assert!(rows[1].spans[0].style.reversed && !rows[0].spans[0].style.reversed);
    assert_eq!(log_scroll(3, 10), 0);
    assert_eq!(log_scroll(30, 10), 25);
    assert_eq!(texts(&expanded_log("plain")), vec!["plain"]);
}

#[test]
fn metrics_of_the_fleet() {
    let list = vec![
        summary(
            "app-x1",
            vec![
                metric("consumed", 5.0, "throughput"),
                metric("written", 0.0, "throughput"),
                metric("lag", 7.0, "consumer"),
            ],
        ),
        summary(
            "app-x2",
            vec![
                metric("consumed", 6.0, "throughput"),
                metric("written", 0.0, "throughput"),
                metric("lag", 7.0, "consumer"),
            ],
        ),
        summary("app-x3", Vec::new()),
    ];
    let lines = texts(&metrics_lines(&list));
    assert_eq!(lines[0], "not scraped this cycle (1): x3");
    assert_eq!(lines[2], "── flow (per pod) ──");
    assert_eq!(lines[3], "  x1             consumed 5/s → written 0/s → sink —/s");
    assert!(lines.contains(&"  lag=7  (all 2 pods)".to_string()));
    assert!(lines.contains(&"  written=0  (all 2 pods)".to_string()));
    assert!(lines.contains(&"  x2             consumed=6".to_string()));
}

#[test]
fn breached_pods_come_first() {
    let mut bad = metric("lag", 9.0, "consumer");
    bad.breached = true;
    let list = vec![
        summary("app-x1", vec![metric("lag", 1.0, "consumer")]),
        summary("app-x2", vec![bad]),
    ];
    let lines = texts(&metrics_lines(&list));
    let at = |pod: &str| lines.iter().position(|l| l.contains(pod)).unwrap();
    assert!(at("x2") < at("x1"));
}

#[test]
fn single_metrics() {
    let mut m = metric("lag", 2.5, "consumer");
    assert_eq!(metric_line_span(&m).text, "lag=2");
    m.changed = true;
    m.is_rate = true;
    assert_eq!(metric_line_span(&m).text, "lag=2/s↑");
    m.worsening = true;
    assert_eq!(metric_line_span(&m).style.fg, Some(Paint::Yellow));
    m.breached = true;
    assert_eq!(metric_line_span(&m).style, alarm());
    m.present = false;
    assert_eq!(metric_line_span(&m).text, "lag=(no data)");
    assert_eq!(short_pod("app-abc-x1"), "x1");
    let mut s = summary("p", vec![metric("lag", 1.0, "consumer")]);
    s.health = Some("ok".to_string());
    assert_eq!(
        texts(&pod_metrics_lines(&s)),
        vec!["health: ok", "", "── consumer ──", "  lag=1"]
    );
}

#[test]
fn scrolling_the_fleet() {
    assert_eq!(metrics_scroll(5, 10, 20), (0, "fleet metrics".to_string()));
    assert_eq!(
        metrics_scroll(2, 30, 10),
        (2, "fleet metrics  [3–12/30  ↑/↓ PgUp/PgDn]".to_string())
    );
    assert_eq!(metrics_scroll(u16::MAX, 30, 10).0, 20);
}

#[test]
fn flapping_pods_come_first() {
    let line = |pod: &str, rate: bool, rebalance: bool| PodStabilityLine {
        pod: pod.to_string(),
        reconnect_rate: Double { bits: 1.25f64.to_bits() },
        throttle_transition_rate: Double { bits: 0 },
        active_parts_churn: Double { bits: 3.0f64.to_bits() },
        active_parts: Double { bits: 12.0f64.to_bits() },
        idle_cull_rate: Double { bits: 0 },
        idle_cull_threshold_secs: Double { bits: 0 },
        flapping_rate: rate,
        flapping_rebalance: rebalance,
        idle_cull_loop: false,
    };
    let rows = stability_rows(&vec![line("a-1", false, false), line("a-2", true, true)]);
    assert_eq!(
        cells(&rows[0]),
        vec!["2", "1.2", "0.0", "12", "3", "0.0", "—", "FLAPPING (reconnect + rebalance)"]
    );
    assert_eq!(cells(&rows[1])[7], "stable");
    assert_eq!(stability_titles().len(), rows[0].cells.len());
    let mut culled = line("a-3", false, true);
    culled.idle_cull_rate = Double { bits: 2.0f64.to_bits() };
    culled.idle_cull_threshold_secs = Double { bits: 30.0f64.to_bits() };
    culled.idle_cull_loop = true;
    let rows = stability_rows(&vec![line("a-1", false, false), culled]);
    assert_eq!(
        cells(&rows[0])[5..],
        ["2.0", "30s", "FLAPPING (rebalance churn) — idle-cull loop"]
    );
}

#[test]
fn filling_counts_characters() {
    assert_eq!(fill("é", 3), "é  ");
    assert_eq!(fill("long", 2), "long");
    assert!(bold().bold && !plain().bold);
}

#[test]
fn panels_of_a_pod() {
    let mut report = KubeReport::empty("ns");
    report.pods = vec![pod("app-p", Some("n"))];
    report.pod_logs = vec![PodLogs {
        pod: "app-p".to_string(),
        lines: vec!["one".to_string(), "two".to_string()],
    }];
    let head = pod_head_panel(&report, "app-p");
    assert_eq!(head.title, "pod · app-p");
    assert_eq!(head.lines.len(), 5);
    assert!(pod_head_panel(&report, "nobody").lines.is_empty());
    let mut state = ViewState { log_cursor: 1, log_wrap: true, ..Default::default() };
    let body = pod_body_panel(&report, "app-p", &state, 80, 2);
    assert_eq!(texts(&body.lines), vec!["one", "two"]);
    assert_eq!((body.scroll, body.wrap), (0, false));
    state.log_expanded = true;
    let body = pod_body_panel(&report, "app-p", &state, 80, 2);
    assert_eq!(texts(&body.lines), vec!["two"]);
    assert!(body.wrap);
    state.pod_detail_metrics = true;
    let body = pod_body_panel(&report, "app-p", &state, 80, 2);
    assert_eq!(
        texts(&body.lines),
        vec!["no metrics for this pod (scraping off or not yet scraped)"]
    );
    report.pod_metric_summaries = vec![summary("app-p", vec![metric("lag", 1.0, "consumer")])];
    let body = pod_body_panel(&report, "app-p", &state, 80, 2);
    assert_eq!(texts(&body.lines), vec!["── consumer ──", "  lag=1"]);
    state.pod_detail_metrics = false;
    state.log_expanded = false;
    let body = pod_body_panel(&report, "nobody", &state, 80, 2);
    assert_eq!(texts(&body.lines), vec!["no logs captured for this pod"]);
    assert_eq!(node_panel(&report, "n").title, "node · n");
}

#[test]
fn notices_in_place_of_panels() {
    let none = None;
    assert_eq!(
        pods_notice_text(&none),
        Some(("kubernetes".to_string(), "kube view: run with --kube (and a binary built with --features kube)".to_string()))
    );
    assert_eq!(
        texts(&fleet_panel(&none, 0, 10).lines),
        vec!["metrics scraping is off (set [metrics] enabled = true)"]
    );
    let mut report = KubeReport::empty("ns");
    let some = Some(report.clone());
    assert_eq!(pods_notice_text(&some).unwrap().0, "kubernetes — no match");
    assert_eq!(texts(&fleet_panel(&some, 0, 10).lines), vec!["no pod metrics scraped yet"]);
    match stability_panel(&some) {
        Stability::Notice(p) => assert!(texts(&p.lines)[0].starts_with("no stability data yet")),
        Stability::Rows(_) => panic!("there are none"),
    }
    report.pods = vec![pod("p", None)];
    report.pod_metric_summaries = vec![summary("p", vec![metric("lag", 1.0, "consumer")])];
    let some = Some(report);
    assert!(pods_notice_text(&some).is_none());
    let panel = fleet_panel(&some, u16::MAX, 2);
    assert_eq!(panel.scroll, panel.lines.len() - 2);
}

// ── Configuration ────────────────────────────────────────────────────────────

fn config(topics: Vec<String>) -> Config {
    Config {
        admin_url: None,
        subscription: "s".to_string(),
        backlog_threshold: 100,
        topics,
        colors: ColorThresholds::default(),
        settings: Settings {
            format: None,
            concurrency: None,
            timeout_secs: None,
            drain_window_secs: None,
            watch: None,
            tui: None,
            watch_interval_secs: None,
            json_dir: None,
            json_dir_max_files: None,
            problems_only: None,
        },
        kube: KubeConfig::default(),
        metrics: MetricsConfig {
            enabled: false,
            port: 9090,
            window: 10,
            capture_dir: None,
            watch: Vec::new(),
        },
        admin: AdminConfig::default(),
    }
}

#[test]
fn a_configuration_needs_topics() {
    assert!(config(vec!["a/b/c".to_string()]).accept("f").is_ok());
    let e = config(Vec::new()).accept("f").unwrap_err();
    assert_eq!(e.message(), "config file f: `topics` must not be empty");
    let e = ConfigError::Read { path: "f".to_string(), source: "gone".to_string() };
    assert_eq!(e.message(), "failed to read config file f: gone");
    let e = ConfigError::Parse { path: "f".to_string(), source: "odd".to_string() };
    assert_eq!(e.message(), "failed to parse config file f: odd");
}

#[test]
fn threshold_levels() {
    let c = ColorThresholds {
        backlog_warn: Some(10),
        backlog_crit: Some(20),
        size_crit: Some(5),
        ..Default::default()
    };
    assert_eq!(c.backlog_level(9), ThresholdLevel::Good);
    assert_eq!(c.backlog_level(10), ThresholdLevel::Warn);
    assert_eq!(c.backlog_level(20), ThresholdLevel::Crit);
    assert_eq!(c.size_level(4), ThresholdLevel::Good);
    assert_eq!(c.size_level(5), ThresholdLevel::Crit);
    assert_eq!(c.unacked_level(1_000_000), ThresholdLevel::Unset);
}
