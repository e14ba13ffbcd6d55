use pulsar_topic_health::config::ColorThresholds;
use pulsar_topic_health::drain::evaluate_drain;
use pulsar_topic_health::health::{
    AtEdgePartition, HotPartition, PartitionGap, Status, TopicHealth, TrimmedPartition,
};
use pulsar_topic_health::kube::labels::labels_discovery;
use pulsar_topic_health::kube::{
    distinct_images, rollout_skew_secs, ConfigAssertion, KubeEvent, KubeReport, LogSignal,
    LogStats, NodeInfo, PodSummary,
};
use pulsar_topic_health::number::Double;
use pulsar_topic_health::output::{
    detail, eta_str, format_bytes, format_short_duration, net_str, opt_bytes, opt_num,
    render_table, short_partition, short_topic, shows_drain,
};
use pulsar_topic_health::podtable::{
    alert_texts, cpu_usage_text, kube_lines, kube_section, mem_usage_text, pod_state, pod_table,
    render_kube_section,
};

fn double(x: f64) -> Double {
    Double { bits: x.to_bits() }
}

fn health(status: Status, total_backlog: i64) -> TopicHealth {
    TopicHealth {
        topic: "persistent://a/b/c".to_string(),
        status,
        total_backlog: Some(total_backlog),
        backlog_bytes: Some(0),
        consumers: Some(1),
        unacked_messages: Some(0),
        msg_rate_out: Double { bits: 0 },
        min_headroom: None,
        trimmed_partitions: Vec::new(),
        at_edge_partitions: Vec::new(),
        hot_partitions: Vec::new(),
        partition_gaps: Vec::new(),
        partitions: Vec::new(),
        drain: None,
        state_since: None,
        kube_hint: None,
        error: None,
    }
}

fn pod(
    name: &str,
    ready: u32,
    total: u32,
    restarts: i32,
    age: i64,
    img: &str,
    oom: bool,
    reason: Option<&str>,
) -> PodSummary {
    PodSummary {
        name: name.to_string(),
        ready,
        total_containers: total,
        restarts,
        age_secs: Some(age),
        image: Some(img.to_string()),
        reason: reason.map(String::from),
        oom_killed: oom,
        transform_error: false,
        memory_pressure: false,
        node: None,
        cpu_used_milli: None,
        mem_used_bytes: None,
        cpu_request_milli: None,
        cpu_limit_milli: None,
        mem_request_bytes: None,
        mem_limit_bytes: None,
    }
}

fn quiet_stats() -> LogStats {
    LogStats {
        total: 0,
        by_level: Vec::new(),
        top_messages: Vec::new(),
        operational: Vec::new(),
        rss_first_mb: None,
        rss_last_mb: None,
        last_throughput_rps: None,
        transform_errors: 0,
        oom_warnings: 0,
        backpressure: 0,
        reconnects: 0,
        throughput_collapsed: false,
    }
}

#[test]
fn shortens_partition_names() {
    assert_eq!(short_partition("persistent://a/b/c-partition-12"), "p12");
    assert_eq!(short_partition("persistent://a/b/plain-topic"), "plain-topic");
}

#[test]
fn threshold_colours_render_when_styling_forced() {
    let colors = ColorThresholds {
        backlog_warn: Some(100),
        backlog_crit: Some(1000),
        ..Default::default()
    };
    // Over crit → should be styled.
    let topics = vec![health(Status::Backlog, 5000)];
    let mut table = render_table(&topics, &colors, "2026-07-30T12:00:00Z");
    table.enforce_styling();
    let rendered = table.to_string();
    assert!(rendered.contains('\u{1b}'), "forced styling should emit ANSI colour codes");
}

#[test]
fn renders_healthy_pod_section() {
    let mut report = KubeReport::empty("my-ns");
    report.pods = vec![
        pod("app-1", 1, 1, 0, 3600, "img:v2", false, None),
        pod("app-2", 1, 1, 0, 3600, "img:v2", false, None),
    ];
    report.images = distinct_images(&report.pods);
    let out = render_kube_section(&report);
    assert!(out.contains("namespace my-ns"));
    assert!(out.contains("app-1"));
    assert!(!out.contains("split rollout"));
}

#[test]
fn renders_problems() {
    let mut report = KubeReport::empty("ns");
    report.pods = vec![
        pod("app-1", 0, 1, 7, 120, "img:v2", true, Some("OOMKilled")),
        pod("app-2", 1, 1, 0, 6000, "img:v1", false, None),
    ];
    report.images = distinct_images(&report.pods);
    report.rollout_skew_secs = rollout_skew_secs(&report.pods);
    report.config_assertions = vec![ConfigAssertion {
        key: "worker_count".to_string(),
        expected: "24".to_string(),
        actual: Some("16".to_string()),
        pass: false,
    }];
    let out = render_kube_section(&report);
    assert!(out.contains("OOMKilled"), "oom state shown");
    assert!(out.contains("split rollout"), "two images flagged");
    assert!(out.contains("config worker_count"), "failed assertion shown");
}

#[test]
fn renders_unreachable() {
    let report = KubeReport::unreachable("ns", "connection refused".to_string());
    let out = render_kube_section(&report);
    assert!(out.contains("unreachable"));
}

// ── Further cases ────────────────────────────────────────────────────────────

#[test]
fn sizes_in_binary_units() {
    assert_eq!(format_bytes(-5), "—");
    assert_eq!(format_bytes(1), "1 B");
    assert_eq!(format_bytes(1025), "1.00 KiB");
    assert_eq!(format_bytes(5 << 20), "5.00 MiB");
    assert_eq!(format_bytes(3 << 29), "1.50 GiB");
    assert_eq!(format_bytes(3 << 39), "1.50 TiB");
    // A half of a hundredth goes to the even one.
    assert_eq!(format_bytes(1024 + 128), "1.12 KiB");
    assert_eq!(format_bytes(1024 + 384), "1.38 KiB");
    assert_eq!(format_bytes(i64::MAX), "8388608.00 TiB");
    assert_eq!(opt_bytes(None), "—");
    assert_eq!(opt_num(Some(-3)), "-3");
    assert_eq!(opt_num(None), "—");
}

#[test]
fn short_durations() {
    assert_eq!(format_short_duration(59), "59s");
    assert_eq!(format_short_duration(61), "1m");
    assert_eq!(format_short_duration(7200), "2h");
    assert_eq!(format_short_duration(200_000), "2d");
    assert_eq!(short_topic("persistent://a/b/c"), "c");
    assert_eq!(short_topic("c"), "c");
}

#[test]
fn detail_starts_with_what_is_trimmed() {
    let mut h = health(Status::Trimmed, 10);
    h.trimmed_partitions = vec![
        TrimmedPartition { partition: "x-partition-0".to_string(), waiting_with_backlog: true },
        TrimmedPartition { partition: "x-partition-1".to_string(), waiting_with_backlog: false },
    ];
    h.at_edge_partitions =
        vec![AtEdgePartition { partition: "x-partition-2".to_string(), headroom: Some(7) }];
    h.hot_partitions = vec![
        HotPartition {
            partition: "x-partition-3".to_string(),
            backlog: 400,
            backlog_bytes: 2048,
        },
        HotPartition { partition: "x-partition-4".to_string(), backlog: 300, backlog_bytes: 0 },
    ];
    h.partition_gaps = vec![
        PartitionGap { partition: "x-partition-5".to_string(), reason: "subscription_missing" },
        PartitionGap { partition: "x-partition-6".to_string(), reason: "no_consumers" },
    ];
    assert_eq!(
        detail(&h),
        "TRIMMED: p0!, p1; edge: p2(~7); hot: p3=400 (2.00 KiB), p4=300; gaps: p5 (no-sub), p6 (no-consumers)"
    );
    h.error = Some("broken".to_string());
    assert_eq!(detail(&h), "broken");
}

#[test]
fn rates_and_etas() {
    let drain = Some(evaluate_drain(10_000, 7_000, double(30.0), double(0.01)));
    assert_eq!(net_str(&drain), "-100.0");
    assert_eq!(eta_str(&drain), "1m");
    let growing = Some(evaluate_drain(100, 101, double(3.0), double(0.01)));
    assert_eq!(net_str(&growing), "+0.3");
    assert_eq!(eta_str(&growing), "—");
    assert_eq!(net_str(&None), "—");
    let frozen = Some(evaluate_drain(100, 50, double(0.0), double(0.01)));
    assert_eq!(net_str(&frozen), "+0.0");
}

#[test]
fn the_table_has_a_row_for_each_topic() {
    let mut first = health(Status::Healthy, 12);
    first.drain = Some(evaluate_drain(10_000, 7_000, double(30.0), double(0.01)));
    first.state_since = Some("2026-07-30T11:00:00Z".to_string());
    let mut second = health(Status::Error, 0);
    second.topic = "persistent://a/b/d".to_string();
    second.total_backlog = None;
    second.error = Some("no answer".to_string());
    let topics = vec![first, second];
    assert!(shows_drain(&topics));
    let table = render_table(&topics, &ColorThresholds::default(), "2026-07-30T12:00:00Z");
    assert_eq!(table.row_count(), 2);
    let heads: Vec<String> =
        table.header().unwrap().cell_iter().map(|c| c.content()).collect();
    assert_eq!(
        heads,
        vec![
            "TOPIC", "STATUS", "TIME", "BACKLOG", "SIZE", "CONSUMERS", "UNACKED", "RATE OUT",
            "HEADROOM", "TREND", "NET/s", "ETA", "DETAIL"
        ]
    );
    let row = |i: usize| -> Vec<String> {
        table.row(i).unwrap().cell_iter().map(|c| c.content()).collect()
    };
    assert_eq!(
        row(0),
        vec!["persistent://a/b/c", "OK", "1h", "12", "—", "1", "0", "0.0", "—", "draining",
            "-100.0", "1m", ""]
    );
    assert_eq!(row(1)[1], "ERROR");
    assert_eq!(row(1)[3], "—");
    assert_eq!(row(1)[12], "no answer");
    // Without a drain or a start there are no columns for them.
    let plain = vec![health(Status::Healthy, 1)];
    let table = render_table(&plain, &ColorThresholds::default(), "2026-07-30T12:00:00Z");
    assert_eq!(table.header().unwrap().cell_iter().count(), 9);
}

#[test]
fn styles_reach_the_drawn_table() {
    let colors = ColorThresholds {
        backlog_warn: Some(100),
        backlog_crit: Some(1000),
        ..Default::default()
    };
    let drawn = |backlog: i64| {
        let mut table =
            render_table(&vec![health(Status::Healthy, backlog)], &colors, "2026-07-30T12:00:00Z");
        table.enforce_styling();
        table.to_string()
    };
    // Red, yellow and green paint differ, and so do the drawings.
    let (good, warn, crit) = (drawn(10), drawn(200), drawn(2000));
    assert_ne!(good.replace("10", "N"), warn.replace("200", "N"));
    assert_ne!(warn.replace("200", "N"), crit.replace("2000", "N"));
}

#[test]
fn pod_states_by_urgency() {
    let mut p = pod("a", 1, 1, 0, 10, "i", true, Some("CrashLoopBackOff"));
    assert_eq!(pod_state(&p), "OOMKilled");
    p.memory_pressure = true;
    assert_eq!(pod_state(&p), "MEM-CRITICAL");
    p.transform_error = true;
    assert_eq!(pod_state(&p), "DLQ-ERROR");
    assert_eq!(pod_state(&pod("a", 1, 1, 0, 10, "i", false, Some("Pending"))), "Pending");
    assert_eq!(pod_state(&pod("a", 1, 1, 0, 10, "i", false, None)), "Running");
}

#[test]
fn usage_is_shown_against_the_limit() {
    let mut p = pod("a", 1, 1, 0, 10, "i", false, None);
    assert_eq!(cpu_usage_text(&p), "·/·");
    p.cpu_used_milli = Some(250);
    p.cpu_limit_milli = Some(2000);
    p.mem_used_bytes = Some(1 << 30);
    assert_eq!(cpu_usage_text(&p), "250m/2");
    assert_eq!(mem_usage_text(&p), "1.00 GiB/·");
    let table = pod_table(&vec![p]);
    let cells: Vec<String> = table.row(0).unwrap().cell_iter().map(|c| c.content()).collect();
    assert_eq!(cells, vec!["a", "1/1", "0", "10s", "250m/2", "1.00 GiB/·", "Running"]);
}

#[test]
fn alerts_of_log_statistics() {
    let mut s = quiet_stats();
    assert!(alert_texts(&s).is_empty());
    s.transform_errors = 2;
    s.oom_warnings = 1;
    s.throughput_collapsed = true;
    s.reconnects = 10;
    s.backpressure = 3;
    assert_eq!(
        alert_texts(&s),
        vec![
            "⚠ TRANSFORM/DLQ ERRORS: 2 — rows dropped to DLQ (silent data loss)",
            "⚠ MEMORY PRESSURE: 1 pre-OOM warning(s) — OOM kill imminent",
            "⚠ THROUGHPUT COLLAPSE: a pod was processing, now at 0 rps",
            "⚠ RECONNECT STORM: 10 reconnects",
            "⚠ BACKPRESSURE: 3 throttle/channel-full signal(s)",
        ]
    );
}

#[test]
fn section_lines_in_order() {
    let mut report = KubeReport::empty("ns");
    let mut p = pod("app-1", 1, 1, 0, 10, "i", false, None);
    p.transform_error = true;
    report.pods = vec![p];
    report.rollout_skew_secs = Some(301);
    report.nodes = vec![NodeInfo {
        name: "n1".to_string(),
        alloc_cpu_milli: Some(4000),
        alloc_mem_bytes: None,
        instance_type: Some("m5".to_string()),
    }];
    report.events = vec![KubeEvent {
        reason: "BackOff".to_string(),
        message: "m".to_string(),
        involved: "app-1".to_string(),
        age_secs: Some(90),
    }];
    report.log_signals = vec![LogSignal {
        pod: "app-1".to_string(),
        kind: "error".to_string(),
        line: "boom".to_string(),
    }];
    let lines = kube_lines(&report);
    let at = |needle: &str| lines.iter().position(|l| l.contains(needle)).unwrap();
    assert!(lines.contains(&"  DLQ-ERROR on: app-1".to_string()));
    assert!(lines.contains(&"  node n1 [m5]: 4 CPU / ? allocatable".to_string()));
    assert!(lines.contains(&"    BackOff app-1 (1m ago)".to_string()));
    assert!(lines.contains(&"    [error] app-1: boom".to_string()));
    assert!(at("rollout skew 5m") < at("  events:"));
    assert!(at("  events:") < at("  log signals:"));
    let text = kube_section(&report, "TABLE");
    assert!(text.starts_with("kubernetes: namespace ns\nTABLE\n"));
}

#[test]
fn no_pods_shows_what_could_be_selected() {
    let mut report = KubeReport::empty("ns");
    assert_eq!(
        kube_section(&report, ""),
        "kubernetes: namespace ns\n  no pods matched the selector\n"
    );
    report.discovery =
        Some(labels_discovery("ns", &vec![vec![("app".to_string(), "x".to_string())]]));
    let text = kube_section(&report, "");
    assert!(text.contains("app=x"));
}

#[test]
fn tables_are_laid_out_for_a_terminal() {
    let mut table =
        render_table(&vec![], &ColorThresholds::default(), "2026-07-30T12:00:00Z");
    assert_eq!(
        table.current_style_as_preset(),
        comfy_table::presets::UTF8_FULL_CONDENSED
    );
    assert!(matches!(
        table.content_arrangement(),
        comfy_table::ContentArrangement::Dynamic
    ));
    assert_eq!(table.row_count(), 0);
}
