use std::collections::HashMap;

use pulsar_topic_health::kube::assertions::{assert_config, find_toml_value};
use pulsar_topic_health::kube::flags::{
    document_message, line_message, pods_matching, pods_with_transform_errors,
};
use pulsar_topic_health::kube::json::{JsonEntry, JsonValue};
use pulsar_topic_health::kube::labels::{
    format_discovery, labels_discovery, suggest_selector, Labels,
};
use pulsar_topic_health::kube::logs::{
    document_lines, document_summary, log_line_summary, pretty_log_line, truncate_str,
};
use pulsar_topic_health::kube::normalise::normalise_message;
use pulsar_topic_health::kube::quantity::{
    format_cpu, parse_cpu_milli, parse_mem_bytes, sum_quantity,
};
use pulsar_topic_health::kube::signals::{
    is_backpressure, is_oom_warning, is_reconnect, is_reconnect_storm, is_transform_error,
    line_signals, operational_events, scan_log_signals, tells_oom_warning,
};
use pulsar_topic_health::kube::stats::{
    aggregate_facts, aggregate_log_stats, has_collapsed, sort_desc, LogFact,
};
use pulsar_topic_health::kube::{
    correlation_hint, distinct_images, rollout_skew_secs, skew_countable, Discovery, KubeReport,
    PodLogs, PodSummary,
};
use pulsar_topic_health::number::Double;

fn pod(
    name: &str,
    ready: u32,
    total: u32,
    restarts: i32,
    age: i64,
    image: &str,
    oom: bool,
) -> PodSummary {
    PodSummary {
        name: name.to_string(),
        ready,
        total_containers: total,
        restarts,
        age_secs: Some(age),
        image: Some(image.to_string()),
        reason: None,
        oom_killed: oom,
        transform_error: false,
        memory_pressure: false,
        node: None,
        cpu_used_milli: None,
        mem_used_bytes: None,
        cpu_request_milli: None,
        cpu_limit_milli: None,
        mem_request_bytes: None,
        mem_limit_bytes: None,
    }
}

fn labels(pairs: &[(&str, &str)]) -> Labels {
    pairs.iter().map(|p| (p.0.to_string(), p.1.to_string())).collect()
}

fn value(d: Option<Double>) -> Option<f64> {
    d.map(|d| f64::from_bits(d.bits))
}

#[test]
fn all_ready_reflects_container_counts() {
    assert!(pod("a", 1, 1, 0, 100, "img:1", false).all_ready());
    assert!(!pod("b", 0, 1, 3, 100, "img:1", false).all_ready());
}

#[test]
fn parses_cpu_quantities() {
    assert_eq!(parse_cpu_milli("250m"), Some(250));
    assert_eq!(parse_cpu_milli("1"), Some(1000));
    assert_eq!(parse_cpu_milli("2"), Some(2000));
    assert_eq!(parse_cpu_milli("1500m"), Some(1500));
    assert_eq!(parse_cpu_milli("0.5"), Some(500));
    assert_eq!(parse_cpu_milli("garbage"), None);
}

#[test]
fn parses_mem_quantities() {
    assert_eq!(parse_mem_bytes("1Gi"), Some(1 << 30));
    assert_eq!(parse_mem_bytes("512Mi"), Some(512 * (1 << 20)));
    assert_eq!(parse_mem_bytes("1000000"), Some(1_000_000));
    assert_eq!(parse_mem_bytes("1M"), Some(1_000_000));
    assert_eq!(parse_mem_bytes("28672Mi"), Some(28672 * (1 << 20))); // 28 GiB
    assert_eq!(parse_mem_bytes("nope"), None);
}

#[test]
fn formats_cpu_millicores() {
    assert_eq!(format_cpu(250), "250m");
    assert_eq!(format_cpu(1000), "1");
    assert_eq!(format_cpu(1500), "1.5");
    assert_eq!(format_cpu(2000), "2");
}

#[test]
fn sum_quantity_sums_present_values() {
    let containers = vec![Some("250m"), None, Some("500m")];
    assert_eq!(sum_quantity(&containers, parse_cpu_milli), Some(750));
    // All-None → None.
    let empty: Vec<Option<&str>> = vec![None, None];
    assert_eq!(sum_quantity(&empty, parse_cpu_milli), None);
}

#[test]
fn resource_fractions() {
    let mut p = pod("a", 1, 1, 0, 100, "i", false);
    p.mem_used_bytes = Some(1500);
    p.mem_limit_bytes = Some(2000);
    assert_eq!(value(p.mem_fraction()), Some(0.75));
    p.cpu_used_milli = Some(900);
    p.cpu_limit_milli = Some(1000);
    assert_eq!(value(p.cpu_fraction()), Some(0.9));
    // Missing limit → None.
    p.mem_limit_bytes = None;
    assert_eq!(p.mem_fraction(), None);
}

#[test]
fn detects_oom_warning() {
    assert!(is_oom_warning(
        "HIGH MEMORY WARNING — RSS exceeds 70% of cgroup limit, OOM kill imminent"
    ));
    assert!(is_oom_warning("memory pressure detected"));
    assert!(!is_oom_warning("Pipeline health summary"));
}

#[test]
fn detects_backpressure() {
    assert!(is_backpressure("decoded_channel is 85% full"));
    assert!(is_backpressure("applying backpressure to source"));
    assert!(!is_backpressure("channel opened"));
}

#[test]
fn detects_reconnect_and_storm() {
    assert!(is_reconnect("Broker notification of closed consumer"));
    assert!(is_reconnect("connection is not valid: Disconnected"));
    assert!(!is_reconnect("Pipeline health summary"));
    assert!(!is_reconnect_storm(9));
    assert!(is_reconnect_storm(10));
}

#[test]
fn throughput_collapse_vs_idle() {
    // Was doing 230 rps, dropped to 0 → collapse.
    let collapsed = vec![
        r#"{"level":"INFO","fields":{"message":"Pipeline health summary","throughput_rps":230}}"#
            .to_string(),
        r#"{"level":"INFO","fields":{"message":"Pipeline health summary","throughput_rps":0}}"#
            .to_string(),
    ];
    assert!(aggregate_log_stats(&collapsed, 5).throughput_collapsed);

    // Idle since start (0 → 0) → NOT a collapse.
    let idle = vec![
        r#"{"level":"INFO","fields":{"message":"Pipeline health summary","throughput_rps":0}}"#
            .to_string(),
        r#"{"level":"INFO","fields":{"message":"Pipeline health summary","throughput_rps":0}}"#
            .to_string(),
    ];
    assert!(!aggregate_log_stats(&idle, 5).throughput_collapsed);
}

#[test]
fn aggregator_counts_new_signals() {
    let lines = vec![
        r#"{"level":"WARN","fields":{"message":"HIGH MEMORY WARNING — RSS exceeds 70%, OOM kill imminent"}}"#.to_string(),
        r#"{"level":"WARN","fields":{"message":"decoded_channel is 85% full"}}"#.to_string(),
        r#"{"level":"WARN","fields":{"message":"Broker notification of closed consumer"}}"#.to_string(),
    ];
    let s = aggregate_log_stats(&lines, 5);
    assert_eq!(s.oom_warnings, 1);
    assert_eq!(s.backpressure, 1);
    assert_eq!(s.reconnects, 1);
}

#[test]
fn detects_transform_error_class() {
    assert!(is_transform_error("Primary transform/DQ error — capturing dropped rows to DLQ"));
    assert!(is_transform_error("DataFusion error: SQL error: ParserError(...)"));
    assert!(is_transform_error("capturing dropped rows to DLQ"));
    // Unrelated errors don't trigger it.
    assert!(!is_transform_error("Consumer: connection is not valid: Disconnected"));
    assert!(!is_transform_error("Pipeline health summary"));
}

#[test]
fn aggregator_counts_transform_errors() {
    let lines = vec![
        r#"{"level":"WARN","fields":{"message":"Primary transform/DQ error — capturing dropped rows to DLQ","error":"DataFusion error: SQL error: ParserError"}}"#.to_string(),
        r#"{"level":"WARN","fields":{"message":"Primary transform/DQ error — capturing dropped rows to DLQ"}}"#.to_string(),
        r#"{"level":"INFO","fields":{"message":"Pipeline health summary","rss_mb":100}}"#.to_string(),
    ];
    let stats = aggregate_log_stats(&lines, 5);
    assert_eq!(stats.transform_errors, 2);
}

#[test]
fn per_pod_transform_error_attribution() {
    let logs = vec![
        PodLogs {
            pod: "pod-good".to_string(),
            lines: vec![r#"{"level":"INFO","fields":{"message":"all fine"}}"#.to_string()],
        },
        PodLogs {
            pod: "pod-bad".to_string(),
            lines: vec![
                r#"{"level":"WARN","fields":{"message":"capturing dropped rows to DLQ"}}"#
                    .to_string(),
            ],
        },
    ];
    let flagged = pods_with_transform_errors(&logs);
    assert_eq!(flagged, vec!["pod-bad"]);
}

#[test]
fn log_line_summary_extracts_level_and_message() {
    let line = r#"{"timestamp":"2026-07-31T08:12:32Z","level":"WARN","fields":{"message":"transform lane Zerobus write error","error":"schema validation failed"},"target":"ssync::sink"}"#;
    let s = log_line_summary(line, 60);
    assert!(s.starts_with("WARN"));
    assert!(s.contains("transform lane Zerobus write error"));
    // Non-JSON falls back to the raw (truncated) line.
    assert_eq!(log_line_summary("plain text here", 60), "plain text here");
}

#[test]
fn log_line_summary_truncates() {
    let long = format!(r#"{{"level":"WARN","fields":{{"message":"{}"}}}}"#, "x".repeat(200));
    let s = log_line_summary(&long, 40);
    assert!(s.chars().count() <= 40);
    assert!(s.ends_with('…'));
}

#[test]
fn pretty_log_line_expands_fields() {
    let line = r#"{"timestamp":"2026-07-31T08:12:32Z","level":"ERROR","fields":{"message":"Stream setup failed","error":"Client field '_ssync_record_id' does not exist in Delta schema"},"target":"ssync::sink::zerobus"}"#;
    let out = pretty_log_line(line);
    let joined = out.join("\n");
    assert!(joined.contains("timestamp: 2026-07-31T08:12:32Z"));
    assert!(joined.contains("level:     ERROR"));
    assert!(joined.contains("message:   Stream setup failed"));
    // The full error — the whole point — is present, untruncated.
    assert!(joined.contains("Client field '_ssync_record_id' does not exist in Delta schema"));
    // Non-JSON returns as-is.
    assert_eq!(pretty_log_line("not json"), vec!["not json"]);
}

#[test]
fn labels_discovery_harvests_and_suggests() {
    let pods = vec![
        labels(&[("app.kubernetes.io/name", "consumer"), ("pod-template-hash", "abc")]),
        labels(&[("app.kubernetes.io/name", "consumer"), ("pod-template-hash", "def")]),
    ];
    let d = labels_discovery("ns", &pods);
    match d {
        Discovery::Labels { namespace, keys, suggestion } => {
            assert_eq!(namespace, "ns");
            // app.kubernetes.io/name has one distinct value; hash has two.
            let name_vals = keys.iter().find(|(k, _)| k == "app.kubernetes.io/name").unwrap();
            assert_eq!(name_vals.1, vec!["consumer"]);
            let hash_vals = keys.iter().find(|(k, _)| k == "pod-template-hash").unwrap();
            assert_eq!(hash_vals.1.len(), 2);
            // Suggestion picks the single-valued app label.
            assert_eq!(suggestion.as_deref(), Some("app.kubernetes.io/name=consumer"));
        }
        _ => panic!("expected Labels"),
    }
}

#[test]
fn no_suggestion_when_app_label_ambiguous() {
    // app label has two distinct values → ambiguous → no suggestion.
    let pods = vec![labels(&[("app", "a")]), labels(&[("app", "b")])];
    match labels_discovery("ns", &pods) {
        Discovery::Labels { suggestion, .. } => assert!(suggestion.is_none()),
        _ => panic!("expected Labels"),
    }
}

#[test]
fn format_discovery_caps_values() {
    // 10 distinct values for one key → capped at 6 with "+4 more".
    let pods: Vec<Labels> = (0..10).map(|i| vec![("k".to_string(), format!("v{i}"))]).collect();
    let text = format_discovery(&labels_discovery("ns", &pods));
    assert!(text.contains("+4 more"), "high-cardinality values are capped");
}

#[test]
fn format_discovery_lists_namespaces() {
    let d = Discovery::Namespaces(vec!["a".to_string(), "b".to_string()]);
    let text = format_discovery(&d);
    assert!(text.contains("Available namespaces"));
    assert!(text.contains("  a") && text.contains("  b"));
}

#[test]
fn distinct_images_detects_split() {
    let pods = vec![
        pod("a", 1, 1, 0, 100, "img:1", false),
        pod("b", 1, 1, 0, 100, "img:2", false),
        pod("c", 1, 1, 0, 100, "img:1", false),
    ];
    assert_eq!(distinct_images(&pods), vec!["img:1", "img:2"]);
}

#[test]
fn rollout_skew_spans_ages() {
    let pods = vec![pod("a", 1, 1, 0, 100, "i", false), pod("b", 1, 1, 0, 340, "i", false)];
    assert_eq!(rollout_skew_secs(&pods), Some(240));
}

#[test]
fn config_assertions_pass_and_fail() {
    let cfg = r#"
            batcher_worker_count = 24
            partition_batch_size = 30
            durable = true
            name = "streamer"
        "#;
    let expected = vec![
        ("batcher_worker_count".to_string(), "24".to_string()),
        ("partition_batch_size".to_string(), "99".to_string()), // wrong
        ("name".to_string(), "streamer".to_string()),           // quoted
        ("missing_key".to_string(), "x".to_string()),           // absent
    ];
    let results = assert_config(cfg, &expected);
    assert!(results[0].pass, "24 == 24");
    assert!(!results[1].pass, "30 != 99");
    assert_eq!(results[1].actual.as_deref(), Some("30"));
    assert!(results[2].pass, "quoted value stripped");
    assert!(!results[3].pass && results[3].actual.is_none(), "absent key fails");
}

#[test]
fn config_value_strips_inline_comment() {
    let cfg = "batcher_worker_count = 24  # tuned for prod\n";
    assert_eq!(find_toml_value(cfg, "batcher_worker_count").as_deref(), Some("24"));
}

#[test]
fn log_scan_categorises_signals() {
    let logs = "\
            2026-07-30 subscribing to 90 partitions\n\
            2026-07-30 ERROR failed to decode\n\
            2026-07-30 batcher_worker_count=24\n\
            2026-07-30 java.lang.OutOfMemory OOMKilled exit 137\n\
            2026-07-30 all good\n";
    let signals = scan_log_signals("pod-1", logs);
    let kinds: Vec<&str> = signals.iter().map(|s| s.kind.as_str()).collect();
    assert!(kinds.contains(&"ramp"));
    assert!(kinds.contains(&"error"));
    assert!(kinds.contains(&"config"));
    assert!(kinds.contains(&"OOM"));
    assert!(signals.iter().all(|s| s.pod == "pod-1"));
}

#[test]
fn aggregates_otel_log_stats() {
    // Shaped like the real OTEL JSON: level, fields.message, rss_mb, rps.
    let lines: Vec<String> = vec![
        r#"{"level":"ERROR","fields":{"message":"Broker notification of closed consumer 27: [27 - sub(consumer_JlObSTqT): persistent://a/b/c-partition-2]"}}"#.to_string(),
        r#"{"level":"ERROR","fields":{"message":"Broker notification of closed consumer 36: [36 - sub(consumer_j7ka0hCw): persistent://a/b/c-partition-3]"}}"#.to_string(),
        r#"{"level":"ERROR","fields":{"message":"TopicConsumer::subscribe(x) answered ServiceNotReady"}}"#.to_string(),
        r#"{"level":"INFO","fields":{"message":"subscribe success after 2 retries"}}"#.to_string(),
        r#"{"level":"INFO","fields":{"message":"Pipeline health summary","rss_mb":232,"throughput_rps":"0"}}"#.to_string(),
        r#"{"level":"INFO","fields":{"message":"Pipeline health summary","rss_mb":1716,"throughput_rps":"0"}}"#.to_string(),
        "not json at all".to_string(),
    ];
    let stats = aggregate_log_stats(&lines, 5);
    assert_eq!(stats.total, 7);

    // Level counts: 3 ERROR, 3 INFO.
    let err = stats.by_level.iter().find(|(l, _)| l == "ERROR").map(|(_, c)| *c);
    assert_eq!(err, Some(3));

    // The two "closed consumer" messages normalise to one entry, count 2.
    let closed = stats
        .top_messages
        .iter()
        .find(|(m, _)| m.contains("closed consumer"))
        .map(|(_, c)| *c);
    assert_eq!(closed, Some(2), "volatile ids collapse into one message");

    // Operational tallies.
    let ops: HashMap<_, _> = stats.operational.iter().cloned().collect();
    assert_eq!(ops.get("consumer closed by broker"), Some(&2));
    assert_eq!(ops.get("subscribe failed (ServiceNotReady)"), Some(&1));
    assert_eq!(ops.get("subscribe ok"), Some(&1));

    // RSS trend captured first→last.
    assert_eq!(stats.rss_first_mb, Some(232));
    assert_eq!(stats.rss_last_mb, Some(1716));
    assert_eq!(stats.last_throughput_rps, Some(0));
}

#[test]
fn normalise_collapses_volatile_tokens() {
    let a = normalise_message("closed consumer 27 topic persistent://a/b/c-partition-2");
    let b = normalise_message("closed consumer 36 topic persistent://a/b/c-partition-9");
    assert_eq!(a, b, "ids and partition numbers normalised away");
}

#[test]
fn correlation_hint_prioritises_oom() {
    let mut report = KubeReport::empty("ns");
    report.pods =
        vec![pod("a", 0, 1, 5, 100, "i", true), pod("b", 1, 1, 0, 100, "i", false)];
    report.images = distinct_images(&report.pods);
    assert_eq!(correlation_hint(&report, true).as_deref(), Some("kube: 1 pod(s) OOM-killed"));
    // A healthy topic gets no hint even if pods are unhealthy.
    assert!(correlation_hint(&report, false).is_none());
}

#[test]
fn correlation_hint_none_when_unreachable() {
    let report = KubeReport::unreachable("ns", "connection refused".to_string());
    assert!(correlation_hint(&report, true).is_none());
}

#[test]
fn health_verdict_and_summary() {
    let mut report = KubeReport::empty("ns");
    report.pods = vec![pod("a", 1, 1, 0, 100, "i:1", false)];
    report.images = distinct_images(&report.pods);
    assert!(report.is_healthy());
    assert!(report.summary_line().contains("1/1 pods ready"));

    report.pods.push(pod("b", 0, 1, 9, 100, "i:1", true));
    report.images = distinct_images(&report.pods);
    assert!(!report.is_healthy());
    assert!(report.summary_line().contains("OOM-killed"));
}

// ── Further cases ────────────────────────────────────────────────────────────

fn text_value(s: &str) -> JsonValue {
    JsonValue { text: Some(s.to_string()), integer: None, shown: format!("\"{s}\"") }
}

fn number_value(n: i64) -> JsonValue {
    JsonValue { text: None, integer: Some(n), shown: n.to_string() }
}

fn log_document() -> Vec<JsonEntry> {
    vec![
        JsonEntry { name: "level".to_string(), value: text_value("WARN"), members: None },
        JsonEntry {
            name: "fields".to_string(),
            value: JsonValue { text: None, integer: None, shown: "{..}".to_string() },
            members: Some(vec![
                ("message".to_string(), text_value("slow")),
                ("took_ms".to_string(), number_value(12)),
            ]),
        },
    ]
}

#[test]
fn fractional_cpu_amounts_are_rounded() {
    assert_eq!(parse_cpu_milli("0.0005"), Some(1));
    assert_eq!(parse_cpu_milli("1.2344"), Some(1234));
    assert_eq!(parse_cpu_milli("-1.2346"), Some(-1235));
    assert_eq!(parse_cpu_milli("1e1"), Some(10_000));
    assert_eq!(parse_cpu_milli("250.9m"), None);
    assert_eq!(parse_cpu_milli(""), None);
    assert_eq!(parse_cpu_milli("inf"), Some(i64::MAX));
    assert_eq!(parse_cpu_milli("nan"), Some(0));
    // As a double 0.5005 is a little less, and so is its thousandfold.
    assert_eq!(parse_cpu_milli("0.5005"), Some((0.5005f64 * 1000.0).round() as i64));
    assert_eq!(parse_cpu_milli("0.5005"), Some(500));
}

#[test]
fn memory_suffixes() {
    assert_eq!(parse_mem_bytes("3Ki"), Some(3072));
    assert_eq!(parse_mem_bytes("1Ti"), Some(1 << 40));
    assert_eq!(parse_mem_bytes("2k"), Some(2000));
    assert_eq!(parse_mem_bytes("2G"), Some(2_000_000_000));
    assert_eq!(parse_mem_bytes("1.5Gi"), Some(3 << 29));
    assert_eq!(parse_mem_bytes("Gi"), None);
    // A double just below 1001 loses its fraction.
    assert_eq!(parse_mem_bytes("1.001k"), Some((1.001f64 * 1000.0) as i64));
    assert_eq!(parse_mem_bytes("1.001k"), Some(1000));
    assert_eq!(parse_mem_bytes("1e400P"), Some(i64::MAX));
    assert_eq!(parse_mem_bytes("-0.5Ki"), Some(-512));
}

#[test]
fn cpu_amounts_survive_being_written_and_read() {
    for milli in [0, 1, 999, 1000, 1001, 1500, 64_000] {
        let written = format!("{milli}m");
        assert_eq!(parse_cpu_milli(&written), Some(milli));
    }
    // A half of a tenth goes to the even one.
    assert_eq!(format_cpu(1250), "1.2");
    assert_eq!(format_cpu(0), "0m");
    assert_eq!(format_cpu(999), "999m");
}

#[test]
fn signals_of_a_line_read_its_lower_case() {
    let found = line_signals("p", "OOMKilled", "oomkilled");
    assert!(found.iter().any(|s| s.kind == "OOM" && s.line == "OOMKilled"));
    assert!(line_signals("p", "OOMKilled", "nothing here").is_empty());
    assert!(tells_oom_warning("oom kill imminent"));
    assert!(!tells_oom_warning("OOM KILL IMMINENT"));
    // The case of a message makes no difference.
    assert!(is_oom_warning("OOM KILL IMMINENT"));
}

#[test]
fn operational_events_of_messages() {
    assert_eq!(
        operational_events("broker notification of closed consumer"),
        vec!["consumer closed by broker"]
    );
    assert!(operational_events("quiet").is_empty());
}

#[test]
fn documents_are_summarised_and_expanded() {
    let doc = Some(log_document());
    assert_eq!(document_summary(&doc, "raw", 40), "WARN  slow");
    assert_eq!(document_message(&doc, "raw"), "slow");
    let lines = document_lines(&doc, "raw");
    assert!(lines.contains(&"level:     WARN".to_string()));
    assert!(lines.contains(&"message:   slow".to_string()));
    assert!(lines.iter().any(|l| l.contains("took_ms") && l.contains("12")));
    assert_eq!(document_summary(&None, "raw", 40), "raw");
    assert_eq!(document_message(&None, "raw"), "raw");
    assert_eq!(document_lines(&None, "raw"), vec!["raw"]);
    assert_eq!(line_message(r#"{"fields":{"message":"hello"}}"#), "hello");
    assert_eq!(line_message("hello"), "hello");
}

#[test]
fn truncation_marks_what_it_cuts() {
    assert_eq!(truncate_str("abcdef", 6), "abcdef");
    assert_eq!(truncate_str("abcdefg", 6), "abcde…");
}

#[test]
fn pods_are_flagged_once() {
    let logs = vec![
        PodLogs {
            pod: "a".to_string(),
            lines: vec!["memory pressure".to_string(), "memory pressure".to_string()],
        },
        PodLogs { pod: "b".to_string(), lines: vec!["fine".to_string()] },
    ];
    assert_eq!(pods_matching(&logs, is_oom_warning), vec!["a"]);
}

#[test]
fn tallies_are_sorted_by_count() {
    let list: Vec<String> = ["a", "b", "b", "c", "b", "c"].iter().map(|s| s.to_string()).collect();
    let counts = sort_desc(&list);
    assert_eq!(
        counts,
        vec![("b".to_string(), 3), ("c".to_string(), 2), ("a".to_string(), 1)]
    );
}

#[test]
fn facts_are_tallied() {
    let fact = |message: &str, rps: Option<i64>| LogFact {
        level: Some("INFO".to_string()),
        message: message.to_string(),
        lower: message.to_lowercase(),
        rss_mb: None,
        throughput_rps: rps,
    };
    let facts = vec![fact("consumer 1 up", Some(5)), fact("consumer 2 up", Some(0))];
    let stats = aggregate_facts(&facts, 3, 5);
    assert_eq!(stats.total, 3);
    assert_eq!(stats.by_level, vec![("INFO".to_string(), 2)]);
    assert_eq!(stats.top_messages.len(), 1);
    assert_eq!(stats.top_messages[0].1, 2);
    assert!(stats.throughput_collapsed);
}

#[test]
fn messages_are_cut_between_characters_only() {
    let plain = "x ".repeat(100);
    assert!(normalise_message(&plain).ends_with("..."));
    assert_eq!(normalise_message(&plain).len(), 120);
    // A two-byte letter across the place of the cut.
    let across = format!("{}é{}", "x".repeat(116), "y".repeat(10));
    assert_eq!(normalise_message(&across), format!("{}...", "x".repeat(116)));
    let line = format!(r#"{{"level":"INFO","fields":{{"message":"{across}"}}}}"#);
    assert_eq!(aggregate_log_stats(&vec![line], 5).top_messages.len(), 1);
}

#[test]
fn selector_needs_a_single_value() {
    let keys = vec![
        ("app".to_string(), vec!["a".to_string(), "b".to_string()]),
        ("k8s-app".to_string(), vec!["x".to_string()]),
    ];
    let one = vec![("app".to_string(), vec!["a".to_string()])];
    assert_eq!(suggest_selector(&one).as_deref(), Some("app=a"));
    assert_eq!(
        suggest_selector(&keys).as_deref(),
        Some("k8s-app=x")
    );
    assert_eq!(suggest_selector(&Vec::new()), None);
}

#[test]
fn skew_past_the_largest_integer_is_announced() {
    let pods = vec![
        pod("a", 1, 1, 0, i64::MAX, "i", false),
        pod("b", 1, 1, 0, -1, "i", false),
    ];
    assert!(!skew_countable(&pods));
    assert!(skew_countable(&vec![pod("a", 1, 1, 0, i64::MAX, "i", false)]));
    assert_eq!(rollout_skew_secs(&vec![pod("a", 1, 1, 0, i64::MAX, "i", false)]), Some(0));
}

#[test]
fn comments_behind_settings_are_stripped() {
    let value = |body: &str| find_toml_value(body, "name");
    assert_eq!(value("name = \"streamer\"  # prod\n").as_deref(), Some("streamer"));
    assert_eq!(value("name = \"a # b\"").as_deref(), Some("a # b"));
    assert_eq!(value("name = \"a # b\" # c").as_deref(), Some("a # b"));
    assert_eq!(value("name = \"say \\\"x\\\" # y\"").as_deref(), Some("say \\\"x\\\" # y"));
    assert_eq!(value("name = 24 # workers").as_deref(), Some("24"));
    assert_eq!(value("name = 24\t# workers").as_deref(), Some("24"));
    assert_eq!(value("name = a#b").as_deref(), Some("a#b"));
}

#[test]
fn a_collapse_goes_from_work_to_none() {
    let line = |rps: u32| format!(r#"{{"fields":{{"throughput_rps":"{rps}"}}}}"#);
    assert!(has_collapsed(&vec![line(50), line(0)]));
    assert!(!has_collapsed(&vec![line(0), line(0)]));
    assert!(!has_collapsed(&vec![line(0), line(50)]));
    assert!(!has_collapsed(&vec![]));
}

#[test]
fn tenths_of_cores_are_read_back() {
    for milli in [1_100, 1_500, 12_300, 999_900, 123_456_700, 999_999_900, 1_000_000_000] {
        let text = format_cpu(milli);
        assert!(!text.ends_with('m'));
        assert_eq!(parse_cpu_milli(&text), Some(milli));
    }
    for milli in [-5, 0, 1, 250, 999] {
        let text = format_cpu(milli);
        assert!(text.ends_with('m'));
        assert_eq!(parse_cpu_milli(&text), Some(milli));
    }
}

#[test]
fn surroundings_and_case_hide_no_transform_error() {
    let message = "Transform/DQ error";
    assert!(is_transform_error(message));
    assert!(is_transform_error(&format!("[worker 3] {message}: row 17")));
    assert!(is_transform_error(&message.to_ascii_uppercase()));
    assert!(is_transform_error(&format!("Ünïcode {message} Σ")));
    assert!(!is_transform_error("transform done"));
    // The Kelvin sign is a capital of an ASCII letter.
    assert!(is_backpressure("BAC\u{212a}PRESSURE"));
    assert!(is_transform_error("ΟΔΥΣΣΕΥΣ SQL ERROR ΟΔΥΣΣΕΥΣ"));
}
