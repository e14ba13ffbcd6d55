use pulsar_topic_health::config::{MetricsConfig, WatchConfig};
use pulsar_topic_health::cycle::metric_summary;
use pulsar_topic_health::metrics::{
    aggregate_value, arrow, capture_file, capture_name, capture_record, curated_series,
    default_specs, format_summary, json_string, name_matches, parse_prometheus,
    threshold_breached, watch_specs, Direction, MetricCategory, MetricHistory, MetricKind,
    MetricSpec, MetricVerdict, MetricsTracker, Polarity, Sample, Series,
};
use pulsar_topic_health::number::Double;

fn double(x: f64) -> Double {
    Double { bits: x.to_bits() }
}

fn number(d: Double) -> f64 {
    f64::from_bits(d.bits)
}

fn sample(name: &str, labels: &[(&str, &str)], value: f64) -> Sample {
    Sample {
        name: name.to_string(),
        labels: labels.iter().map(|l| (l.0.to_string(), l.1.to_string())).collect(),
        value: double(value),
    }
}

fn spec(
    name: &str,
    label: &str,
    polarity: Polarity,
    threshold: Option<f64>,
    kind: MetricKind,
    category: MetricCategory,
) -> MetricSpec {
    MetricSpec {
        name: name.to_string(),
        label: label.to_string(),
        polarity,
        threshold: threshold.map(double),
        kind,
        category,
    }
}

#[test]
fn tracker_accumulates_and_summarises() {
    let mut t = MetricsTracker::new(5, default_specs());
    let scrape1 = "ssync_pulsar_consumer_lag 100\nssync_throughput_rate 50";
    let scrape2 = "ssync_pulsar_consumer_lag 200\nssync_throughput_rate 40";
    t.observe("pod-a", scrape1, double(0.01));
    let line = t.observe("pod-a", scrape2, double(0.01));
    // Lag rose (bad), throughput fell (bad) → both flagged.
    assert!(line.contains("metrics[pod-a]"));
    assert!(line.contains("consumer lag=200"));
    let verdicts = t.verdicts_for("pod-a", double(0.01));
    let lag = verdicts.iter().find(|v| v.label == "consumer lag").unwrap();
    assert!(lag.worsening);
}

#[test]
fn capture_record_is_valid_jsonish() {
    let samples = vec![sample("m", &[("t", "x")], 1.5), sample("n", &[], 2.0)];
    let texts: Vec<String> = samples.iter().map(|s| format!("{}", number(s.value))).collect();
    let rec = capture_record("2026-07-31T00:00:00Z", "pod-a", &samples, &texts);
    assert!(rec.starts_with("{\"as_of\":\"2026-07-31T00:00:00Z\",\"pod\":\"pod-a\""));
    assert!(rec.contains("\"m{t=\\\"x\\\"}\":1.5"));
    assert!(rec.contains("\"n\":2"));
}

#[test]
fn counter_metrics_shown_as_rate() {
    // A counter spec: verdict value should be the per-scrape delta, not the
    // cumulative total.
    let specs = vec![spec(
        "ssync_records_written_total",
        "written/s",
        Polarity::HigherBetter,
        Some(100.0),
        MetricKind::Counter,
        MetricCategory::Throughput,
    )];
    let mut h = MetricHistory::default();
    // Cumulative totals 1000 → 1150 → 1300: rate is 150/scrape.
    for total in [1000.0, 1150.0, 1300.0] {
        let samples = vec![sample("ssync_records_written_total", &[], total)];
        h.update(&samples, &specs, 5);
    }
    let v = h.verdicts(&specs, double(0.01));
    let written = v.iter().find(|x| x.label == "written/s").unwrap();
    assert!(written.is_rate, "counter should be flagged as a rate");
    assert_eq!(number(written.value), 150.0, "value should be the per-scrape rate");
    assert!(!written.breached, "150/s is above the 100 floor");
}

#[test]
fn parses_labeled_and_bare_lines() {
    let text = "\
# HELP ssync_throughput_rate rps
# TYPE ssync_throughput_rate gauge
ssync_throughput_rate 230.5
ssync_pulsar_consumer_lag{topic=\"a\",partition=\"0\"} 1200
ssync_pulsar_consumer_lag{topic=\"a\",partition=\"1\"} 800

malformed line with no value structure that still has spaces
ssync_pipeline_unhealthy 0";
    let samples = parse_prometheus(text);
    // Four lines are samples: in the malformed one "line" is no number.
    let rate = samples.iter().find(|s| s.name == "ssync_throughput_rate").unwrap();
    assert_eq!(number(rate.value), 230.5);
    assert!(rate.labels.is_empty());
    let lag: Vec<&Sample> =
        samples.iter().filter(|s| s.name == "ssync_pulsar_consumer_lag").collect();
    assert_eq!(lag.len(), 2);
    // Labels are sorted.
    assert_eq!(lag[0].labels[0].0, "partition");
    assert_eq!(lag[0].labels[1].0, "topic");
}

#[test]
fn series_key_is_stable() {
    let mut s = sample("m", &[("b", "2"), ("a", "1")], 1.0);
    // The labels of a scraped sample come sorted.
    s.labels.sort();
    assert_eq!(s.series_key(), "m{a=\"1\",b=\"2\"}");
}

#[test]
fn instant_and_rolling_direction() {
    let mut s = Series::default();
    for v in [100.0, 110.0, 120.0, 130.0] {
        s.push(double(v), 10);
    }
    assert_eq!(s.instant_direction(double(0.01)), Direction::Up);
    assert_eq!(s.rolling_direction(double(0.01)), Direction::Up);
    assert_eq!(s.current().map(number), Some(130.0));

    // A tiny wobble reads as flat.
    let mut f = Series::default();
    f.push(double(1000.0), 10);
    f.push(double(1002.0), 10); // 0.2% < 1% eps
    assert_eq!(f.instant_direction(double(0.01)), Direction::Flat);
}

#[test]
fn window_caps_history() {
    let mut s = Series::default();
    for v in 0..10 {
        s.push(double(v as f64), 3);
    }
    // Only the last 3 kept.
    assert_eq!(s.current().map(number), Some(9.0));
    assert_eq!(s.previous().map(number), Some(8.0));
    assert_eq!(s.values.len(), 3);
}

#[test]
fn counter_rate_and_reset() {
    let mut s = Series::default();
    s.push(double(100.0), 5);
    s.push(double(150.0), 5);
    assert_eq!(s.counter_rate().map(number), Some(50.0));
    // Reset (counter went down) → None.
    s.push(double(10.0), 5);
    assert_eq!(s.counter_rate(), None);
}

#[test]
fn verdicts_flag_worsening_by_polarity() {
    let mut h = MetricHistory::default();
    let specs = default_specs();
    // Lag climbing (LowerBetter) → worsening. Throughput climbing → improving.
    for (lag, tput) in [(100.0, 50.0), (200.0, 60.0), (300.0, 70.0)] {
        let samples = vec![
            sample("ssync_pulsar_consumer_lag", &[], lag),
            sample("ssync_throughput_rate", &[], tput),
        ];
        h.update(&samples, &specs, 5);
    }
    let v = h.verdicts(&specs, double(0.01));
    let lag = v.iter().find(|x| x.label == "consumer lag").unwrap();
    assert!(lag.worsening, "climbing lag should be worsening");
    let tput = v.iter().find(|x| x.label == "throughput rps").unwrap();
    assert!(tput.improving, "climbing throughput should be improving");
    // Worst-first ordering: the worsening metric sorts before the improving one.
    assert_eq!(v[0].label, "consumer lag");
}

#[test]
fn custom_specs_and_thresholds() {
    // Operator watches one metric with a threshold; breach outranks trend.
    let specs = vec![
        spec(
            "ssync_pulsar_consumer_lag",
            "lag",
            Polarity::LowerBetter,
            Some(1000.0),
            MetricKind::Gauge,
            MetricCategory::Consumer,
        ),
        spec(
            "ssync_throughput_rate",
            "tput",
            Polarity::HigherBetter,
            Some(100.0),
            MetricKind::Gauge,
            MetricCategory::Throughput,
        ),
    ];
    let mut h = MetricHistory::default();
    // Lag under threshold, then over; throughput below its floor.
    for (lag, tput) in [(500.0, 50.0), (1500.0, 40.0)] {
        let samples = vec![
            sample("ssync_pulsar_consumer_lag", &[], lag),
            sample("ssync_throughput_rate", &[], tput),
        ];
        h.update(&samples, &specs, 5);
    }
    let v = h.verdicts(&specs, double(0.01));
    // Only the two configured metrics appear (not the whole curated set).
    assert_eq!(v.len(), 2);
    let lag = v.iter().find(|x| x.label == "lag").unwrap();
    assert!(lag.breached, "lag 1500 > threshold 1000 should breach");
    let tput = v.iter().find(|x| x.label == "tput").unwrap();
    assert!(tput.breached, "throughput 40 < floor 100 should breach");
}

#[test]
fn threshold_breach_direction() {
    let breached =
        |v: f64, t: Option<f64>, p: Polarity| threshold_breached(double(v), t.map(double), p);
    // lower_better: breach when above.
    assert!(breached(150.0, Some(100.0), Polarity::LowerBetter));
    assert!(!breached(50.0, Some(100.0), Polarity::LowerBetter));
    // higher_better: breach when below.
    assert!(breached(40.0, Some(100.0), Polarity::HigherBetter));
    assert!(!breached(150.0, Some(100.0), Polarity::HigherBetter));
    // no threshold never breaches.
    assert!(!breached(999.0, None, Polarity::LowerBetter));
}

#[test]
fn aggregates_labeled_series() {
    // Per-partition lag sums into one headline value.
    let samples = vec![
        sample("ssync_pulsar_consumer_lag", &[("partition", "0")], 1200.0),
        sample("ssync_pulsar_consumer_lag", &[("partition", "1")], 800.0),
    ];
    assert_eq!(aggregate_value(&samples, "ssync_pulsar_consumer_lag").map(number), Some(2000.0));
}

#[test]
fn name_matches_tolerates_exporter_suffixes() {
    // Exact.
    assert!(name_matches("ssync_decoded_channel_depth", "ssync_decoded_channel_depth"));
    // Single _total (counter convention).
    assert!(name_matches("ssync_batches_flushed_total", "ssync_batches_flushed"));
    // Double _total (config already ended in _total, exporter added another).
    assert!(name_matches("ssync_sink_records_sent_total_total", "ssync_sink_records_sent_total"));
    // Unit + total combo.
    assert!(name_matches("ssync_bytes_received_total_bytes_total", "ssync_bytes_received_total"));
    // Unit only.
    assert!(name_matches("ssync_memory_rss_bytes_bytes", "ssync_memory_rss_bytes"));
    // A different metric sharing a prefix must NOT match.
    assert!(!name_matches("ssync_batch_size_count", "ssync_batch"));
    assert!(!name_matches("ssync_batcher_channel_depth", "ssync_batch"));
    // Non-suffix trailing text must not match.
    assert!(!name_matches("ssync_batch_extra", "ssync_batch"));
}

#[test]
fn aggregate_finds_suffixed_counter() {
    let samples = vec![sample("ssync_sink_records_sent_total_total", &[], 4200.0)];
    // Configured without the exporter's extra _total.
    assert_eq!(aggregate_value(&samples, "ssync_sink_records_sent_total").map(number), Some(4200.0));
}

#[test]
fn aggregate_excludes_histogram_components() {
    let samples = vec![
        sample("ssync_batch_size_bucket", &[("le", "10")], 99.0),
        sample("ssync_batch_size_count", &[], 5.0),
        sample("ssync_batch_size_sum", &[], 50.0),
    ];
    // None of the histogram components should match a scalar "ssync_batch_size".
    assert_eq!(aggregate_value(&samples, "ssync_batch_size"), None);
}

#[test]
fn absent_metric_emits_no_data_verdict() {
    // Configure two metrics; scrape returns only one. The absent one still
    // gets a verdict, marked not-present.
    let specs = vec![
        spec(
            "ssync_present_one",
            "present",
            Polarity::LowerBetter,
            None,
            MetricKind::Gauge,
            MetricCategory::Health,
        ),
        spec(
            "ssync_missing_one",
            "missing",
            Polarity::LowerBetter,
            None,
            MetricKind::Gauge,
            MetricCategory::Health,
        ),
    ];
    let mut h = MetricHistory::default();
    let samples = vec![sample("ssync_present_one", &[], 5.0)];
    h.update(&samples, &specs, 5);
    let v = h.verdicts(&specs, double(0.01));
    assert_eq!(v.len(), 2, "both configured metrics get a verdict");
    let present = v.iter().find(|x| x.label == "present").unwrap();
    assert!(present.present);
    let missing = v.iter().find(|x| x.label == "missing").unwrap();
    assert!(!missing.present, "absent metric marked not present");
    // Absent sorts after present.
    assert_eq!(v.last().unwrap().label, "missing");
}

#[test]
fn higher_better_at_zero_is_stalled() {
    let specs = vec![spec(
        "ssync_throughput_rate",
        "tput",
        Polarity::HigherBetter,
        None,
        MetricKind::Gauge,
        MetricCategory::Throughput,
    )];
    let mut h = MetricHistory::default();
    for v in [0.0, 0.0] {
        let samples = vec![sample("ssync_throughput_rate", &[], v)];
        h.update(&samples, &specs, 5);
    }
    let verdicts = h.verdicts(&specs, double(0.01));
    let t = verdicts.iter().find(|x| x.label == "tput").unwrap();
    assert!(t.stalled, "higher-better metric at 0 should be flagged stalled");
    assert!(!t.changed, "0 → 0 didn't change");
}

fn verdict(label: &str, value: f64) -> MetricVerdict {
    MetricVerdict {
        label: label.to_string(),
        value: double(value),
        instant: Direction::Up,
        rolling: Direction::Up,
        worsening: true,
        improving: false,
        breached: false,
        is_rate: false,
        category: MetricCategory::Consumer,
        changed: true,
        stalled: false,
        present: true,
    }
}

#[test]
fn summary_formats_with_arrows() {
    let verdicts = vec![verdict("consumer lag", 2000.0)];
    let s = format_summary("pod-a", &verdicts);
    assert!(s.contains("metrics[pod-a]"));
    assert!(s.contains("consumer lag=2000↑ ⚠"));
}

// ── Further cases ────────────────────────────────────────────────────────────

#[test]
fn summary_marks_by_urgency() {
    let mut v = vec![verdict("a", 0.5), verdict("b", 1.5), verdict("c", 2.0), verdict("d", -0.4)];
    v[0].breached = true;
    v[1].worsening = false;
    v[1].stalled = true;
    v[1].is_rate = true;
    v[2].worsening = false;
    v[2].improving = true;
    v[2].changed = false;
    v[3].present = false;
    // A half is rounded to the even number.
    assert_eq!(
        format_summary("p", &v),
        "metrics[p]: a=0↑ ‼ b=2/s↑ ⊘ c=2 ✓ d=(no data)"
    );
    assert_eq!(arrow(Direction::Down), "↓");
    assert_eq!(arrow(Direction::Flat), "");
}

#[test]
fn values_of_scraped_lines() {
    let got = parse_prometheus("a 1e3\nb{x=\"1\"} +Inf\nc NaN\nd 0x10\ne\n  f   7  99\n");
    let names: Vec<&str> = got.iter().map(|s| s.name.as_str()).collect();
    assert_eq!(names, vec!["a", "b", "c", "f"]);
    assert_eq!(number(got[0].value), 1000.0);
    assert_eq!(number(got[1].value), f64::INFINITY);
    assert!(number(got[2].value).is_nan());
    assert_eq!(number(got[3].value), 7.0);
}

#[test]
fn sums_are_those_of_doubles() {
    let samples = vec![sample("m", &[], 0.1), sample("m", &[], 0.2), sample("m", &[], 1e16)];
    assert_eq!(aggregate_value(&samples, "m").map(number), Some(0.1 + 0.2 + 1e16));
    let samples = vec![sample("m", &[], 0.1), sample("m", &[], 0.2)];
    assert_eq!(aggregate_value(&samples, "m").map(number), Some(0.1 + 0.2));
}

#[test]
fn movement_between_the_halves() {
    let mut s = Series::default();
    // One spike among the older values.
    for v in [10.0, 100.0, 10.0, 10.0, 10.0] {
        s.push(double(v), 10);
    }
    assert_eq!(s.rolling_direction(double(0.01)), Direction::Down);
    assert_eq!(s.instant_direction(double(0.01)), Direction::Flat);
    // Next to zero a billionth is noise.
    let mut z = Series::default();
    z.push(double(0.0), 10);
    z.push(double(1e-10), 10);
    assert_eq!(z.instant_direction(double(0.01)), Direction::Flat);
    z.push(double(-1.0), 10);
    assert_eq!(z.instant_direction(double(0.01)), Direction::Down);
    assert_eq!(z.counter_rate(), None);
}

#[test]
fn not_a_number_counts_for_nothing() {
    let samples = vec![sample("m", &[], f64::NAN), sample("m", &[], f64::INFINITY)];
    assert_eq!(aggregate_value(&samples, "m"), None);
    assert!(!threshold_breached(double(f64::NAN), Some(double(1.0)), Polarity::LowerBetter));
    assert!(!threshold_breached(double(f64::NAN), Some(double(1.0)), Polarity::HigherBetter));
}

#[test]
fn no_specs_means_the_curated_ones() {
    let t = MetricsTracker::new(0, Vec::new());
    assert_eq!(t.window, 1);
    assert_eq!(t.specs.len(), curated_series().len());
    assert_eq!(t.specs[0].name, curated_series()[0].0);
    assert!(t.verdicts_for("nobody", double(0.01)).is_empty());
}

#[test]
fn watched_metrics_are_labelled_by_name() {
    let config = MetricsConfig {
        enabled: true,
        port: 9090,
        window: 5,
        capture_dir: None,
        watch: vec![
            WatchConfig {
                name: "m".to_string(),
                label: None,
                polarity: Polarity::Neutral,
                threshold: None,
                kind: MetricKind::default(),
                category: MetricCategory::Health,
            },
            WatchConfig {
                name: "n".to_string(),
                label: Some("shown".to_string()),
                polarity: Polarity::LowerBetter,
                threshold: Some(double(3.0)),
                kind: MetricKind::Counter,
                category: MetricCategory::Consumer,
            },
        ],
    };
    let specs = watch_specs(&config);
    assert_eq!(specs[0].label, "m");
    assert_eq!(specs[1].label, "shown");
    assert_eq!(specs[1].threshold.map(number), Some(3.0));
    assert_eq!(specs[1].kind, MetricKind::Counter);
}

#[test]
fn strings_are_escaped() {
    assert_eq!(json_string("a\"b\\c\n\r\td"), "\"a\\\"b\\\\c\\n\\r\\td\"");
}

#[test]
fn capture_files_are_named_after_the_pod() {
    assert_eq!(capture_file("app-1_x/y.z"), "metrics-app-1_x_y_z.jsonl");
    assert_eq!(capture_file("é!"), "metrics-é_.jsonl");
    assert_eq!(capture_name("ab", &vec![true, false]), "metrics-a_.jsonl");
}

#[test]
fn later_sample_of_a_series_wins_in_a_capture() {
    let samples = vec![
        sample("m", &[], 1.0),
        sample("a", &[], 5.0),
        sample("m", &[], 2.0),
        sample("z", &[], f64::NAN),
    ];
    let texts: Vec<String> = ["1", "5", "2", "NaN"].iter().map(|s| s.to_string()).collect();
    assert_eq!(
        capture_record("t", "p", &samples, &texts),
        "{\"as_of\":\"t\",\"pod\":\"p\",\"metrics\":{\"a\":5,\"m\":2}}"
    );
}

#[test]
fn verdicts_become_lines_of_a_summary() {
    let mut v = vec![verdict("lag", 12.0), verdict("rate", 0.0)];
    v[1].changed = false;
    let s = metric_summary("pod-a", &v, Some("ok".to_string()));
    assert_eq!(s.pod, "pod-a");
    assert_eq!(s.health.as_deref(), Some("ok"));
    assert_eq!(s.lines.len(), 2);
    assert_eq!(s.lines[0].label, "lag");
    assert_eq!(s.lines[0].arrow, "↑");
    assert_eq!(s.lines[0].category, "consumer");
    assert!(s.lines[0].worsening);
}
