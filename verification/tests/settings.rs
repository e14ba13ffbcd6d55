use std::collections::HashMap;

use pulsar_topic_health::config::{
    KubeConfig, MetricsConfig, OutputFormat, Settings,
};
use pulsar_topic_health::settings::{
    apply_settings, choose_admin_url, choose_token, kube_query, merge_kube_settings,
    parse_key_value, parse_topics, resolve_kube, worker_count, Options,
};

fn kc(enabled: bool) -> KubeConfig {
    KubeConfig {
        enabled,
        namespace: Some("cfg-ns".to_string()),
        selector: Some("app=cfg".to_string()),
        configmap: Some("cfg-cm".to_string()),
        log_tail: Some(100),
        assert_pairs: vec![
            ("batch_size".to_string(), "30".to_string()),
            ("worker_count".to_string(), "24".to_string()),
        ],
    }
}

#[test]
fn inactive_when_neither_flag_nor_enabled() {
    let disabled = KubeConfig::default();
    assert!(merge_kube_settings(false, &disabled, None, None, None, None, &vec![]).is_none());
}

#[test]
fn flag_activates_with_defaults() {
    let disabled = KubeConfig::default();
    let r = merge_kube_settings(true, &disabled, None, Some("app=x"), None, None, &vec![])
        .expect("active via flag");
    assert_eq!(r.namespace, "default");
    assert_eq!(r.selector.as_deref(), Some("app=x"));
    assert_eq!(r.log_tail, 200);
}

#[test]
fn config_enabled_activates_without_flag() {
    let r = merge_kube_settings(false, &kc(true), None, None, None, None, &vec![])
        .expect("active via config.enabled");
    assert_eq!(r.namespace, "cfg-ns");
    assert_eq!(r.selector.as_deref(), Some("app=cfg"));
    assert_eq!(r.log_tail, 100);
    assert_eq!(r.assert_pairs.len(), 2);
}

#[test]
fn cli_overrides_config() {
    let r = merge_kube_settings(
        true,
        &kc(true),
        Some("cli-ns"),
        Some("app=cli"),
        Some("cli-cm"),
        Some(500),
        &vec![],
    )
    .unwrap();
    assert_eq!(r.namespace, "cli-ns");
    assert_eq!(r.selector.as_deref(), Some("app=cli"));
    assert_eq!(r.configmap.as_deref(), Some("cli-cm"));
    assert_eq!(r.log_tail, 500);
}

#[test]
fn asserts_merge_cli_wins_on_duplicate() {
    let cli_assert = vec![
        ("worker_count".to_string(), "48".to_string()), // overrides config's 24
        ("new_key".to_string(), "1".to_string()),       // additional
    ];
    let r = merge_kube_settings(true, &kc(true), None, None, None, None, &cli_assert).unwrap();
    let map: HashMap<_, _> = r.assert_pairs.into_iter().collect();
    assert_eq!(map.get("worker_count").map(String::as_str), Some("48"));
    assert_eq!(map.get("batch_size").map(String::as_str), Some("30"));
    assert_eq!(map.get("new_key").map(String::as_str), Some("1"));
}

// ── Further cases ────────────────────────────────────────────────────────────

fn no_options() -> Options {
    Options {
        format: None,
        threshold: None,
        subscription: None,
        admin_url: None,
        concurrency: None,
        timeout_secs: None,
        drain_window_secs: None,
        watch: false,
        tui: false,
        watch_interval_secs: None,
        json_dir: None,
        json_dir_max_files: None,
        problems_only: false,
        kube: false,
        kube_namespace: None,
        kube_selector: None,
        kube_configmap: None,
        kube_assert: Vec::new(),
        kube_log_tail: None,
    }
}

fn metrics(enabled: bool) -> MetricsConfig {
    MetricsConfig { enabled, port: 9090, window: 10, capture_dir: None, watch: Vec::new() }
}

#[test]
fn defaults_where_nothing_is_given() {
    let o = no_options();
    assert_eq!(o.format(), OutputFormat::Table);
    assert_eq!(o.concurrency(), 8);
    assert_eq!(o.timeout_secs(), 30);
    assert_eq!(o.drain_window_secs(), 30);
    assert_eq!(o.watch_interval_secs(), 60);
    assert_eq!(o.json_dir_max_files(), 100);
}

#[test]
fn given_flags_win_over_settings() {
    let mut o = no_options();
    o.concurrency = Some(2);
    let s = Settings {
        format: Some(OutputFormat::Jsonl),
        concurrency: Some(20),
        timeout_secs: Some(5),
        drain_window_secs: None,
        watch: Some(true),
        tui: None,
        watch_interval_secs: Some(15),
        json_dir: Some("out".to_string()),
        json_dir_max_files: None,
        problems_only: Some(true),
    };
    apply_settings(&mut o, &s);
    assert_eq!(o.concurrency(), 2);
    assert_eq!(o.format(), OutputFormat::Jsonl);
    assert_eq!(o.timeout_secs(), 5);
    assert_eq!(o.drain_window_secs(), 30);
    assert!(o.watch && o.problems_only && !o.tui);
    assert_eq!(o.watch_interval_secs(), 15);
    assert_eq!(o.json_dir.as_deref(), Some("out"));
}

#[test]
fn pairs_are_split_at_the_first_equals_sign() {
    assert_eq!(parse_key_value("a=b=c"), Ok(("a".to_string(), "b=c".to_string())));
    assert!(parse_key_value("novalue").is_err());
}

#[test]
fn a_query_needs_a_selector() {
    let mut o = no_options();
    assert!(resolve_kube(&o, &KubeConfig::default()).is_none());
    o.kube = true;
    let k = resolve_kube(&o, &KubeConfig::default()).unwrap();
    match kube_query(k, &metrics(false)) {
        Err(report) => assert!(report.error.is_some()),
        Ok(_) => panic!("no selector was given"),
    }
    let k = resolve_kube(&o, &kc(false)).unwrap();
    match kube_query(k, &metrics(true)) {
        Err(_) => panic!("the configuration has a selector"),
        Ok(q) => {
            assert_eq!(q.namespace, "cfg-ns");
            assert_eq!(q.selector, "app=cfg");
            assert_eq!(q.log_tail, Some(100));
            assert_eq!(q.event_window_secs, 1800);
            assert_eq!(q.metrics_port, Some(9090));
            assert_eq!(q.expected_config.len(), 2);
        }
    }
}

#[test]
fn first_given_choice_is_taken() {
    assert_eq!(choose_token(&Some("a".to_string()), &Some("b".to_string())).as_deref(), Some("a"));
    assert_eq!(choose_token(&None, &Some("b".to_string())).as_deref(), Some("b"));
    assert_eq!(choose_token(&None, &None), None);
    let mut o = no_options();
    assert_eq!(choose_admin_url(&o, &Some("u".to_string())).as_deref(), Some("u"));
    o.admin_url = Some("v".to_string());
    assert_eq!(choose_admin_url(&o, &Some("u".to_string())).as_deref(), Some("v"));
    assert_eq!(choose_admin_url(&no_options(), &None), None);
}

#[test]
fn topics_are_read_or_the_first_bad_one_named() {
    let good = vec!["a/b/c".to_string(), "persistent://a/b/d".to_string()];
    let names: Vec<String> = parse_topics(&good).unwrap().iter().map(|t| t.text()).collect();
    assert_eq!(names, vec!["persistent://a/b/c", "persistent://a/b/d"]);
    let bad = vec!["a/b/c".to_string(), "nope".to_string(), "worse".to_string()];
    assert_eq!(parse_topics(&bad).unwrap_err().0, "nope");
}

#[test]
fn workers_are_never_idle_nor_absent() {
    assert_eq!(worker_count(8, 3), 3);
    assert_eq!(worker_count(2, 30), 2);
    assert_eq!(worker_count(0, 5), 1);
}
