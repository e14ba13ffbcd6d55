use pulsar_topic_health::health::{
    answer_of, classify, evaluate, evaluate_countable, first_check, first_sample, next_step,
    partition_index, partition_topics, sample_backlog, Answer, NextStep, Status, TopicHealth,
};
use pulsar_topic_health::number::Double;
use pulsar_topic_health::pulsar::{
    ConsumerStats, CursorInfo, InternalStats, LedgerInfo, PulsarError, StatsRequest,
    SubscriptionStats, TopicName, TopicStats,
};

fn topic(name: &str) -> TopicName {
    TopicName::parse(name).unwrap()
}

fn sub(name: &str, msg_backlog: i64, unacked: &[i64]) -> (String, SubscriptionStats) {
    (
        name.to_string(),
        SubscriptionStats {
            msg_backlog,
            backlog_size: 0,
            consumers: unacked.iter().map(|n| ConsumerStats { unacked_messages: *n }).collect(),
        },
    )
}

fn stats_of(
    subscriptions: Vec<(String, SubscriptionStats)>,
    partitions: Vec<(&str, Vec<(String, SubscriptionStats)>)>,
) -> TopicStats {
    TopicStats {
        msg_rate_out: Double { bits: 0 },
        subscriptions,
        partitions: partitions
            .into_iter()
            .map(|p| {
                (
                    p.0.to_string(),
                    TopicStats {
                        msg_rate_out: Double { bits: 0 },
                        subscriptions: p.1,
                        partitions: Vec::new(),
                    },
                )
            })
            .collect(),
    }
}

fn empty_internal() -> Vec<(String, InternalStats)> {
    Vec::new()
}

fn internal_map(
    name: &str,
    ledgers: &[(i64, i64)],
    read_position: &str,
    waiting_read_op: bool,
) -> Vec<(String, InternalStats)> {
    vec![(
        name.to_string(),
        InternalStats {
            ledgers: ledgers
                .iter()
                .map(|l| LedgerInfo { ledger_id: l.0, entries: l.1 })
                .collect(),
            cursors: vec![(
                "my-sub".to_string(),
                CursorInfo { read_position: read_position.to_string(), waiting_read_op },
            )],
        },
    )]
}

#[test]
fn trimmed_partition_sets_top_priority_status() {
    // Partition-0 backlog is huge but its cursor points below the ledger
    // floor: the consumer is stuck on trimmed data.
    let stats = stats_of(
        vec![sub("my-sub", 500, &[0])],
        vec![("persistent://a/b/c-partition-0", vec![sub("my-sub", 500, &[0])])],
    );
    let internal = internal_map("persistent://a/b/c-partition-0", &[(20, 100)], "10:5", true);
    let health = evaluate(&topic("a/b/c"), &stats, "my-sub", 100, true, &internal);
    assert_eq!(health.status, Status::Trimmed);
    assert_eq!(health.trimmed_partitions.len(), 1);
    assert!(health.trimmed_partitions[0].waiting_with_backlog);
    // Trimmed outranks the backlog that is also present.
    assert!(!health.hot_partitions.is_empty());
}

#[test]
fn at_edge_partition_recorded_with_min_headroom() {
    let stats = stats_of(
        vec![sub("my-sub", 10, &[0])],
        vec![("persistent://a/b/c-partition-0", vec![sub("my-sub", 10, &[0])])],
    );
    let internal =
        internal_map("persistent://a/b/c-partition-0", &[(20, 100), (30, 50)], "20:7", false);
    let health = evaluate(&topic("a/b/c"), &stats, "my-sub", 100, true, &internal);
    // Cursor in oldest ledger, not stuck: healthy status but edge recorded.
    assert_eq!(health.status, Status::Healthy);
    assert_eq!(health.at_edge_partitions.len(), 1);
    assert_eq!(health.min_headroom, Some(7));
}

#[test]
fn safe_cursor_leaves_status_clean() {
    let stats = stats_of(vec![sub("my-sub", 2, &[0])], vec![]);
    let internal = internal_map("persistent://a/b/c", &[(10, 100), (20, 5)], "20:3", false);
    let health = evaluate(&topic("a/b/c"), &stats, "my-sub", 100, false, &internal);
    assert_eq!(health.status, Status::Healthy);
    assert!(health.trimmed_partitions.is_empty());
    assert!(health.at_edge_partitions.is_empty());
    assert_eq!(health.min_headroom, Some(103));
}

#[test]
fn missing_subscription_is_flagged() {
    let stats = stats_of(vec![sub("other-sub", 1, &[])], vec![]);
    let health = evaluate(&topic("a/b/c"), &stats, "my-sub", 100, false, &empty_internal());
    assert_eq!(health.status, Status::MissingSub);
}

#[test]
fn zero_consumers_is_flagged() {
    let stats = stats_of(vec![sub("my-sub", 5, &[])], vec![]);
    let health = evaluate(&topic("a/b/c"), &stats, "my-sub", 100, false, &empty_internal());
    assert_eq!(health.status, Status::NoConsumers);
}

#[test]
fn hot_partitions_listed_and_sorted() {
    let stats = stats_of(
        vec![sub("my-sub", 700, &[0])],
        vec![
            ("persistent://a/b/c-partition-10", vec![sub("my-sub", 400, &[0])]),
            ("persistent://a/b/c-partition-2", vec![sub("my-sub", 250, &[0])]),
            ("persistent://a/b/c-partition-5", vec![sub("my-sub", 50, &[0])]),
        ],
    );
    let health = evaluate(&topic("a/b/c"), &stats, "my-sub", 100, true, &empty_internal());
    assert_eq!(health.status, Status::Backlog);
    let partitions: Vec<&str> =
        health.hot_partitions.iter().map(|p| p.partition.as_str()).collect();
    assert_eq!(
        partitions,
        vec!["persistent://a/b/c-partition-2", "persistent://a/b/c-partition-10"]
    );
}

#[test]
fn partition_gap_outranks_backlog() {
    let stats = stats_of(
        vec![sub("my-sub", 900, &[0])],
        vec![
            ("persistent://a/b/c-partition-0", vec![sub("my-sub", 900, &[0])]),
            ("persistent://a/b/c-partition-1", vec![]),
        ],
    );
    let health = evaluate(&topic("a/b/c"), &stats, "my-sub", 100, true, &empty_internal());
    assert_eq!(health.status, Status::PartitionGap);
    assert_eq!(health.partition_gaps.len(), 1);
    assert_eq!(health.partition_gaps[0].reason, "subscription_missing");
    assert_eq!(health.hot_partitions.len(), 1);
}

#[test]
fn non_partitioned_topic_over_threshold_reports_itself() {
    let stats = stats_of(vec![sub("my-sub", 250, &[0])], vec![]);
    let health = evaluate(&topic("a/b/c"), &stats, "my-sub", 100, false, &empty_internal());
    assert_eq!(health.status, Status::Backlog);
    assert_eq!(health.hot_partitions[0].backlog, 250);
}

#[test]
fn healthy_topic_is_ok() {
    let stats = stats_of(vec![sub("my-sub", 3, &[2])], vec![]);
    let health = evaluate(&topic("a/b/c"), &stats, "my-sub", 100, false, &empty_internal());
    assert_eq!(health.status, Status::Healthy);
    assert_eq!(health.unacked_messages, Some(2));
    assert!(health.status.is_healthy());
}

#[test]
fn every_partition_has_a_row() {
    let stats = stats_of(
        vec![sub("my-sub", 900, &[0, 3])],
        vec![
            ("persistent://a/b/c-partition-11", vec![sub("my-sub", 1, &[])]),
            ("persistent://a/b/c-partition-1", vec![sub("my-sub", 900, &[1, 2])]),
            ("persistent://a/b/c-partition-0", vec![]),
        ],
    );
    let health = evaluate(&topic("a/b/c"), &stats, "my-sub", 100, true, &empty_internal());
    let rows: Vec<(u32, &str, i64, usize, i64)> = health
        .partitions
        .iter()
        .map(|p| (p.index, p.status, p.backlog, p.consumers, p.unacked_messages))
        .collect();
    assert_eq!(
        rows,
        vec![
            (0, "subscription_missing", 0, 0, 0),
            (1, "hot", 900, 2, 3),
            (11, "no_consumers", 1, 0, 0)
        ]
    );
    let gaps: Vec<(&str, &str)> =
        health.partition_gaps.iter().map(|g| (g.partition.as_str(), g.reason)).collect();
    assert_eq!(
        gaps,
        vec![
            ("persistent://a/b/c-partition-0", "subscription_missing"),
            ("persistent://a/b/c-partition-11", "no_consumers")
        ]
    );
    assert_eq!(health.unacked_messages, Some(3));
    assert_eq!(health.unacked_or_zero(), 3);
    assert_eq!(health.consumers, Some(2));
    assert_eq!(health.consumers_or_zero(), 2);
}

#[test]
fn failed_topic_has_no_figures() {
    let health = TopicHealth::error(&topic("a/b/c"), &PulsarError::NotFound);
    assert_eq!(health.status, Status::Error);
    assert!(!health.is_measured());
    assert_eq!(health.total_backlog, None);
    assert_eq!(health.backlog_or_zero(), 0);
    assert_eq!(health.backlog_bytes_or_zero(), 0);
    assert_eq!(health.error, Some(PulsarError::NotFound.message()));
    assert!(!health.status.is_healthy());
}

#[test]
fn status_labels() {
    let all = [
        (Status::Healthy, "OK"),
        (Status::Backlog, "BACKLOG"),
        (Status::PartitionGap, "PARTITION_GAP"),
        (Status::NoConsumers, "NO_CONSUMERS"),
        (Status::MissingSub, "MISSING_SUB"),
        (Status::Trimmed, "TRIMMED"),
        (Status::Error, "ERROR"),
    ];
    for (status, label) in all {
        assert_eq!(status.label(), label);
        assert_eq!(status.is_healthy(), label == "OK");
    }
}

#[test]
fn classification_is_worst_first() {
    let stats = stats_of(vec![sub("my-sub", 500, &[])], vec![]);
    let mut health = evaluate(&topic("a/b/c"), &stats, "my-sub", 100, false, &empty_internal());
    assert_eq!(classify(&health), Status::NoConsumers);
    health.consumers = Some(1);
    assert_eq!(classify(&health), Status::Backlog);
    health.hot_partitions.clear();
    assert_eq!(classify(&health), Status::Healthy);
}

#[test]
fn partition_numbers() {
    assert_eq!(partition_index("persistent://a/b/c-partition-7"), 7);
    assert_eq!(partition_index("persistent://a/b/c-partition-+7"), 7);
    assert_eq!(partition_index("persistent://a/b/c-partition-x"), u32::MAX);
    assert_eq!(partition_index("persistent://a/b/c"), u32::MAX);
    assert_eq!(partition_index("a-partition-1-partition-3"), 3);
}

#[test]
fn stats_are_asked_for_as_the_name_says() {
    let whole = topic("a/b/c");
    let part = topic("a/b/c-partition-3");
    assert_eq!(first_check(&whole), StatsRequest::Partitioned);
    assert_eq!(first_check(&part), StatsRequest::Plain);
    assert_eq!(
        next_step(StatsRequest::Partitioned, Answer::NotFound),
        NextStep::Ask(StatsRequest::Plain)
    );
    assert_eq!(
        next_step(StatsRequest::Partitioned, Answer::Stats),
        NextStep::Accept { partitioned: true }
    );
    assert_eq!(
        next_step(StatsRequest::Plain, Answer::Stats),
        NextStep::Accept { partitioned: false }
    );
    assert_eq!(next_step(StatsRequest::Plain, Answer::NotFound), NextStep::GiveUp);
    assert_eq!(next_step(StatsRequest::Partitioned, Answer::Failed), NextStep::GiveUp);
    assert_eq!(first_sample(&whole), StatsRequest::Aggregate);
    assert_eq!(first_sample(&part), StatsRequest::Plain);
    assert_eq!(answer_of(&Ok::<u8, PulsarError>(1)), Answer::Stats);
    assert_eq!(answer_of(&Err::<u8, PulsarError>(PulsarError::NotFound)), Answer::NotFound);
    assert_eq!(
        answer_of(&Err::<u8, PulsarError>(PulsarError::Decode("x".to_string()))),
        Answer::Failed
    );
}

#[test]
fn samples_and_partition_names() {
    let stats = stats_of(
        vec![sub("my-sub", 12, &[0])],
        vec![
            ("persistent://a/b/c-partition-0", vec![]),
            ("nonsense", vec![]),
        ],
    );
    assert_eq!(sample_backlog(&stats, "my-sub"), Some(12));
    assert_eq!(sample_backlog(&stats, "other"), None);
    let names: Vec<String> = partition_topics(&stats).iter().map(|t| t.text()).collect();
    assert_eq!(names, vec!["persistent://a/b/c-partition-0".to_string()]);
}

#[test]
fn unacked_sums_past_the_largest_integer_are_announced() {
    let stats = stats_of(vec![sub("my-sub", 1, &[i64::MAX, 1])], vec![]);
    assert!(!evaluate_countable(&topic("a/b/c"), &stats, "my-sub", false, &empty_internal()));
    let stats = stats_of(vec![sub("my-sub", 1, &[i64::MAX - 1, 1])], vec![]);
    assert!(evaluate_countable(&topic("a/b/c"), &stats, "my-sub", false, &empty_internal()));
    let health = evaluate(&topic("a/b/c"), &stats, "my-sub", 100, false, &empty_internal());
    assert_eq!(health.unacked_messages, Some(i64::MAX));
}

#[test]
fn a_partition_without_consumers_can_be_hot() {
    let stats = stats_of(
        vec![sub("my-sub", 900, &[0])],
        vec![
            ("persistent://a/b/c-partition-0", vec![sub("my-sub", 900, &[])]),
            ("persistent://a/b/c-partition-1", vec![sub("my-sub", 0, &[0])]),
        ],
    );
    let health = evaluate(&topic("a/b/c"), &stats, "my-sub", 100, true, &empty_internal());
    assert_eq!(health.status, Status::PartitionGap);
    assert_eq!(health.hot_partitions.len(), 1);
    assert_eq!(health.hot_partitions[0].partition, "persistent://a/b/c-partition-0");
    assert_eq!(health.hot_partitions[0].backlog, 900);
    assert_eq!(health.partition_gaps.len(), 1);
    assert_eq!(health.partition_gaps[0].partition, "persistent://a/b/c-partition-0");
    assert_eq!(health.partition_gaps[0].reason, "no_consumers");
    assert_eq!(health.partitions[0].status, "no_consumers");
}
