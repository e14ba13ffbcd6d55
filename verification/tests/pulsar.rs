use pulsar_topic_health::number::Double;
use pulsar_topic_health::pulsar::{
    authorization, base_url, stats_url, ConsumerStats, CursorInfo, InternalStats, LedgerInfo,
    Position, PulsarError, StatsRequest, SubscriptionStats, TopicName, TopicStats,
};

#[test]
fn parses_full_topic_name() {
    let t = TopicName::parse("persistent://widgetco/toybox/marbles").unwrap();
    assert_eq!(t.tenant, "widgetco");
    assert_eq!(t.local, "marbles");
    assert!(!t.is_partition());
}

#[test]
fn assumes_persistent_when_schemeless() {
    let t = TopicName::parse("widgetco/toybox/robots-partition-3").unwrap();
    assert_eq!(t.domain, "persistent");
    assert!(t.is_partition());
}

#[test]
fn rejects_malformed_names() {
    assert!(TopicName::parse("http://a/b/c").is_err());
    assert!(TopicName::parse("just-a-topic").is_err());
    assert!(TopicName::parse("tenant//topic").is_err());
}

#[test]
fn parses_and_orders_positions() {
    let a: Position = "49:-1".parse().unwrap();
    let b: Position = "49:0".parse().unwrap();
    let c: Position = "65:0".parse().unwrap();
    assert!(a < b, "-1 entry precedes entry 0 in same ledger");
    assert!(b < c, "lower ledger precedes higher ledger");
    assert_eq!(a.text(), "49:-1");
}

#[test]
fn rejects_malformed_positions() {
    assert!("nope".parse::<Position>().is_err());
    assert!("1:".parse::<Position>().is_err());
}

// ── Further cases ────────────────────────────────────────────────────────────

#[test]
fn the_floor_is_the_least_ledger() {
    let mut stats = InternalStats {
        ledgers: vec![
            LedgerInfo { ledger_id: 65, entries: 0 },
            LedgerInfo { ledger_id: 49, entries: 1 },
        ],
        cursors: Vec::new(),
    };
    assert_eq!(stats.floor_ledger_id(), Some(49));
    stats.ledgers.clear();
    assert_eq!(stats.floor_ledger_id(), None);
    let cursor = CursorInfo { read_position: "49:0".to_string(), waiting_read_op: false };
    assert_eq!(cursor.read(), Some(Position { ledger_id: 49, entry_id: 0 }));
}

#[test]
fn unacked_messages_are_summed() {
    let stats = TopicStats {
        msg_rate_out: Double { bits: 12.5f64.to_bits() },
        subscriptions: vec![(
            "my-sub".to_string(),
            SubscriptionStats {
                msg_backlog: 42,
                backlog_size: 0,
                consumers: vec![
                    ConsumerStats { unacked_messages: 7 },
                    ConsumerStats { unacked_messages: 3 },
                ],
            },
        )],
        partitions: Vec::new(),
    };
    assert!(stats.subscriptions[0].1.unacked_countable());
    assert_eq!(stats.subscriptions[0].1.unacked_total(), 10);
}

#[test]
fn names_survive_being_written_and_read() {
    for raw in ["persistent://a/b/c", "non-persistent://t/n/x-partition-4"] {
        let t = TopicName::parse(raw).unwrap();
        assert_eq!(t.text(), raw);
        assert_eq!(TopicName::parse(&t.text()).unwrap(), t);
    }
    let p = Position { ledger_id: -3, entry_id: 17 };
    assert_eq!(Position::parse(&p.text()).unwrap(), p);
}

#[test]
fn errors_name_what_was_wrong() {
    assert_eq!(
        Position::parse("x").unwrap_err().message(),
        "invalid position 'x': expected ledgerId:entryId"
    );
    assert_eq!(
        TopicName::parse("x").unwrap_err().message(),
        "invalid topic name 'x': expected [persistent://]tenant/namespace/topic"
    );
    assert!(matches!(PulsarError::from_status(404, "gone"), PulsarError::NotFound));
    let e = PulsarError::from_status(500, &"y".repeat(400));
    match &e {
        PulsarError::Status { status, body } => {
            assert_eq!(*status, 500);
            assert_eq!(body.len(), 200);
        }
        _ => panic!("a status was given"),
    }
    assert!(e.message().contains("500"));
    assert!(PulsarError::Transport("refused".to_string()).message().contains("refused"));
    assert!(PulsarError::Decode("bad".to_string()).message().contains("bad"));
}

#[test]
fn requests_are_addressed() {
    let base = base_url("http://broker:8080///");
    assert_eq!(base, "http://broker:8080");
    let t = TopicName::parse("a/b/c").unwrap();
    assert_eq!(t.rest_path(), "persistent/a/b/c");
    assert_eq!(
        stats_url(&base, StatsRequest::Plain, &t),
        "http://broker:8080/admin/v2/persistent/a/b/c/stats?subscriptionBacklogSize=true"
    );
    assert!(stats_url(&base, StatsRequest::Partitioned, &t).contains("/partitioned-stats"));
    assert!(stats_url(&base, StatsRequest::Internal, &t).contains("/internalStats"));
    assert_ne!(
        stats_url(&base, StatsRequest::Aggregate, &t),
        stats_url(&base, StatsRequest::Partitioned, &t)
    );
    assert_eq!(authorization("abc"), "Bearer abc");
}
