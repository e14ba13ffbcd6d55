use pulsar_topic_health::cursor::{
    cursor_countable, evaluate_cursor, headroom_entries, TrimVerdict,
};
use pulsar_topic_health::pulsar::{CursorInfo, InternalStats, LedgerInfo, Position};

fn stats(ledgers: &[(i64, i64)], cursors: &[(&str, &str, bool)]) -> InternalStats {
    InternalStats {
        ledgers: ledgers
            .iter()
            .map(|l| LedgerInfo { ledger_id: l.0, entries: l.1 })
            .collect(),
        cursors: cursors
            .iter()
            .map(|c| {
                (
                    c.0.to_string(),
                    CursorInfo { read_position: c.1.to_string(), waiting_read_op: c.2 },
                )
            })
            .collect(),
    }
}

#[test]
fn safe_when_cursor_well_inside_ledgers() {
    let s = stats(&[(10, 100), (20, 100), (30, 50)], &[("sub", "30:10", false)]);
    let status = evaluate_cursor(&s, "sub", 40);
    assert_eq!(status.verdict, TrimVerdict::Safe);
    // 100 + 100 (whole older ledgers) + 10 (offset in read ledger) = 210.
    assert_eq!(status.headroom_entries, Some(210));
}

#[test]
fn zero_backlog_reports_no_headroom() {
    // Same ledgers and cursor as above, but caught up: headroom is meaningless.
    let s = stats(&[(10, 100), (20, 100), (30, 50)], &[("sub", "30:10", true)]);
    let status = evaluate_cursor(&s, "sub", 0);
    assert_eq!(status.verdict, TrimVerdict::Safe);
    assert_eq!(status.headroom_entries, None);
}

#[test]
fn at_edge_when_cursor_in_oldest_ledger() {
    let s = stats(&[(20, 100), (30, 50)], &[("sub", "20:5", false)]);
    let status = evaluate_cursor(&s, "sub", 130);
    assert_eq!(status.verdict, TrimVerdict::AtEdge);
    assert_eq!(status.headroom_entries, Some(5));
}

#[test]
fn stuck_when_cursor_below_floor() {
    let s = stats(&[(20, 100), (30, 50)], &[("sub", "10:40", true)]);
    let status = evaluate_cursor(&s, "sub", 500);
    assert_eq!(status.verdict, TrimVerdict::Stuck);
    assert!(status.waiting_with_backlog, "waiting + backlog corroborates");
}

#[test]
fn waiting_without_backlog_is_not_flagged() {
    let s = stats(&[(20, 100)], &[("sub", "20:99", true)]);
    let status = evaluate_cursor(&s, "sub", 0);
    assert!(!status.waiting_with_backlog);
    // Idle, caught up, nothing to lose even though it's the oldest ledger.
    assert_eq!(status.verdict, TrimVerdict::Safe);
}

#[test]
fn at_edge_requires_backlog() {
    let s = stats(&[(20, 100), (30, 50)], &[("sub", "20:10", false)]);
    // Same position, only backlog differs.
    assert_eq!(evaluate_cursor(&s, "sub", 0).verdict, TrimVerdict::Safe);
    assert_eq!(evaluate_cursor(&s, "sub", 500).verdict, TrimVerdict::AtEdge);
}

#[test]
fn unknown_when_subscription_absent() {
    let s = stats(&[(20, 100)], &[("other", "20:1", false)]);
    assert_eq!(evaluate_cursor(&s, "sub", 0).verdict, TrimVerdict::Unknown);
}

#[test]
fn unknown_when_no_ledgers() {
    let s = stats(&[], &[("sub", "20:1", false)]);
    assert_eq!(evaluate_cursor(&s, "sub", 0).verdict, TrimVerdict::Unknown);
}

#[test]
fn unknown_when_position_unreadable() {
    let s = stats(&[(20, 100)], &[("sub", "20-1", false)]);
    assert_eq!(evaluate_cursor(&s, "sub", 5).verdict, TrimVerdict::Unknown);
}

#[test]
fn stuck_cursor_is_past_what_it_lost() {
    let s = stats(&[(20, 100), (30, 50)], &[("sub", "10:40", false)]);
    let status = evaluate_cursor(&s, "sub", 500);
    assert_eq!(status.headroom_entries, Some(-40));
    assert!(!status.waiting_with_backlog);
    let read = Position { ledger_id: 10, entry_id: 40 };
    assert_eq!(headroom_entries(&s, read), Some(-40));
    let read = Position { ledger_id: 10, entry_id: -1 };
    assert_eq!(headroom_entries(&s, read), Some(0));
}

#[test]
fn ledger_sums_past_the_largest_integer_are_announced() {
    let s = stats(&[(1, i64::MAX), (2, 1), (3, 1)], &[("sub", "3:1", false)]);
    assert!(!cursor_countable(&s, "sub", 1));
    let s = stats(&[(1, i64::MAX - 2), (2, 1), (3, 1)], &[("sub", "3:1", false)]);
    assert!(cursor_countable(&s, "sub", 1));
    assert_eq!(evaluate_cursor(&s, "sub", 1).headroom_entries, Some(i64::MAX));
}

#[test]
fn headroom_counts_older_ledgers_wherever_they_are_listed() {
    let s = stats(&[(30, 50), (20, 100)], &[("sub", "30:10", false)]);
    assert_eq!(evaluate_cursor(&s, "sub", 40).headroom_entries, Some(110));
    let s = stats(&[(20, 100), (30, 50), (10, 7)], &[("sub", "30:10", false)]);
    assert_eq!(evaluate_cursor(&s, "sub", 40).headroom_entries, Some(117));
}
