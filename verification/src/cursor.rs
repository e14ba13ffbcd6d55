//! Cursor trim risk.
//!
//! Two questions are answered for each partition. Does the subscription's next
//! read position lie in a ledger older than the oldest one still present? Then
//! the entry it wants has been trimmed, and the consumer will wait forever. And
//! if not, how many entries lie between the trim floor and the cursor?
use vstd::prelude::*;
use crate::assoc::{get, lookup};
use crate::pulsar::{least_ledger, position, InternalStats, LedgerInfo, Position};

verus! {

/// What a cursor's position means for its subscription.
#[derive(Debug, Clone, Copy, PartialEq, Eq, Structural)]
pub enum TrimVerdict {
    /// The next entry to read is gone.
    Stuck,
    /// The cursor stands in the oldest present ledger with data still to read.
    AtEdge,
    /// There is a margin, or nothing to lose.
    Safe,
    /// Cursor or ledgers are missing or cannot be read.
    Unknown,
}

/// The verdict on one cursor.
#[derive(Debug, Clone, Copy, PartialEq, Eq, Structural)]
pub struct CursorTrimStatus {
    pub verdict: TrimVerdict,
    /// Entries between the trim floor and the read position. `None` where there
    /// is no backlog or nothing can be told.
    pub headroom_entries: Option<i64>,
    /// The cursor is parked and waiting although there is a backlog.
    pub waiting_with_backlog: bool,
}

/// Entries in the ledgers of `ledgers` that are older than `id`.
pub open spec fn older_entries(ledgers: Seq<LedgerInfo>, id: int) -> int
    decreases ledgers.len(),
{
    if ledgers.len() == 0 {
        0
    } else {
        older_entries(ledgers.drop_last(), id) + (if ledgers.last().ledger_id < id {
            ledgers.last().entries as int
        } else {
            0
        })
    }
}

/// A ledger with the given id is present.
pub open spec fn has_ledger(ledgers: Seq<LedgerInfo>, id: int) -> bool {
    exists|i: int| 0 <= i < ledgers.len() && (#[trigger] ledgers[i]).ledger_id == id
}

/// Entries from the trim floor up to the read position: those of the ledgers older
/// than the read ledger, wherever they are listed, and those before the entry
/// within it. Where the read ledger is no longer present, the entries before the
/// read position are lost, and they count below zero.
pub open spec fn headroom(ledgers: Seq<LedgerInfo>, read: (int, int)) -> int {
    let within = if read.1 > 0 {
        read.1
    } else {
        0
    };
    if has_ledger(ledgers, read.0) {
        older_entries(ledgers, read.0) + within
    } else {
        -within
    }
}

/// Counting the headroom stays within 64 bits all the way.
pub open spec fn headroom_fits(ledgers: Seq<LedgerInfo>, read: (int, int)) -> bool {
    has_ledger(ledgers, read.0) ==> {
        &&& forall|k: int|
            0 <= k <= ledgers.len() ==> i64::MIN <= #[trigger] older_entries(
                ledgers.take(k),
                read.0,
            ) <= i64::MAX
        &&& headroom(ledgers, read) <= i64::MAX
    }
}

/// The read position of the subscription's cursor, where the cursor is there
/// and its position can be read.
pub open spec fn read_position(internal: InternalStats, subscription: Seq<char>) -> Option<
    (int, int),
> {
    match lookup(internal.cursors@, subscription) {
        Some(c) => position(c.read_position@),
        None => None,
    }
}

/// `evaluate_cursor` stays within 64 bits.
pub open spec fn cursor_fits(internal: InternalStats, subscription: Seq<char>, backlog: int) -> bool {
    match read_position(internal, subscription) {
        Some(read) => backlog > 0 ==> headroom_fits(internal.ledgers@, read),
        None => true,
    }
}

/// The verdict on a subscription's cursor, given its backlog: the headroom in
/// it is a mathematical integer.
pub open spec fn trim_status(
    internal: InternalStats,
    subscription: Seq<char>,
    backlog: int,
) -> (TrimVerdict, Option<int>, bool) {
    match (read_position(internal, subscription), least_ledger(internal.ledgers@)) {
        (Some(read), Some(floor)) => (
            if read.0 < floor {
                TrimVerdict::Stuck
            } else if read.0 == floor && backlog > 0 {
                TrimVerdict::AtEdge
            } else {
                TrimVerdict::Safe
            },
            if backlog > 0 {
                Some(headroom(internal.ledgers@, read))
            } else {
                None
            },
            (lookup(internal.cursors@, subscription)->0).waiting_read_op && backlog > 0,
        ),
        _ => (TrimVerdict::Unknown, None, false),
    }
}

/// What `status` says, in the terms of `trim_status`.
pub open spec fn status_view(status: CursorTrimStatus) -> (TrimVerdict, Option<int>, bool) {
    (
        status.verdict,
        match status.headroom_entries {
            Some(n) => Some(n as int),
            None => None,
        },
        status.waiting_with_backlog,
    )
}

impl CursorTrimStatus {
    fn unknown() -> (r: CursorTrimStatus)
        ensures
            status_view(r) == (TrimVerdict::Unknown, None::<int>, false),
    {
        CursorTrimStatus {
            verdict: TrimVerdict::Unknown,
            headroom_entries: None,
            waiting_with_backlog: false,
        }
    }
}

/// Judge one partition's cursor against the ledgers that are present.
/// `backlog` is the subscription's backlog in messages.
pub fn evaluate_cursor(internal: &InternalStats, subscription: &str, backlog: i64) -> (r:
    CursorTrimStatus)
    requires
        cursor_fits(*internal, subscription@, backlog as int),
    ensures
        status_view(r) == trim_status(*internal, subscription@, backlog as int),
{
    let cursor = match get(internal.cursors.as_slice(), subscription) {
        Some(c) => c,
        None => return CursorTrimStatus::unknown(),
    };
    let floor = match internal.floor_ledger_id() {
        Some(id) => id,
        None => return CursorTrimStatus::unknown(),
    };
    let read = match cursor.read() {
        Some(p) => p,
        None => return CursorTrimStatus::unknown(),
    };
    let headroom: Option<i64> = if backlog > 0 {
        headroom_entries(internal, read)
    } else {
        None
    };
    let verdict = if read.ledger_id < floor {
        TrimVerdict::Stuck
    } else if read.ledger_id == floor && backlog > 0 {
        TrimVerdict::AtEdge
    } else {
        TrimVerdict::Safe
    };
    CursorTrimStatus {
        verdict,
        headroom_entries: headroom,
        waiting_with_backlog: cursor.waiting_read_op && backlog > 0,
    }
}

/// Whether a ledger with the given id is present.
fn is_present(ledgers: &[LedgerInfo], id: i64) -> (r: bool)
    ensures
        r == has_ledger(ledgers@, id as int),
{
    for i in 0..ledgers.len()
        invariant
            forall|j: int| 0 <= j < i ==> (#[trigger] ledgers@[j]).ledger_id != id,
    {
        if ledgers[i].ledger_id == id {
            assert(ledgers@[i as int].ledger_id == id);
            return true;
        }
    }
    false
}

/// Entries from the trim floor up to the read position, below zero where the read
/// ledger is gone.
pub fn headroom_entries(internal: &InternalStats, read: Position) -> (r: Option<i64>)
    requires
        headroom_fits(internal.ledgers@, (read.ledger_id as int, read.entry_id as int)),
    ensures
        r is Some,
        r->0 == headroom(internal.ledgers@, (read.ledger_id as int, read.entry_id as int)),
{
    if !is_present(internal.ledgers.as_slice(), read.ledger_id) {
        return Some(
            if read.entry_id > 0 {
                -read.entry_id
            } else {
                0
            },
        );
    }
    let ghost id = read.ledger_id as int;
    let mut total: i64 = 0;
    for i in 0..internal.ledgers.len()
        invariant
            id == read.ledger_id,
            total == older_entries(internal.ledgers@.take(i as int), id),
            forall|k: int|
                0 <= k <= internal.ledgers@.len() ==> i64::MIN <= #[trigger] older_entries(
                    internal.ledgers@.take(k),
                    id,
                ) <= i64::MAX,
    {
        proof {
            let next = internal.ledgers@.take(i + 1);
            assert(next.drop_last() =~= internal.ledgers@.take(i as int));
            assert(i64::MIN <= older_entries(next, id) <= i64::MAX);
        }
        if internal.ledgers[i].ledger_id < read.ledger_id {
            total = total + internal.ledgers[i].entries;
        }
    }
    assert(internal.ledgers@.take(internal.ledgers@.len() as int) =~= internal.ledgers@);
    Some(
        if read.entry_id > 0 {
            total + read.entry_id
        } else {
            total
        },
    )
}

/// Whether `evaluate_cursor` stays within 64 bits.
pub fn cursor_countable(internal: &InternalStats, subscription: &str, backlog: i64) -> (r: bool)
    ensures
        r == cursor_fits(*internal, subscription@, backlog as int),
{
    let read = match get(internal.cursors.as_slice(), subscription) {
        Some(c) => match c.read() {
            Some(p) => p,
            None => return true,
        },
        None => return true,
    };
    if backlog <= 0 {
        return true;
    }
    if !is_present(internal.ledgers.as_slice(), read.ledger_id) {
        return true;
    }
    let ghost id = read.ledger_id as int;
    let mut total: i64 = 0;
    assert(internal.ledgers@.take(0) =~= Seq::empty());
    for i in 0..internal.ledgers.len()
        invariant
            id == read.ledger_id,
            has_ledger(internal.ledgers@, id),
            total == older_entries(internal.ledgers@.take(i as int), id),
            backlog > 0,
            read_position(*internal, subscription@) == Some((id, read.entry_id as int)),
            forall|k: int|
                0 <= k <= i ==> i64::MIN <= #[trigger] older_entries(
                    internal.ledgers@.take(k),
                    id,
                ) <= i64::MAX,
    {
        proof {
            let next = internal.ledgers@.take(i + 1);
            assert(next.drop_last() =~= internal.ledgers@.take(i as int));
        }
        if internal.ledgers[i].ledger_id < read.ledger_id {
            match total.checked_add(internal.ledgers[i].entries) {
                Some(n) => {
                    total = n;
                },
                None => {
                    assert(!(i64::MIN <= older_entries(internal.ledgers@.take(i + 1), id)
                        <= i64::MAX));
                    return false;
                },
            }
        }
    }
    assert(internal.ledgers@.take(internal.ledgers@.len() as int) =~= internal.ledgers@);
    read.entry_id <= 0 || total.checked_add(read.entry_id).is_some()
}

// ── Laws ─────────────────────────────────────────────────────────────────────

/// A caught-up partition is never at the edge, reports no headroom, and its
/// waiting cursor means nothing.
pub proof fn lemma_idle_is_never_at_edge(
    internal: InternalStats,
    subscription: Seq<char>,
    backlog: int,
)
    requires
        backlog <= 0,
    ensures
        ({
            let s = trim_status(internal, subscription, backlog);
            s.0 != TrimVerdict::AtEdge && s.1 is None && !s.2
        }),
{
}

/// A cursor is stuck exactly when every ledger that is present is newer than
/// the one it wants to read, and at least one is present.
pub proof fn lemma_stuck_past_every_ledger(
    internal: InternalStats,
    subscription: Seq<char>,
    backlog: int,
)
    ensures
        trim_status(internal, subscription, backlog).0 == TrimVerdict::Stuck <==> (read_position(
            internal,
            subscription,
        ) is Some && internal.ledgers@.len() > 0 && forall|i: int|
            0 <= i < internal.ledgers@.len() ==> (read_position(internal, subscription)->0).0 < (
            #[trigger] internal.ledgers@[i]).ledger_id),
{
    crate::pulsar::lemma_least_ledger(internal.ledgers@);
}

/// A stuck cursor has no headroom left: with a backlog it is what the cursor had
/// read of the lost ledger, below zero.
pub proof fn lemma_stuck_has_no_headroom(
    internal: InternalStats,
    subscription: Seq<char>,
    backlog: int,
)
    requires
        backlog > 0,
        trim_status(internal, subscription, backlog).0 == TrimVerdict::Stuck,
    ensures
        ({
            let entry = (read_position(internal, subscription)->0).1;
            trim_status(internal, subscription, backlog).1 == Some(
                if entry > 0 {
                    -entry
                } else {
                    0
                },
            )
        }),
{
    crate::pulsar::lemma_least_ledger(internal.ledgers@);
}

/// In which order the ledgers are listed makes no difference to the headroom.
pub proof fn lemma_listing_irrelevant(a: Seq<LedgerInfo>, b: Seq<LedgerInfo>, read: (int, int))
    requires
        a.to_multiset() == b.to_multiset(),
    ensures
        headroom(a, read) == headroom(b, read),
{
    lemma_older_entries_permuted(a, b, read.0);
    a.to_multiset_ensures();
    b.to_multiset_ensures();
    if has_ledger(a, read.0) {
        let i = choose|i: int| 0 <= i < a.len() && (#[trigger] a[i]).ledger_id == read.0;
        assert(a.contains(a[i]));
        assert(b.to_multiset().count(a[i]) > 0);
        assert(b.contains(a[i]));
    }
    if has_ledger(b, read.0) {
        let i = choose|i: int| 0 <= i < b.len() && (#[trigger] b[i]).ledger_id == read.0;
        assert(b.contains(b[i]));
        assert(a.to_multiset().count(b[i]) > 0);
        assert(a.contains(b[i]));
    }
}

/// The entries of the older ledgers without those of one of the ledgers.
proof fn lemma_older_entries_removed(s: Seq<LedgerInfo>, i: int, id: int)
    requires
        0 <= i < s.len(),
    ensures
        older_entries(s, id) == older_entries(s.remove(i), id) + (if s[i].ledger_id < id {
            s[i].entries as int
        } else {
            0
        }),
    decreases s.len(),
{
    if i == s.len() - 1 {
        assert(s.remove(i) =~= s.drop_last());
    } else {
        lemma_older_entries_removed(s.drop_last(), i, id);
        assert(s.remove(i).drop_last() =~= s.drop_last().remove(i));
        assert(s.remove(i).last() == s.last());
    }
}

/// The entries of the older ledgers are the same in any order.
proof fn lemma_older_entries_permuted(a: Seq<LedgerInfo>, b: Seq<LedgerInfo>, id: int)
    requires
        a.to_multiset() == b.to_multiset(),
    ensures
        older_entries(a, id) == older_entries(b, id),
    decreases a.len(),
{
    a.to_multiset_ensures();
    b.to_multiset_ensures();
    assert(a.len() == b.len());
    if a.len() > 0 {
        let x = a.last();
        assert(a.contains(x));
        assert(b.to_multiset().count(x) > 0);
        assert(b.contains(x));
        let i = choose|i: int| 0 <= i < b.len() && b[i] == x;
        assert(a.remove(a.len() - 1) =~= a.drop_last());
        assert(a.drop_last().to_multiset() =~= a.to_multiset().remove(x));
        assert(b.remove(i).to_multiset() =~= b.to_multiset().remove(x));
        lemma_older_entries_permuted(a.drop_last(), b.remove(i), id);
        lemma_older_entries_removed(b, i, id);
    }
}

/// A cursor with a backlog is at the edge exactly when the ledger that it reads is
/// present and none that is present is older.
pub proof fn lemma_edge_is_oldest_ledger(
    internal: InternalStats,
    subscription: Seq<char>,
    backlog: int,
)
    ensures
        trim_status(internal, subscription, backlog).0 == TrimVerdict::AtEdge <==> (backlog > 0
            && read_position(internal, subscription) is Some && (exists|i: int|
            0 <= i < internal.ledgers@.len() && (#[trigger] internal.ledgers@[i]).ledger_id == (
            read_position(internal, subscription)->0).0) && (forall|i: int|
            0 <= i < internal.ledgers@.len() ==> (#[trigger] internal.ledgers@[i]).ledger_id >= (
            read_position(internal, subscription)->0).0)),
{
    let ledgers = internal.ledgers@;
    crate::pulsar::lemma_least_ledger(ledgers);
    if read_position(internal, subscription) is Some && ledgers.len() > 0 {
        let floor = least_ledger(ledgers)->0;
        let i = choose|i: int| 0 <= i < ledgers.len() && (#[trigger] ledgers[i]).ledger_id == floor;
        assert(ledgers[i].ledger_id == floor);
    }
}

/// A cursor cannot be judged exactly when it is not there, when its position
/// cannot be read, or when no ledger is present; then nothing is said of it.
pub proof fn lemma_unknown_cursor(internal: InternalStats, subscription: Seq<char>, backlog: int)
    ensures
        ({
            let s = trim_status(internal, subscription, backlog);
            let cursor = lookup(internal.cursors@, subscription);
            let readable = cursor is Some && position((cursor->0).read_position@) is Some;
            &&& s.0 == TrimVerdict::Unknown <==> !readable || internal.ledgers@.len() == 0
            &&& s.0 == TrimVerdict::Unknown ==> s.1 is None && !s.2
            &&& s.0 != TrimVerdict::Unknown ==> (s.1 is Some <==> backlog > 0)
            &&& s.0 != TrimVerdict::Unknown ==> (s.2 <==> backlog > 0 && (
            cursor->0).waiting_read_op)
            &&& s.1 is Some ==> s.1->0 == headroom(
                internal.ledgers@,
                position((cursor->0).read_position@)->0,
            )
        }),
{
    crate::pulsar::lemma_least_ledger(internal.ledgers@);
}

/// The headroom of a cursor in a ledger that is present: one entry further on it
/// is one more, an older ledger adds its entries, and a newer one adds nothing. In
/// the only ledger it is the entry itself.
pub proof fn lemma_headroom_grows(ledgers: Seq<LedgerInfo>, read: (int, int), more: LedgerInfo)
    requires
        exists|i: int| 0 <= i < ledgers.len() && (#[trigger] ledgers[i]).ledger_id == read.0,
    ensures
        read.1 >= 0 ==> headroom(ledgers, (read.0, read.1 + 1)) == headroom(ledgers, read) + 1,
        read.1 < 0 ==> headroom(ledgers, read) == headroom(ledgers, (read.0, 0)),
        more.ledger_id < read.0 ==> headroom(ledgers.push(more), read) == headroom(ledgers, read)
            + more.entries,
        more.ledger_id >= read.0 ==> headroom(ledgers.push(more), read) == headroom(ledgers, read),
        more.ledger_id == read.0 && read.1 >= 0 ==> headroom(seq![more], read) == read.1,
{
    let longer = ledgers.push(more);
    let i = choose|i: int| 0 <= i < ledgers.len() && (#[trigger] ledgers[i]).ledger_id == read.0;
    assert(longer[i].ledger_id == read.0);
    assert(longer.drop_last() =~= ledgers);
    let alone = seq![more];
    if more.ledger_id == read.0 {
        assert(alone[0].ledger_id == read.0);
        assert(alone.drop_last() =~= Seq::empty());
        reveal_with_fuel(older_entries, 2);
    }
}

/// Where the ledger that is read is gone, a cursor that had read further has lost
/// more.
pub proof fn lemma_headroom_lost(ledgers: Seq<LedgerInfo>, read: (int, int))
    requires
        forall|i: int| 0 <= i < ledgers.len() ==> (#[trigger] ledgers[i]).ledger_id != read.0,
    ensures
        read.1 >= 0 ==> headroom(ledgers, read) == -read.1,
        read.1 < 0 ==> headroom(ledgers, read) == 0,
{
}

} // verus!
