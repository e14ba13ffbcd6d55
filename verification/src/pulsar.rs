//! What the health check knows of Pulsar: positions, topic names, the subset of
//! the admin statistics that it reads, and the admin URLs it reads them from.
use vstd::prelude::*;
use vstd::string::*;
use std::cmp::Ordering;
use std::str::FromStr;
use crate::decimal::{
    decimal, decimal_text, digits, is_digit, lemma_digits, lemma_integer_of_decimal, read_i64,
    signed,
};
use crate::number::Double;
use crate::text::{
    chars_of, copy_of, find, find_at_or_after, find_from, first, has, lemma_find_from,
    lemma_first_char, occurs_at, same, slice_of, space, text_contains, text_of, trim, trimmed,
};

verus! {

// ── Positions ────────────────────────────────────────────────────────────────

/// A `ledgerId:entryId` position, as used by cursors.
///
/// Positions are ordered by ledger and then by entry, which is Pulsar's own
/// order of messages. The entry may be `-1`: in front of entry 0.
#[derive(Debug, Clone, Copy, PartialEq, Eq, Structural)]
pub struct Position {
    pub ledger_id: i64,
    pub entry_id: i64,
}

/// A text that is no position.
#[derive(Debug)]
pub struct PositionError(pub String);

impl PositionError {
    /// What to tell the user.
    pub fn message(&self) -> (r: String)
        ensures
            r@ == "invalid position '"@ + self.0@ + "': expected ledgerId:entryId"@,
    {
        let mut r = copy_of("invalid position '");
        r.append(self.0.as_str());
        r.append("': expected ledgerId:entryId");
        r
    }
}

/// The position that `s` writes: two numbers, each with optional white space
/// around it, separated by the first colon.
pub open spec fn position(s: Seq<char>) -> Option<(int, int)> {
    match first(s, seq![':']) {
        None => None,
        Some(i) => match (
            signed(trimmed(s.subrange(0, i))),
            signed(trimmed(s.subrange(i + 1, s.len() as int))),
        ) {
            (Some(l), Some(e)) => Some((l, e)),
            _ => None,
        },
    }
}

/// How a position is written.
pub open spec fn position_text(ledger: int, entry: int) -> Seq<char> {
    decimal(ledger) + seq![':'] + decimal(entry)
}

impl Position {
    /// Read a position.
    pub fn parse(s: &str) -> (r: Result<Position, PositionError>)
        ensures
            match r {
                Ok(p) => position(s@) == Some((p.ledger_id as int, p.entry_id as int)),
                Err(e) => position(s@) is None && e.0@ == s@,
            },
    {
        let v = chars_of(s);
        let n: usize = v.len();
        let colon: [char; 1] = [':'];
        assert(colon@ =~= seq![':']);
        match find_at_or_after(v.as_slice(), &colon, 0) {
            None => Err(PositionError(copy_of(s))),
            Some(i) => {
                let ledger = trim(slice_of(v.as_slice(), 0, i).as_slice());
                let entry = trim(slice_of(v.as_slice(), i + 1, n).as_slice());
                match (read_i64(ledger.as_slice()), read_i64(entry.as_slice())) {
                    (Some(ledger_id), Some(entry_id)) => Ok(Position { ledger_id, entry_id }),
                    _ => Err(PositionError(copy_of(s))),
                }
            },
        }
    }

    /// How the position is written.
    pub fn text(&self) -> (r: String)
        ensures
            r@ == position_text(self.ledger_id as int, self.entry_id as int),
    {
        let mut r = decimal_text(self.ledger_id);
        r.push(':');
        r.append(decimal_text(self.entry_id).as_str());
        assert(r@ =~= position_text(self.ledger_id as int, self.entry_id as int));
        r
    }
}

impl FromStr for Position {
    type Err = PositionError;

    fn from_str(s: &str) -> Result<Self, PositionError> {
        Position::parse(s)
    }
}

impl PartialOrd for Position {
    fn partial_cmp(&self, other: &Position) -> (r: Option<Ordering>) {
        if self.ledger_id < other.ledger_id {
            Some(Ordering::Less)
        } else if self.ledger_id > other.ledger_id {
            Some(Ordering::Greater)
        } else if self.entry_id < other.entry_id {
            Some(Ordering::Less)
        } else if self.entry_id > other.entry_id {
            Some(Ordering::Greater)
        } else {
            Some(Ordering::Equal)
        }
    }
}

impl vstd::std_specs::cmp::PartialOrdSpecImpl for Position {
    open spec fn obeys_partial_cmp_spec() -> bool {
        true
    }

    open spec fn partial_cmp_spec(&self, other: &Position) -> Option<Ordering> {
        if self.ledger_id < other.ledger_id || (self.ledger_id == other.ledger_id && self.entry_id
            < other.entry_id) {
            Some(Ordering::Less)
        } else if self == other {
            Some(Ordering::Equal)
        } else {
            Some(Ordering::Greater)
        }
    }
}

proof fn lemma_decimal_chars(n: int, i: int)
    requires
        0 <= i < decimal(n).len(),
    ensures
        is_digit(decimal(n)[i]) || decimal(n)[i] == '-',
{
    lemma_digits(if n < 0 { (-n) as nat } else { n as nat });
    if n < 0 && i > 0 {
        assert(decimal(n)[i] == digits((-n) as nat)[i - 1]);
    }
}

proof fn lemma_decimal_trimmed(n: int)
    ensures
        trimmed(decimal(n)) == decimal(n),
{
    let s = decimal(n);
    lemma_digits(if n < 0 { (-n) as nat } else { n as nat });
    lemma_decimal_chars(n, 0);
    lemma_decimal_chars(n, s.len() - 1);
    assert(!space(s[0]));
    assert(!space(s.last()));
}

/// A position that was written reads back as the same position.
pub proof fn lemma_position_round_trip(p: Position)
    ensures
        position(position_text(p.ledger_id as int, p.entry_id as int)) == Some(
            (p.ledger_id as int, p.entry_id as int),
        ),
{
    let (l, e) = (p.ledger_id as int, p.entry_id as int);
    let s = position_text(l, e);
    let k = decimal(l).len() as int;
    assert forall|j: int| 0 <= j < k implies #[trigger] s[j] != ':' by {
        lemma_decimal_chars(l, j);
        assert(s[j] == decimal(l)[j]);
    }
    lemma_first_char(s, ':', k);
    assert(s.subrange(0, k) =~= decimal(l));
    assert(s.subrange(k + 1, s.len() as int) =~= decimal(e));
    lemma_decimal_trimmed(l);
    lemma_decimal_trimmed(e);
    lemma_integer_of_decimal(l);
    lemma_integer_of_decimal(e);
}

// ── Topic names ──────────────────────────────────────────────────────────────

/// A full topic name in its four parts.
#[derive(Debug, Clone, PartialEq, Eq)]
pub struct TopicName {
    /// `persistent` or `non-persistent`.
    pub domain: String,
    pub tenant: String,
    pub namespace: String,
    pub local: String,
}

/// A text that is no topic name.
#[derive(Debug)]
pub struct TopicNameError(pub String);

impl TopicNameError {
    /// What to tell the user.
    pub fn message(&self) -> (r: String)
        ensures
            r@ == "invalid topic name '"@ + self.0@
                + "': expected [persistent://]tenant/namespace/topic"@,
    {
        let mut r = copy_of("invalid topic name '");
        r.append(self.0.as_str());
        r.append("': expected [persistent://]tenant/namespace/topic");
        r
    }
}

/// The parts of a topic name: domain, tenant, namespace and local name.
#[verifier::ext_equal]
pub struct TopicParts {
    pub domain: Seq<char>,
    pub tenant: Seq<char>,
    pub namespace: Seq<char>,
    pub local: Seq<char>,
}

/// The three parts of `tenant/namespace/local`, none of them empty. The local
/// name may hold further slashes.
pub open spec fn path_parts(domain: Seq<char>, s: Seq<char>) -> Option<TopicParts> {
    match first(s, seq!['/']) {
        None => None,
        Some(i) => match find_from(s, seq!['/'], i + 1) {
            None => None,
            Some(j) => {
                let parts = TopicParts {
                    domain,
                    tenant: s.subrange(0, i),
                    namespace: s.subrange(i + 1, j),
                    local: s.subrange(j + 1, s.len() as int),
                };
                if parts.tenant.len() > 0 && parts.namespace.len() > 0 && parts.local.len() > 0 {
                    Some(parts)
                } else {
                    None
                }
            },
        },
    }
}

/// The topic that `raw` names. Without a scheme it is a persistent one, and the
/// only schemes are `persistent://` and `non-persistent://`.
pub open spec fn topic_parts(raw: Seq<char>) -> Option<TopicParts> {
    match first(raw, "://"@) {
        None => path_parts("persistent"@, raw),
        Some(i) => {
            let domain = raw.subrange(0, i);
            if domain == "persistent"@ || domain == "non-persistent"@ {
                path_parts(domain, raw.subrange(i + 3, raw.len() as int))
            } else {
                None
            }
        },
    }
}

/// How a topic name is written in full.
pub open spec fn topic_text(t: TopicParts) -> Seq<char> {
    t.domain + "://"@ + t.tenant + seq!['/'] + t.namespace + seq!['/'] + t.local
}

/// The parts can have come from a topic name: a known domain, no part empty,
/// and no slash in tenant and namespace.
pub open spec fn proper_topic(t: TopicParts) -> bool {
    &&& t.domain == "persistent"@ || t.domain == "non-persistent"@
    &&& t.tenant.len() > 0 && !t.tenant.contains('/')
    &&& t.namespace.len() > 0 && !t.namespace.contains('/')
    &&& t.local.len() > 0
}

impl DeepView for TopicName {
    type V = TopicParts;

    open spec fn deep_view(&self) -> TopicParts {
        TopicParts {
            domain: self.domain@,
            tenant: self.tenant@,
            namespace: self.namespace@,
            local: self.local@,
        }
    }
}

impl TopicName {
    /// Read `persistent://tenant/ns/topic`, `non-persistent://…`, or the
    /// schemeless `tenant/ns/topic`, which is persistent.
    pub fn parse(raw: &str) -> (r: Result<TopicName, TopicNameError>)
        ensures
            match r {
                Ok(t) => topic_parts(raw@) == Some(t.deep_view()),
                Err(e) => topic_parts(raw@) is None && e.0@ == raw@,
            },
    {
        let v = chars_of(raw);
        let n: usize = v.len();
        proof {
            reveal_strlit("://");
        }
        match find(v.as_slice(), "://") {
            None => match TopicName::from_path("persistent", v.as_slice()) {
                Some(t) => Ok(t),
                None => Err(TopicNameError(copy_of(raw))),
            },
            Some(i) => {
                let domain = text_of(slice_of(v.as_slice(), 0, i).as_slice());
                let rest = slice_of(v.as_slice(), i + 3, n);
                if same(domain.as_str(), "persistent") || same(domain.as_str(), "non-persistent") {
                    match TopicName::from_path(domain.as_str(), rest.as_slice()) {
                        Some(t) => Ok(t),
                        None => Err(TopicNameError(copy_of(raw))),
                    }
                } else {
                    Err(TopicNameError(copy_of(raw)))
                }
            },
        }
    }

    fn from_path(domain: &str, s: &[char]) -> (r: Option<TopicName>)
        ensures
            match r {
                Some(t) => path_parts(domain@, s@) == Some(t.deep_view()),
                None => path_parts(domain@, s@) is None,
            },
    {
        let slash: [char; 1] = ['/'];
        let n: usize = s.len();
        assert(slash@ =~= seq!['/']);
        let i = match find_at_or_after(s, &slash, 0) {
            Some(i) => i,
            None => return None,
        };
        proof {
            lemma_find_from(s@, seq!['/'], i + 1);
        }
        let j = match find_at_or_after(s, &slash, i + 1) {
            Some(j) => j,
            None => return None,
        };
        if i == 0 || j == i + 1 || j + 1 == n {
            return None;
        }
        let t = TopicName {
            domain: copy_of(domain),
            tenant: text_of(slice_of(s, 0, i).as_slice()),
            namespace: text_of(slice_of(s, i + 1, j).as_slice()),
            local: text_of(slice_of(s, j + 1, n).as_slice()),
        };
        Some(t)
    }

    /// Whether this names one partition of a topic.
    pub fn is_partition(&self) -> (r: bool)
        ensures
            r == has(self.local@, "-partition-"@),
    {
        text_contains(self.local.as_str(), "-partition-")
    }

    /// The path of the topic in the admin API.
    pub fn rest_path(&self) -> (r: String)
        ensures
            r@ == self.domain@ + seq!['/'] + self.tenant@ + seq!['/'] + self.namespace@ + seq!['/']
                + self.local@,
    {
        let mut r = copy_of(self.domain.as_str());
        r.push('/');
        r.append(self.tenant.as_str());
        r.push('/');
        r.append(self.namespace.as_str());
        r.push('/');
        r.append(self.local.as_str());
        assert(r@ =~= self.domain@ + seq!['/'] + self.tenant@ + seq!['/'] + self.namespace@
            + seq!['/'] + self.local@);
        r
    }

    /// The topic name in full.
    pub fn text(&self) -> (r: String)
        ensures
            r@ == topic_text(self.deep_view()),
    {
        let mut r = copy_of(self.domain.as_str());
        r.append("://");
        r.append(self.tenant.as_str());
        r.push('/');
        r.append(self.namespace.as_str());
        r.push('/');
        r.append(self.local.as_str());
        assert(r@ =~= topic_text(self.deep_view()));
        r
    }
}

proof fn lemma_no_slash(s: Seq<char>, from: int, to: int)
    requires
        0 <= from <= to <= s.len(),
        forall|j: int| from <= j < to ==> !#[trigger] occurs_at(s, seq!['/'], j),
    ensures
        !s.subrange(from, to).contains('/'),
{
    let part = s.subrange(from, to);
    if part.contains('/') {
        let k = choose|k: int| 0 <= k < part.len() && part[k] == '/';
        assert(s.subrange(from + k, from + k + 1) =~= seq!['/']);
        assert(occurs_at(s, seq!['/'], from + k));
    }
}

/// Every topic name that is accepted has a known domain, three parts, and no
/// slash in tenant and namespace.
pub proof fn lemma_topic_proper(raw: Seq<char>)
    requires
        topic_parts(raw) is Some,
    ensures
        proper_topic(topic_parts(raw)->0),
{
    reveal_strlit("://");
    lemma_find_from(raw, "://"@, 0);
    let s = match first(raw, "://"@) {
        None => raw,
        Some(i) => raw.subrange(i + 3, raw.len() as int),
    };
    let slash = seq!['/'];
    lemma_find_from(s, slash, 0);
    let i = first(s, slash)->0;
    lemma_find_from(s, slash, i + 1);
    let j = find_from(s, slash, i + 1)->0;
    lemma_no_slash(s, 0, i);
    lemma_no_slash(s, i + 1, j);
}

proof fn lemma_path_round_trip(t: TopicParts)
    requires
        proper_topic(t),
    ensures
        path_parts(t.domain, t.tenant + seq!['/'] + t.namespace + seq!['/'] + t.local) == Some(t),
{
    let slash = seq!['/'];
    let s = t.tenant + slash + t.namespace + slash + t.local;
    let i = t.tenant.len() as int;
    let j = i + 1 + t.namespace.len();
    assert forall|k: int| 0 <= k < i implies #[trigger] s[k] != '/' by {
        assert(s[k] == t.tenant[k]);
    }
    lemma_first_char(s, '/', i);
    lemma_find_from(s, slash, i + 1);
    assert(s.subrange(j, j + 1) =~= slash);
    assert(occurs_at(s, slash, j));
    assert forall|k: int| i + 1 <= k < j implies !#[trigger] occurs_at(s, slash, k) by {
        assert(s.subrange(k, k + 1)[0] == t.namespace[k - i - 1]);
    }
    assert(find_from(s, slash, i + 1) == Some(j));
    assert(s.subrange(0, i) =~= t.tenant);
    assert(s.subrange(i + 1, j) =~= t.namespace);
    assert(s.subrange(j + 1, s.len() as int) =~= t.local);
}

/// Writing a topic name in full and reading it back gives the same topic.
pub proof fn lemma_topic_round_trip(t: TopicParts)
    requires
        proper_topic(t),
    ensures
        topic_parts(topic_text(t)) == Some(t),
{
    reveal_strlit("://");
    reveal_strlit("persistent");
    reveal_strlit("non-persistent");
    let raw = topic_text(t);
    let sep = "://"@;
    let path = t.tenant + seq!['/'] + t.namespace + seq!['/'] + t.local;
    let n = t.domain.len() as int;
    assert(raw =~= t.domain + sep + path);
    lemma_find_from(raw, sep, 0);
    assert(raw.subrange(n, n + 3) =~= sep);
    assert(occurs_at(raw, sep, n));
    assert forall|k: int| 0 <= k < n implies !#[trigger] occurs_at(raw, sep, k) by {
        assert(raw.subrange(k, k + 3)[0] == t.domain[k]);
    }
    assert(first(raw, sep) == Some(n));
    assert(raw.subrange(0, n) =~= t.domain);
    assert(raw.subrange(n + 3, raw.len() as int) =~= path);
    lemma_path_round_trip(t);
}

// ── Statistics ───────────────────────────────────────────────────────────────

/// What the admin API tells of a topic.
#[derive(Debug)]
pub struct TopicStats {
    /// Outgoing message rate.
    pub msg_rate_out: Double,
    /// Subscriptions by name.
    pub subscriptions: Vec<(String, SubscriptionStats)>,
    /// Partitions by full topic name; only partitioned statistics have any.
    pub partitions: Vec<(String, TopicStats)>,
}

/// One subscription of a topic or of a partition.
#[derive(Debug)]
pub struct SubscriptionStats {
    pub msg_backlog: i64,
    /// Backlog size in bytes, 0 where it was not asked for.
    pub backlog_size: i64,
    pub consumers: Vec<ConsumerStats>,
}

/// One consumer of a subscription.
#[derive(Debug, Clone, Copy, PartialEq, Eq, Structural)]
pub struct ConsumerStats {
    pub unacked_messages: i64,
}

/// Messages that the consumers hold unacknowledged.
pub open spec fn unacked_sum(consumers: Seq<ConsumerStats>) -> int
    decreases consumers.len(),
{
    if consumers.len() == 0 {
        0
    } else {
        unacked_sum(consumers.drop_last()) + consumers.last().unacked_messages
    }
}

/// Counting the unacknowledged messages stays within 64 bits all the way.
pub open spec fn unacked_fits(consumers: Seq<ConsumerStats>) -> bool {
    forall|k: int|
        0 <= k <= consumers.len() ==> i64::MIN <= #[trigger] unacked_sum(consumers.take(k))
            <= i64::MAX
}

impl SubscriptionStats {
    /// Messages that the consumers hold unacknowledged.
    pub fn unacked_total(&self) -> (r: i64)
        requires
            unacked_fits(self.consumers@),
        ensures
            r == unacked_sum(self.consumers@),
    {
        let mut total: i64 = 0;
        for i in 0..self.consumers.len()
            invariant
                unacked_fits(self.consumers@),
                total == unacked_sum(self.consumers@.take(i as int)),
        {
            proof {
                let next = self.consumers@.take(i + 1);
                assert(next.drop_last() =~= self.consumers@.take(i as int));
                assert(i64::MIN <= unacked_sum(next) <= i64::MAX);
            }
            total = total + self.consumers[i].unacked_messages;
        }
        assert(self.consumers@.take(self.consumers@.len() as int) =~= self.consumers@);
        total
    }

    /// Whether `unacked_total` stays within 64 bits.
    pub fn unacked_countable(&self) -> (r: bool)
        ensures
            r == unacked_fits(self.consumers@),
    {
        let mut total: i64 = 0;
        for i in 0..self.consumers.len()
            invariant
                total == unacked_sum(self.consumers@.take(i as int)),
                forall|k: int|
                    0 <= k <= i ==> i64::MIN <= #[trigger] unacked_sum(self.consumers@.take(k))
                        <= i64::MAX,
        {
            proof {
                let next = self.consumers@.take(i + 1);
                assert(next.drop_last() =~= self.consumers@.take(i as int));
            }
            match total.checked_add(self.consumers[i].unacked_messages) {
                Some(n) => {
                    total = n;
                },
                None => {
                    assert(!(i64::MIN <= unacked_sum(self.consumers@.take(i + 1)) <= i64::MAX));
                    return false;
                },
            }
        }
        true
    }
}

/// Internal statistics of one topic or partition.
#[derive(Debug)]
pub struct InternalStats {
    /// The ledgers that are physically present.
    pub ledgers: Vec<LedgerInfo>,
    /// Cursors by subscription name.
    pub cursors: Vec<(String, CursorInfo)>,
}

/// One ledger and how many entries it holds.
#[derive(Debug, Clone, Copy, PartialEq, Eq, Structural)]
pub struct LedgerInfo {
    pub ledger_id: i64,
    pub entries: i64,
}

/// Where a subscription's cursor stands.
#[derive(Debug)]
pub struct CursorInfo {
    /// The next position that the subscriber will read.
    pub read_position: String,
    /// The cursor is parked, waiting for new messages.
    pub waiting_read_op: bool,
}

/// The least ledger id of `ledgers`.
pub open spec fn least_ledger(ledgers: Seq<LedgerInfo>) -> Option<int>
    decreases ledgers.len(),
{
    if ledgers.len() == 0 {
        None
    } else {
        let id = ledgers.last().ledger_id as int;
        match least_ledger(ledgers.drop_last()) {
            Some(m) if m <= id => Some(m),
            _ => Some(id),
        }
    }
}

/// `least_ledger` is the id of one of the ledgers, and none is less.
pub proof fn lemma_least_ledger(ledgers: Seq<LedgerInfo>)
    ensures
        match least_ledger(ledgers) {
            None => ledgers.len() == 0,
            Some(m) => (exists|i: int|
                0 <= i < ledgers.len() && (#[trigger] ledgers[i]).ledger_id == m) && (forall|i: int|
                0 <= i < ledgers.len() ==> m <= (#[trigger] ledgers[i]).ledger_id),
        },
    decreases ledgers.len(),
{
    if ledgers.len() > 0 {
        let rest = ledgers.drop_last();
        lemma_least_ledger(rest);
        assert forall|i: int| 0 <= i < ledgers.len() implies least_ledger(ledgers)->0 <= (
        #[trigger] ledgers[i]).ledger_id by {
            if i < rest.len() {
                assert(rest[i] == ledgers[i]);
            }
        }
        match least_ledger(rest) {
            Some(m) if m <= ledgers.last().ledger_id => {
                let i = choose|i: int|
                    0 <= i < rest.len() && (#[trigger] rest[i]).ledger_id == m;
                assert(ledgers[i].ledger_id == m);
            },
            _ => {
                assert(ledgers[ledgers.len() - 1].ledger_id == least_ledger(ledgers)->0);
            },
        }
    }
}

impl InternalStats {
    /// The trim floor: the oldest ledger that is still present. `None` where
    /// there is no ledger at all.
    pub fn floor_ledger_id(&self) -> (r: Option<i64>)
        ensures
            match r {
                Some(m) => least_ledger(self.ledgers@) == Some(m as int),
                None => least_ledger(self.ledgers@) is None,
            },
    {
        let mut least: Option<i64> = None;
        for i in 0..self.ledgers.len()
            invariant
                match least {
                    Some(m) => least_ledger(self.ledgers@.take(i as int)) == Some(m as int),
                    None => least_ledger(self.ledgers@.take(i as int)) is None,
                },
        {
            assert(self.ledgers@.take(i + 1).drop_last() =~= self.ledgers@.take(i as int));
            let id = self.ledgers[i].ledger_id;
            least = match least {
                Some(m) if m <= id => Some(m),
                _ => Some(id),
            };
        }
        assert(self.ledgers@.take(self.ledgers@.len() as int) =~= self.ledgers@);
        least
    }
}

impl CursorInfo {
    /// The next position that the subscriber will read, where it is one.
    pub fn read(&self) -> (r: Option<Position>)
        ensures
            match r {
                Some(p) => position(self.read_position@) == Some(
                    (p.ledger_id as int, p.entry_id as int),
                ),
                None => position(self.read_position@) is None,
            },
    {
        match Position::parse(self.read_position.as_str()) {
            Ok(p) => Some(p),
            Err(_) => None,
        }
    }
}

// ── Admin requests ───────────────────────────────────────────────────────────

/// Why statistics could not be had.
#[derive(Debug)]
pub enum PulsarError {
    NotFound,
    Status { status: u16, body: String },
    Transport(String),
    Decode(String),
}

/// What to tell the user of an error.
pub open spec fn pulsar_error_text(e: PulsarError) -> Seq<char> {
    match e {
        PulsarError::NotFound => "topic not found (HTTP 404)"@,
        PulsarError::Status { status, body } => "HTTP "@ + decimal(status as int) + ": "@ + body@,
        PulsarError::Transport(m) => "transport error: "@ + m@,
        PulsarError::Decode(m) => "failed to decode stats JSON: "@ + m@,
    }
}

impl PulsarError {
    /// What to tell the user.
    pub fn message(&self) -> (r: String)
        ensures
            r@ == pulsar_error_text(*self),
    {
        match self {
            PulsarError::NotFound => copy_of("topic not found (HTTP 404)"),
            PulsarError::Status { status, body } => {
                let mut r = copy_of("HTTP ");
                r.append(decimal_text(*status as i64).as_str());
                r.append(": ");
                r.append(body.as_str());
                r
            },
            PulsarError::Transport(m) => {
                let mut r = copy_of("transport error: ");
                r.append(m.as_str());
                r
            },
            PulsarError::Decode(m) => {
                let mut r = copy_of("failed to decode stats JSON: ");
                r.append(m.as_str());
                r
            },
        }
    }

    /// The error that an HTTP answer with a failure status stands for: 404 is a
    /// missing topic, and of any other body the first 200 characters are kept.
    pub fn from_status(status: u16, body: &str) -> (r: PulsarError)
        ensures
            match r {
                PulsarError::NotFound => status == 404,
                PulsarError::Status { status: s, body: b } => status != 404 && s == status && b@
                    == (if body@.len() > 200 {
                    body@.take(200)
                } else {
                    body@
                }),
                _ => false,
            },
    {
        if status == 404 {
            PulsarError::NotFound
        } else {
            let v = chars_of(body);
            let n: usize = if v.len() > 200 { 200 } else { v.len() };
            let kept = slice_of(v.as_slice(), 0, n);
            assert(body@.subrange(0, body@.len() as int) =~= body@);
            PulsarError::Status { status, body: text_of(kept.as_slice()) }
        }
    }
}

/// `s` without the slashes at its end.
pub open spec fn without_trailing_slashes(s: Seq<char>) -> Seq<char>
    decreases s.len(),
{
    if s.len() > 0 && s.last() == '/' {
        without_trailing_slashes(s.drop_last())
    } else {
        s
    }
}

/// The admin service's base URL, without the slashes at its end.
pub fn base_url(raw: &str) -> (r: String)
    ensures
        r@ == without_trailing_slashes(raw@),
{
    let v = chars_of(raw);
    let mut n: usize = v.len();
    assert(v@.take(n as int) =~= raw@);
    while n > 0 && v[n - 1] == '/'
        invariant
            n <= v@.len(),
            without_trailing_slashes(raw@) == without_trailing_slashes(v@.take(n as int)),
        decreases n,
    {
        assert(v@.take(n as int).drop_last() =~= v@.take(n - 1));
        assert(v@.take(n as int).last() == v@[n - 1]);
        n = n - 1;
    }
    proof {
        if n > 0 {
            assert(v@.take(n as int).last() == v@[n - 1]);
        }
        assert(v@.subrange(0, n as int) =~= v@.take(n as int));
    }
    text_of(slice_of(v.as_slice(), 0, n).as_slice())
}

/// What the admin API is asked for.
#[derive(Debug, Clone, Copy, PartialEq, Eq, Structural)]
pub enum StatsRequest {
    /// Statistics of a partitioned topic with each partition's own.
    Partitioned,
    /// Statistics of a plain topic or of one partition.
    Plain,
    /// Statistics of a partitioned topic as a whole.
    Aggregate,
    /// Ledgers and cursors of a plain topic or of one partition.
    Internal,
}

/// What follows the topic's path in the URL of a request.
pub open spec fn request_suffix(request: StatsRequest) -> Seq<char> {
    match request {
        StatsRequest::Partitioned =>
            "/partitioned-stats?perPartition=true&subscriptionBacklogSize=true"@,
        StatsRequest::Plain => "/stats?subscriptionBacklogSize=true"@,
        StatsRequest::Aggregate => "/partitioned-stats"@,
        StatsRequest::Internal => "/internalStats"@,
    }
}

/// The URL of a request about a topic.
pub open spec fn request_url(base: Seq<char>, request: StatsRequest, t: TopicParts) -> Seq<char> {
    base + "/admin/v2/"@ + (t.domain + seq!['/'] + t.tenant + seq!['/'] + t.namespace + seq!['/']
        + t.local) + request_suffix(request)
}

/// The URL of a request about a topic.
pub fn stats_url(base: &str, request: StatsRequest, topic: &TopicName) -> (r: String)
    ensures
        r@ == request_url(base@, request, topic.deep_view()),
{
    let mut r = copy_of(base);
    r.append("/admin/v2/");
    r.append(topic.rest_path().as_str());
    match request {
        StatsRequest::Partitioned => r.append(
            "/partitioned-stats?perPartition=true&subscriptionBacklogSize=true",
        ),
        StatsRequest::Plain => r.append("/stats?subscriptionBacklogSize=true"),
        StatsRequest::Aggregate => r.append("/partitioned-stats"),
        StatsRequest::Internal => r.append("/internalStats"),
    }
    r
}

/// The value of the `Authorization` header.
pub fn authorization(token: &str) -> (r: String)
    ensures
        r@ == "Bearer "@ + token@,
{
    let mut r = copy_of("Bearer ");
    r.append(token);
    r
}

/// One more consumer adds the messages that it holds.
pub proof fn lemma_unacked_add_up(consumers: Seq<ConsumerStats>, c: ConsumerStats)
    ensures
        unacked_sum(Seq::empty()) == 0,
        unacked_sum(consumers.push(c)) == unacked_sum(consumers) + c.unacked_messages,
{
    assert(consumers.push(c).drop_last() =~= consumers);
}

/// A position is two numbers around the first colon; without a colon there is none.
pub proof fn lemma_position_read(ledger: Seq<char>, entry: Seq<char>)
    requires
        forall|i: int| 0 <= i < ledger.len() ==> #[trigger] ledger[i] != ':',
    ensures
        position(ledger) is None,
        signed(trimmed(ledger)) is Some && signed(trimmed(entry)) is Some ==> position(
            ledger + seq![':'] + entry,
        ) == Some((signed(trimmed(ledger))->0, signed(trimmed(entry))->0)),
        signed(trimmed(ledger)) is None || signed(trimmed(entry)) is None ==> position(
            ledger + seq![':'] + entry,
        ) is None,
{
    let s = ledger + seq![':'] + entry;
    let k = ledger.len() as int;
    assert(s[k] == ':');
    assert forall|j: int| 0 <= j < k implies #[trigger] s[j] != ':' by {
        assert(s[j] == ledger[j]);
    }
    lemma_first_char(s, ':', k);
    assert(s.subrange(0, k) =~= ledger);
    assert(s.subrange(k + 1, s.len() as int) =~= entry);
    lemma_find_from(ledger, seq![':'], 0);
    if first(ledger, seq![':']) is Some {
        let i = first(ledger, seq![':'])->0;
        assert(ledger.subrange(i, i + 1)[0] == ledger[i]);
    }
}

/// A name without a scheme is that of a persistent topic.
pub proof fn lemma_schemeless(t: TopicParts)
    requires
        proper_topic(t),
        t.domain == "persistent"@,
        !(has(t.tenant + seq!['/'] + t.namespace + seq!['/'] + t.local, "://"@)),
    ensures
        topic_parts(t.tenant + seq!['/'] + t.namespace + seq!['/'] + t.local) == Some(t),
{
    let path = t.tenant + seq!['/'] + t.namespace + seq!['/'] + t.local;
    lemma_find_from(path, "://"@, 0);
    lemma_path_round_trip(t);
}

/// The place in front of which the pattern does not stand is its first.
proof fn lemma_first_at(s: Seq<char>, pat: Seq<char>, k: int)
    requires
        occurs_at(s, pat, k),
        forall|i: int| 0 <= i < k ==> !#[trigger] occurs_at(s, pat, i),
    ensures
        first(s, pat) == Some(k),
{
    lemma_find_from(s, pat, 0);
}

/// No scheme stands in front of the first colon.
proof fn lemma_no_scheme_before(scheme: Seq<char>, mark: Seq<char>, rest: Seq<char>, i: int)
    requires
        !scheme.contains(':'),
        mark.len() > 0 && mark[0] == ':',
        0 <= i < scheme.len(),
    ensures
        !occurs_at(scheme + mark + rest, mark, i),
{
    let s = scheme + mark + rest;
    if occurs_at(s, mark, i) {
        assert(s.subrange(i, i + mark.len())[0] == s[i]);
        assert(s[i] == scheme[i]);
        assert(scheme.contains(':'));
    }
}

/// Where the scheme of a name ends.
proof fn lemma_scheme_end(scheme: Seq<char>, rest: Seq<char>)
    requires
        !scheme.contains(':'),
    ensures
        first(scheme + "://"@ + rest, "://"@) == Some(scheme.len() as int),
{
    let mark = "://"@;
    assert(mark.len() == 3 && mark[0] == ':') by {
        reveal_strlit("://");
    }
    let s = scheme + mark + rest;
    let k = scheme.len() as int;
    assert(occurs_at(s, mark, k)) by {
        assert(s.subrange(k, k + 3) =~= mark);
    }
    assert forall|i: int| 0 <= i < k implies !#[trigger] occurs_at(s, mark, i) by {
        lemma_no_scheme_before(scheme, mark, rest, i);
    }
    lemma_first_at(s, mark, k);
}

/// A name with any other scheme than the two that there are is that of no topic.
pub proof fn lemma_unknown_scheme(scheme: Seq<char>, rest: Seq<char>)
    requires
        !scheme.contains(':'),
        scheme != "persistent"@,
        scheme != "non-persistent"@,
    ensures
        topic_parts(scheme + "://"@ + rest) is None,
{
    lemma_scheme_end(scheme, rest);
    assert((scheme + "://"@ + rest).subrange(0, scheme.len() as int) =~= scheme);
}

/// Slashes at the end of a base URL make no difference, and none is left.
pub proof fn lemma_base_url(raw: Seq<char>)
    ensures
        without_trailing_slashes(raw.push('/')) == without_trailing_slashes(raw),
        raw.len() > 0 && raw.last() != '/' ==> without_trailing_slashes(raw) == raw,
{
    assert(raw.push('/').drop_last() =~= raw);
}

/// The URLs of the requests.
pub proof fn lemma_request_urls(base: Seq<char>, t: TopicParts)
    ensures
        ({
            let path = base + "/admin/v2/"@ + (t.domain + seq!['/'] + t.tenant + seq!['/']
                + t.namespace + seq!['/'] + t.local);
            &&& request_url(base, StatsRequest::Partitioned, t) == path
                + "/partitioned-stats?perPartition=true&subscriptionBacklogSize=true"@
            &&& request_url(base, StatsRequest::Plain, t) == path
                + "/stats?subscriptionBacklogSize=true"@
            &&& request_url(base, StatsRequest::Aggregate, t) == path + "/partitioned-stats"@
            &&& request_url(base, StatsRequest::Internal, t) == path + "/internalStats"@
        }),
{
}

/// What is told of a request that failed.
pub proof fn lemma_request_errors(status: u16, text: String)
    ensures
        pulsar_error_text(PulsarError::NotFound) == "topic not found (HTTP 404)"@,
        pulsar_error_text(PulsarError::Status { status, body: text }) == "HTTP "@ + decimal(
            status as int,
        ) + ": "@ + text@,
        pulsar_error_text(PulsarError::Transport(text)) == "transport error: "@ + text@,
        pulsar_error_text(PulsarError::Decode(text)) == "failed to decode stats JSON: "@ + text@,
{
}

} // verus!
