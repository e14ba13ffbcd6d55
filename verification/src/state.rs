//! Time in state.
//!
//! A topic's state is the pair of its status and its trend. Each run records
//! for each topic since when its current state was seen, so that a standing
//! incident can be told from a spike. What was seen before comes from the last
//! snapshot or from the cycle before.
use vstd::prelude::*;
use vstd::string::*;
use crate::assoc::{
    distinct_names, get, lemma_lookup_added, lemma_lookup_replaced, lookup, position_of,
};
use crate::decimal::{decimal, unsigned_text};
use crate::drain::{trend_label, DrainStats, Trend};
use crate::health::{HealthView, Status, TopicHealth};
use crate::text::{char_index, copy_of, lemma_char_index, same};
use crate::timestamp::{instant, parse_rfc3339};

verus! {

/// How a status is called in snapshots.
pub open spec fn status_name(s: Status) -> Seq<char> {
    match s {
        Status::Healthy => "ok"@,
        Status::Backlog => "backlog"@,
        Status::PartitionGap => "partition_gap"@,
        Status::NoConsumers => "no_consumers"@,
        Status::MissingSub => "missing_sub"@,
        Status::Trimmed => "trimmed"@,
        Status::Error => "error"@,
    }
}

/// How a status is called in snapshots.
pub fn serialized_status(s: Status) -> (r: &'static str)
    ensures
        r@ == status_name(s),
{
    match s {
        Status::Healthy => "ok",
        Status::Backlog => "backlog",
        Status::PartitionGap => "partition_gap",
        Status::NoConsumers => "no_consumers",
        Status::MissingSub => "missing_sub",
        Status::Trimmed => "trimmed",
        Status::Error => "error",
    }
}

/// A comparable description of a topic's state, such as `backlog|growing`.
#[derive(Debug, Clone, PartialEq, Eq)]
pub struct StateKey(pub String);

/// The key of a state with the given status and trend, both by their names.
pub open spec fn key_text(status: Seq<char>, trend: Option<Seq<char>>) -> Seq<char> {
    match trend {
        Some(t) => status + seq!['|'] + t,
        None => status,
    }
}

/// The key of a topic's state.
pub open spec fn state_key(status: Status, drain: Option<DrainStats>) -> Seq<char> {
    key_text(
        status_name(status),
        match drain {
            Some(d) => Some(trend_label(d.trend)),
            None => None,
        },
    )
}

impl StateKey {
    /// The key of a topic's state: its status, and its trend where it has one.
    pub fn of(health: &TopicHealth) -> (r: StateKey)
        ensures
            r.0@ == state_key(health.status, health.drain),
    {
        let mut r = copy_of(serialized_status(health.status));
        if let Some(d) = &health.drain {
            r.push('|');
            r.append(d.trend.label());
            assert(r@ =~= state_key(health.status, health.drain));
        }
        StateKey(r)
    }
}

/// What was seen of a topic before: its state, and since when.
#[derive(Debug)]
pub struct PriorState {
    pub key: StateKey,
    /// Empty where it is not known.
    pub since: String,
}

/// The topic's entry in a snapshot, as far as its state goes.
#[derive(Debug)]
pub struct SnapshotTopic {
    pub topic: String,
    pub status: Option<String>,
    pub trend: Option<String>,
    pub state_since: Option<String>,
}

impl SnapshotTopic {
    /// The key of the state that the snapshot recorded, where it did.
    pub fn key(&self) -> (r: Option<StateKey>)
        ensures
            match r {
                Some(k) => self.status is Some && k.0@ == key_text(
                    self.status->0@,
                    self.trend.deep_view(),
                ),
                None => self.status is None,
            },
    {
        match &self.status {
            None => None,
            Some(status) => {
                let mut r = copy_of(status.as_str());
                if let Some(t) = &self.trend {
                    r.push('|');
                    r.append(t.as_str());
                    assert(r@ =~= key_text(status@, self.trend.deep_view()));
                }
                Some(StateKey(r))
            },
        }
    }
}

/// Key and start of a state.
pub type Known = (Seq<char>, Seq<char>);

/// What is known of the topic `name` in `prior`.
pub open spec fn known(prior: Seq<(String, PriorState)>, name: Seq<char>) -> Option<Known> {
    match lookup(prior, name) {
        Some(p) => Some((p.key.0@, p.since@)),
        None => None,
    }
}

/// What a snapshot's entry tells: nothing without a status, and an empty start
/// where none was recorded.
pub open spec fn recorded(t: SnapshotTopic) -> Option<Known> {
    match t.status {
        Some(s) => Some(
            (
                key_text(s@, t.trend.deep_view()),
                match t.state_since {
                    Some(since) => since@,
                    None => Seq::empty(),
                },
            ),
        ),
        None => None,
    }
}

/// What the entries of a snapshot tell of the topic `name`; the last entry that
/// tells anything counts.
pub open spec fn recorded_of(topics: Seq<SnapshotTopic>, name: Seq<char>) -> Option<Known>
    decreases topics.len(),
{
    if topics.len() == 0 {
        None
    } else if topics.last().topic@ == name && recorded(topics.last()) is Some {
        recorded(topics.last())
    } else {
        recorded_of(topics.drop_last(), name)
    }
}

/// What the results of a cycle tell of the topic `name`; the last result with a
/// start counts.
pub open spec fn observed_of(results: Seq<HealthView>, name: Seq<char>) -> Option<Known>
    decreases results.len(),
{
    if results.len() == 0 {
        None
    } else {
        let h = results.last();
        match h.state_since {
            Some(since) if h.topic == name => Some((state_key(h.status, h.drain), since)),
            _ => observed_of(results.drop_last(), name),
        }
    }
}

/// Note what is known of one topic, in place of what was noted before.
fn note(list: &mut Vec<(String, PriorState)>, topic: &str, p: PriorState)
    requires
        distinct_names(old(list)@),
    ensures
        distinct_names(final(list)@),
        forall|n: Seq<char>| #[trigger]
            known(final(list)@, n) == (if n == topic@ {
                Some((p.key.0@, p.since@))
            } else {
                known(old(list)@, n)
            }),
{
    let ghost given = list@;
    let at = position_of(list, topic);
    if at < list.len() {
        let (key, _) = list.remove(at);
        list.insert(at, (key, p));
        proof {
            assert(list@ =~= given.update(at as int, (given[at as int].0, p)));
            lemma_lookup_replaced(given, at as int, p, topic@);
            assert forall|n: Seq<char>| #[trigger] known(list@, n) == (if n == topic@ {
                Some((p.key.0@, p.since@))
            } else {
                known(given, n)
            }) by {
                lemma_lookup_replaced(given, at as int, p, n);
            }
        }
    } else {
        let e = (copy_of(topic), p);
        let ghost added = e;
        list.push(e);
        proof {
            lemma_lookup_added(given, added, topic@);
            assert forall|n: Seq<char>| #[trigger] known(list@, n) == (if n == topic@ {
                Some((p.key.0@, p.since@))
            } else {
                known(given, n)
            }) by {
                lemma_lookup_added(given, added, n);
            }
        }
    }
}

/// What a snapshot tells of the topics in it.
pub fn prior_from_snapshot(topics: &Vec<SnapshotTopic>) -> (r: Vec<(String, PriorState)>)
    ensures
        distinct_names(r@),
        forall|n: Seq<char>| #[trigger] known(r@, n) == recorded_of(topics@, n),
{
    let mut r: Vec<(String, PriorState)> = Vec::new();
    for i in 0..topics.len()
        invariant
            distinct_names(r@),
            forall|n: Seq<char>| #[trigger]
                known(r@, n) == recorded_of(topics@.take(i as int), n),
    {
        assert(topics@.take(i + 1).drop_last() =~= topics@.take(i as int));
        assert(topics@.take(i + 1).last() == topics@[i as int]);
        let t = &topics[i];
        if let Some(key) = t.key() {
            let since = match &t.state_since {
                Some(s) => copy_of(s.as_str()),
                None => String::new(),
            };
            note(&mut r, t.topic.as_str(), PriorState { key, since });
        }
    }
    assert(topics@.take(topics@.len() as int) =~= topics@);
    r
}

/// What a cycle's results tell of the topics in them.
pub fn prior_from_results(results: &Vec<TopicHealth>) -> (r: Vec<(String, PriorState)>)
    ensures
        distinct_names(r@),
        forall|n: Seq<char>| #[trigger] known(r@, n) == observed_of(results.deep_view(), n),
{
    let mut r: Vec<(String, PriorState)> = Vec::new();
    let ghost all = results.deep_view();
    for i in 0..results.len()
        invariant
            all == results.deep_view(),
            distinct_names(r@),
            forall|n: Seq<char>| #[trigger] known(r@, n) == observed_of(all.take(i as int), n),
    {
        assert(all.take(i + 1).drop_last() =~= all.take(i as int));
        assert(all.take(i + 1).last() == results@[i as int].deep_view());
        let h = &results[i];
        if let Some(since) = &h.state_since {
            let p = PriorState { key: StateKey::of(h), since: copy_of(since.as_str()) };
            note(&mut r, h.topic.as_str(), p);
        }
    }
    assert(all.take(all.len() as int) =~= all);
    r
}

/// Since when a topic with this result has been in its state: the start that is
/// known where the state is the same, and now where it is another or nothing is
/// known.
pub open spec fn since_when(h: HealthView, known: Option<Known>, now: Seq<char>) -> Seq<char> {
    match known {
        Some(k) if k.0 == state_key(h.status, h.drain) && k.1.len() > 0 => k.1,
        _ => now,
    }
}

/// Stamp each result with the time since when its state has been seen.
pub fn assign_state_since(
    results: &mut Vec<TopicHealth>,
    prior: &Vec<(String, PriorState)>,
    now: &str,
)
    ensures
        final(results).deep_view() == old(results).deep_view().map_values(
            |h: HealthView|
                HealthView {
                    state_since: Some(since_when(h, known(prior@, h.topic), now@)),
                    ..h
                },
        ),
{
    let ghost start = results.deep_view();
    let ghost f = |h: HealthView|
        HealthView { state_since: Some(since_when(h, known(prior@, h.topic), now@)), ..h };
    let n: usize = results.len();
    let mut i: usize = 0;
    while i < n
        invariant
            i <= n == results@.len() == start.len(),
            f == (|h: HealthView|
                HealthView {
                    state_since: Some(since_when(h, known(prior@, h.topic), now@)),
                    ..h
                }),
            forall|j: int| 0 <= j < i ==> (#[trigger] results@[j]).deep_view() == f(start[j]),
            forall|j: int| i <= j < n ==> (#[trigger] results@[j]).deep_view() == start[j],
        decreases n - i,
    {
        let ghost before = results@;
        let mut h = results.remove(i);
        let current = StateKey::of(&h);
        let since = match get(prior.as_slice(), h.topic.as_str()) {
            Some(p) => if same(p.key.0.as_str(), current.0.as_str()) && !p.since.as_str().is_empty() {
                copy_of(p.since.as_str())
            } else {
                copy_of(now)
            },
            None => copy_of(now),
        };
        h.state_since = Some(since);
        let ghost new = h;
        results.insert(i, h);
        proof {
            assert(results@ =~= before.update(i as int, new));
            assert(new.deep_view() =~= f(start[i as int]));
        }
        i = i + 1;
    }
    assert(results.deep_view() =~= start.map_values(f));
}

/// The result as it is shown: without a start where nothing was known of the topic
/// before, for then it is only when the topic was first seen.
pub open spec fn with_history(h: HealthView, known: Option<Known>) -> HealthView {
    HealthView {
        state_since: if known is Some {
            h.state_since
        } else {
            None
        },
        ..h
    }
}

/// Take the start away from the results of which nothing was known before, so that
/// no time is shown for them.
pub fn hide_first_starts(results: &mut Vec<TopicHealth>, prior: &Vec<(String, PriorState)>)
    ensures
        final(results).deep_view() == old(results).deep_view().map_values(
            |h: HealthView| with_history(h, known(prior@, h.topic)),
        ),
{
    let ghost start = results.deep_view();
    let ghost f = |h: HealthView| with_history(h, known(prior@, h.topic));
    let n: usize = results.len();
    let mut i: usize = 0;
    while i < n
        invariant
            i <= n == results@.len() == start.len(),
            f == (|h: HealthView| with_history(h, known(prior@, h.topic))),
            forall|j: int| 0 <= j < i ==> (#[trigger] results@[j]).deep_view() == f(start[j]),
            forall|j: int| i <= j < n ==> (#[trigger] results@[j]).deep_view() == start[j],
        decreases n - i,
    {
        let ghost before = results@;
        let mut h = results.remove(i);
        if get(prior.as_slice(), h.topic.as_str()).is_none() {
            h.state_since = None;
        }
        let ghost new = h;
        results.insert(i, h);
        proof {
            assert(results@ =~= before.update(i as int, new));
            assert(new.deep_view() =~= f(start[i as int]));
        }
        i = i + 1;
    }
    assert(results.deep_view() =~= start.map_values(f));
}

// ── Durations ────────────────────────────────────────────────────────────────

/// A number of seconds for a human reader: seconds, minutes, hours or days.
pub open spec fn duration_text(secs: int) -> Seq<char> {
    if secs < 60 {
        decimal(secs) + seq!['s']
    } else if secs < 3600 {
        decimal(secs / 60) + seq!['m']
    } else if secs < 86_400 {
        decimal(secs / 3600) + seq!['h']
    } else {
        decimal(secs / 86_400) + seq!['d']
    }
}

/// A number of seconds for a human reader.
pub fn format_secs(secs: u64) -> (r: String)
    ensures
        r@ == duration_text(secs as int),
{
    let (n, unit): (u64, char) = if secs < 60 {
        (secs, 's')
    } else if secs < 3600 {
        (secs / 60, 'm')
    } else if secs < 86_400 {
        (secs / 3600, 'h')
    } else {
        (secs / 86_400, 'd')
    };
    let mut r = unsigned_text(n);
    r.push(unit);
    assert(r@ =~= duration_text(secs as int));
    r
}

/// The time from one timestamp to a later one, for a human reader. `None` where
/// either is no timestamp or the first is later than the second.
pub fn format_duration_between(since: &str, now: &str) -> (r: Option<String>)
    ensures
        match r {
            Some(t) => instant(since@) is Some && instant(now@) is Some && instant(since@)->0
                <= instant(now@)->0 && t@ == duration_text(instant(now@)->0 - instant(since@)->0),
            None => instant(since@) is None || instant(now@) is None || instant(now@)->0 < instant(
                since@,
            )->0,
        },
{
    let a = match parse_rfc3339(since) {
        Some(n) => n,
        None => return None,
    };
    let b = match parse_rfc3339(now) {
        Some(n) => n,
        None => return None,
    };
    if b < a {
        return None;
    }
    Some(format_secs((b - a) as u64))
}

// ── Laws ─────────────────────────────────────────────────────────────────────

/// What is noted of a topic is its last result.
proof fn lemma_observed_last(results: Seq<HealthView>, i: int)
    requires
        0 <= i < results.len(),
        results[i].state_since is Some,
        forall|j: int| i < j < results.len() ==> (#[trigger] results[j]).topic != results[i].topic,
    ensures
        observed_of(results, results[i].topic) == Some(
            (state_key(results[i].status, results[i].drain), results[i].state_since->0),
        ),
    decreases results.len(),
{
    if i < results.len() - 1 {
        lemma_observed_last(results.drop_last(), i);
    }
}

/// A state that is seen again keeps its start, and another one starts anew:
/// after a cycle has been stamped and its results noted, the next cycle goes by
/// what the last result for the topic was.
pub proof fn lemma_state_persists(
    results: Seq<HealthView>,
    i: int,
    next: HealthView,
    later: Seq<char>,
)
    requires
        0 <= i < results.len(),
        results[i].state_since is Some && results[i].state_since->0.len() > 0,
        forall|j: int| i < j < results.len() ==> (#[trigger] results[j]).topic != results[i].topic,
        next.topic == results[i].topic,
    ensures
        since_when(next, observed_of(results, next.topic), later) == (if state_key(
            next.status,
            next.drain,
        ) == state_key(results[i].status, results[i].drain) {
            results[i].state_since->0
        } else {
            later
        }),
{
    lemma_observed_last(results, i);
}

/// What a snapshot records of a topic is what the topic itself is known by: with
/// the status and the trend under their snapshot names, the keys agree.
pub proof fn lemma_snapshot_agrees(t: SnapshotTopic, h: HealthView)
    requires
        t.status is Some,
        t.status->0@ == status_name(h.status),
        t.trend.deep_view() == (match h.drain {
            Some(d) => Some(trend_label(d.trend)),
            None => None,
        }),
        t.state_since.deep_view() == h.state_since,
        h.state_since is Some,
    ensures
        recorded(t) == Some((state_key(h.status, h.drain), h.state_since->0)),
{
}

/// Another status or another trend is another state.
pub proof fn lemma_state_keys_differ(
    s1: Status,
    d1: Option<DrainStats>,
    s2: Status,
    d2: Option<DrainStats>,
)
    requires
        state_key(s1, d1) == state_key(s2, d2),
    ensures
        s1 == s2,
        match (d1, d2) {
            (Some(a), Some(b)) => a.trend == b.trend,
            (None, None) => true,
            _ => false,
        },
{
    let (n1, n2) = (status_name(s1), status_name(s2));
    let k = state_key(s1, d1);
    lemma_name_plain(s1);
    lemma_name_plain(s2);
    lemma_key_bar(n1, d1);
    lemma_key_bar(n2, d2);
    assert(k.take(char_index(k, '|')) =~= n1);
    assert(k.take(char_index(k, '|')) =~= n2);
    lemma_names_differ(s1, s2);
    match (d1, d2) {
        (Some(a), Some(b)) => {
            assert(k.skip(n1.len() as int + 1) =~= trend_label(a.trend));
            assert(k.skip(n1.len() as int + 1) =~= trend_label(b.trend));
            lemma_labels_differ(a.trend, b.trend);
        },
        _ => {},
    }
}

/// No status is called by a name with a bar in it.
proof fn lemma_name_plain(s: Status)
    ensures
        forall|j: int| 0 <= j < status_name(s).len() ==> #[trigger] status_name(s)[j] != '|',
{
    match s {
        Status::Healthy => {
            reveal_strlit("ok");
            assert("ok"@ =~= seq!['o', 'k']);
        },
        Status::Backlog => {
            reveal_strlit("backlog");
            assert("backlog"@ =~= seq!['b', 'a', 'c', 'k', 'l', 'o', 'g']);
        },
        Status::PartitionGap => {
            reveal_strlit("partition_gap");
            assert("partition_gap"@ =~= seq!['p', 'a', 'r', 't', 'i', 't', 'i', 'o', 'n', '_', 'g', 'a', 'p']);
        },
        Status::NoConsumers => {
            reveal_strlit("no_consumers");
            assert("no_consumers"@ =~= seq!['n', 'o', '_', 'c', 'o', 'n', 's', 'u', 'm', 'e', 'r', 's']);
        },
        Status::MissingSub => {
            reveal_strlit("missing_sub");
            assert("missing_sub"@ =~= seq!['m', 'i', 's', 's', 'i', 'n', 'g', '_', 's', 'u', 'b']);
        },
        Status::Trimmed => {
            reveal_strlit("trimmed");
            assert("trimmed"@ =~= seq!['t', 'r', 'i', 'm', 'm', 'e', 'd']);
        },
        Status::Error => {
            reveal_strlit("error");
            assert("error"@ =~= seq!['e', 'r', 'r', 'o', 'r']);
        },
    }
}

/// The first bar of a key stands behind the status.
proof fn lemma_key_bar(name: Seq<char>, d: Option<DrainStats>)
    requires
        forall|j: int| 0 <= j < name.len() ==> #[trigger] name[j] != '|',
    ensures
        ({
            let k = key_text(
                name,
                match d {
                    Some(x) => Some(trend_label(x.trend)),
                    None => None,
                },
            );
            &&& char_index(k, '|') == name.len()
            &&& d is Some <==> char_index(k, '|') < k.len()
        }),
{
    let k = key_text(
        name,
        match d {
            Some(x) => Some(trend_label(x.trend)),
            None => None,
        },
    );
    lemma_char_index(k, '|');
    if d is Some {
        assert(k[name.len() as int] == '|');
    }
    let i = char_index(k, '|');
    if i < name.len() {
        assert(k[i] == name[i]);
    }
}

/// Different statuses have different names.
proof fn lemma_names_differ(s1: Status, s2: Status)
    requires
        status_name(s1) == status_name(s2),
    ensures
        s1 == s2,
{
    reveal_strlit("ok");
    assert("ok"@.len() == 2 && "ok"@[0] == 'o');
    reveal_strlit("backlog");
    assert("backlog"@.len() == 7 && "backlog"@[0] == 'b');
    reveal_strlit("partition_gap");
    assert("partition_gap"@.len() == 13 && "partition_gap"@[0] == 'p');
    reveal_strlit("no_consumers");
    assert("no_consumers"@.len() == 12 && "no_consumers"@[0] == 'n');
    reveal_strlit("missing_sub");
    assert("missing_sub"@.len() == 11 && "missing_sub"@[0] == 'm');
    reveal_strlit("trimmed");
    assert("trimmed"@.len() == 7 && "trimmed"@[0] == 't');
    reveal_strlit("error");
    assert("error"@.len() == 5 && "error"@[0] == 'e');
    assert(status_name(s1).len() == status_name(s2).len());
    assert(status_name(s1)[0] == status_name(s2)[0]);
}

/// Different trends have different labels.
proof fn lemma_labels_differ(t1: Trend, t2: Trend)
    requires
        trend_label(t1) == trend_label(t2),
    ensures
        t1 == t2,
{
    reveal_strlit("empty");
    assert("empty"@.len() == 5 && "empty"@[0] == 'e');
    reveal_strlit("draining");
    assert("draining"@.len() == 8 && "draining"@[0] == 'd');
    reveal_strlit("growing");
    assert("growing"@.len() == 7 && "growing"@[0] == 'g');
    reveal_strlit("stable");
    assert("stable"@.len() == 6 && "stable"@[0] == 's');
    assert(trend_label(t1).len() == trend_label(t2).len());
}

/// The keys of the states, as they stand in snapshots.
pub proof fn lemma_state_key_text(status: Status, drain: Option<DrainStats>)
    ensures
        ({
            let key = state_key(status, drain);
            let name = match status {
                Status::Healthy => "ok"@,
                Status::Backlog => "backlog"@,
                Status::PartitionGap => "partition_gap"@,
                Status::NoConsumers => "no_consumers"@,
                Status::MissingSub => "missing_sub"@,
                Status::Trimmed => "trimmed"@,
                Status::Error => "error"@,
            };
            &&& drain is None ==> key == name
            &&& drain is Some && drain->0.trend == Trend::Empty ==> key == name + "|empty"@
            &&& drain is Some && drain->0.trend == Trend::Draining ==> key == name + "|draining"@
            &&& drain is Some && drain->0.trend == Trend::Growing ==> key == name + "|growing"@
            &&& drain is Some && drain->0.trend == Trend::Stable ==> key == name + "|stable"@
        }),
{
    reveal_strlit("empty");
    reveal_strlit("draining");
    reveal_strlit("growing");
    reveal_strlit("stable");
    reveal_strlit("|empty");
    reveal_strlit("|draining");
    reveal_strlit("|growing");
    reveal_strlit("|stable");
    let name = status_name(status);
    let bar = seq!['|'];
    assert(name + bar + "empty"@ =~= name + "|empty"@);
    assert(name + bar + "draining"@ =~= name + "|draining"@);
    assert(name + bar + "growing"@ =~= name + "|growing"@);
    assert(name + bar + "stable"@ =~= name + "|stable"@);
}

/// From one run to the next by way of a snapshot: a topic whose status and trend
/// are those that the snapshot names has been in that state since the recorded
/// time, and one with others, or without a recorded time, starts now.
pub proof fn lemma_state_persists_on_disk(
    topics: Seq<SnapshotTopic>,
    i: int,
    h: HealthView,
    now: Seq<char>,
)
    requires
        0 <= i < topics.len(),
        topics[i].topic@ == h.topic,
        topics[i].status is Some,
        forall|j: int| i < j < topics.len() ==> (#[trigger] topics[j]).topic@ != h.topic,
    ensures
        ({
            let t = topics[i];
            let same_trend = t.trend.deep_view() == (match h.drain {
                Some(d) => Some(trend_label(d.trend)),
                None => None,
            });
            let r = since_when(h, recorded_of(topics, h.topic), now);
            &&& t.status->0@ == status_name(h.status) && same_trend && t.state_since is Some
                && t.state_since->0@.len() > 0 ==> r == t.state_since->0@
            &&& t.state_since is None ==> r == now
            &&& t.trend is None && h.drain is None && t.status->0@ != status_name(h.status) ==> r
                == now
        }),
    decreases topics.len(),
{
    if i < topics.len() - 1 {
        let rest = topics.drop_last();
        assert forall|j: int| i < j < rest.len() implies (#[trigger] rest[j]).topic@
            != h.topic by {
            assert(rest[j] == topics[j]);
        }
        lemma_state_persists_on_disk(rest, i, h, now);
        assert(topics.last() == topics[topics.len() - 1]);
    }
}

/// Of a topic that no entry with a status names nothing is known, and it starts
/// now.
pub proof fn lemma_unknown_starts_now(topics: Seq<SnapshotTopic>, h: HealthView, now: Seq<char>)
    requires
        forall|i: int|
            0 <= i < topics.len() && (#[trigger] topics[i]).topic@ == h.topic
                ==> topics[i].status is None,
    ensures
        recorded_of(topics, h.topic) is None,
        since_when(h, recorded_of(topics, h.topic), now) == now,
        with_history(h, recorded_of(topics, h.topic)).state_since is None,
    decreases topics.len(),
{
    if topics.len() > 0 {
        assert(topics.last() == topics[topics.len() - 1]);
        let rest = topics.drop_last();
        assert forall|i: int|
            0 <= i < rest.len() && (#[trigger] rest[i]).topic@ == h.topic implies rest[i].status is None by {
            assert(rest[i] == topics[i]);
        }
        lemma_unknown_starts_now(rest, h, now);
    }
}

/// Nothing is hidden of a topic that was known before.
pub proof fn lemma_known_is_shown(h: HealthView, known: Known)
    ensures
        with_history(h, Some(known)) == h,
{
}

/// Durations are told in the largest unit that fits: full minutes below an hour,
/// full hours below a day, and full days from there on.
pub proof fn lemma_duration_units(n: int, rest: int)
    ensures
        0 <= n < 60 ==> duration_text(n) == decimal(n) + "s"@,
        1 <= n < 60 && 0 <= rest < 60 ==> duration_text(60 * n + rest) == decimal(n) + "m"@,
        1 <= n < 24 && 0 <= rest < 3600 ==> duration_text(3600 * n + rest) == decimal(n) + "h"@,
        1 <= n && 0 <= rest < 86_400 ==> duration_text(86_400 * n + rest) == decimal(n) + "d"@,
{
    reveal_strlit("s");
    reveal_strlit("m");
    reveal_strlit("h");
    reveal_strlit("d");
    assert("s"@ =~= seq!['s']);
    assert("m"@ =~= seq!['m']);
    assert("h"@ =~= seq!['h']);
    assert("d"@ =~= seq!['d']);
}

} // verus!
