//! Health evaluation: from raw admin statistics to a verdict per topic.
use vstd::prelude::*;
use vstd::string::*;
use crate::assoc::{distinct_names, get, lemma_lookup_own, lookup};
use crate::cursor::{
    cursor_countable, cursor_fits, evaluate_cursor, status_view, trim_status, CursorTrimStatus,
    TrimVerdict,
};
use crate::decimal::{
    decimal, is_digit, lemma_digits, lemma_integer_of_decimal, read_u32, unsigned32,
};
use crate::drain::DrainStats;
use crate::number::Double;
use crate::order::{lemma_sorted_map, lemma_sorted_ordered, sort_by, sorted};
use crate::pulsar::{
    pulsar_error_text, topic_parts, topic_text, unacked_fits, unacked_sum, InternalStats,
    PulsarError, StatsRequest, SubscriptionStats, TopicName, TopicParts, TopicStats,
};
use crate::tally::{lemma_filter_map_member, lemma_filter_map_order};
use crate::text::{
    chars_of, copy_of, has, last, lemma_rfind_upto, occurs_at, rfind, slice_of,
};

verus! {

/// The state of a topic's subscription.
#[derive(Debug, Clone, Copy, PartialEq, Eq, Structural)]
pub enum Status {
    /// Consumers are attached and every partition is under the threshold.
    Healthy,
    /// At least one partition is over the backlog threshold.
    Backlog,
    /// The subscription is absent or without consumers on some partitions.
    PartitionGap,
    /// The subscription has no consumers at all.
    NoConsumers,
    /// The subscription is not attached to the topic.
    MissingSub,
    /// A cursor waits for an entry that has been trimmed.
    Trimmed,
    /// Statistics could not be fetched.
    Error,
}

/// How a status is shown.
pub open spec fn status_label(s: Status) -> Seq<char> {
    match s {
        Status::Healthy => "OK"@,
        Status::Backlog => "BACKLOG"@,
        Status::PartitionGap => "PARTITION_GAP"@,
        Status::NoConsumers => "NO_CONSUMERS"@,
        Status::MissingSub => "MISSING_SUB"@,
        Status::Trimmed => "TRIMMED"@,
        Status::Error => "ERROR"@,
    }
}

impl Status {
    /// How the status is shown.
    pub fn label(self) -> (r: &'static str)
        ensures
            r@ == status_label(self),
    {
        match self {
            Status::Healthy => "OK",
            Status::Backlog => "BACKLOG",
            Status::PartitionGap => "PARTITION_GAP",
            Status::NoConsumers => "NO_CONSUMERS",
            Status::MissingSub => "MISSING_SUB",
            Status::Trimmed => "TRIMMED",
            Status::Error => "ERROR",
        }
    }

    /// Whether there is nothing to report.
    pub fn is_healthy(self) -> (r: bool)
        ensures
            r == (self == Status::Healthy),
    {
        self == Status::Healthy
    }
}

// ── Results ──────────────────────────────────────────────────────────────────

/// A partition over the backlog threshold.
#[derive(Debug, Clone)]
pub struct HotPartition {
    pub partition: String,
    pub backlog: i64,
    pub backlog_bytes: i64,
}

/// A partition on which the subscription is absent or without consumers.
#[derive(Debug, Clone)]
pub struct PartitionGap {
    pub partition: String,
    /// `subscription_missing` or `no_consumers`.
    pub reason: &'static str,
}

/// A partition whose cursor waits for trimmed data.
#[derive(Debug, Clone)]
pub struct TrimmedPartition {
    pub partition: String,
    /// The cursor is also parked and waiting despite a backlog.
    pub waiting_with_backlog: bool,
}

/// A partition whose cursor stands in the oldest ledger that is left.
#[derive(Debug, Clone)]
pub struct AtEdgePartition {
    pub partition: String,
    /// Entries of margin.
    pub headroom: Option<i64>,
}

/// One partition, whatever its state.
#[derive(Debug, Clone)]
pub struct PartitionDetail {
    /// Full topic name of the partition.
    pub partition: String,
    /// Number of the partition.
    pub index: u32,
    pub backlog: i64,
    pub backlog_bytes: i64,
    pub consumers: usize,
    pub unacked_messages: i64,
    /// `ok`, `hot`, `at_edge`, `no_consumers`, `subscription_missing` or
    /// `trimmed`.
    pub status: &'static str,
}

/// The verdict on one topic.
#[derive(Debug, Clone)]
pub struct TopicHealth {
    pub topic: String,
    pub status: Status,
    /// Backlog in messages; `None` where it could not be measured.
    pub total_backlog: Option<i64>,
    pub backlog_bytes: Option<i64>,
    pub consumers: Option<i64>,
    pub unacked_messages: Option<i64>,
    /// Outgoing message rate.
    pub msg_rate_out: Double,
    /// Least headroom of any partition.
    pub min_headroom: Option<i64>,
    pub trimmed_partitions: Vec<TrimmedPartition>,
    pub at_edge_partitions: Vec<AtEdgePartition>,
    pub hot_partitions: Vec<HotPartition>,
    pub partition_gaps: Vec<PartitionGap>,
    /// One row for each partition, empty for a topic without partitions.
    pub partitions: Vec<PartitionDetail>,
    pub drain: Option<DrainStats>,
    /// When the current status and trend were first seen.
    pub state_since: Option<String>,
    /// What the Kubernetes side suggests as a cause.
    pub kube_hint: Option<String>,
    pub error: Option<String>,
}

/// What a `HotPartition` says.
#[verifier::ext_equal]
pub struct HotView {
    pub partition: Seq<char>,
    pub backlog: int,
    pub backlog_bytes: int,
}

/// What a `PartitionGap` says.
#[verifier::ext_equal]
pub struct GapView {
    pub partition: Seq<char>,
    pub reason: Seq<char>,
}

/// What a `TrimmedPartition` says.
#[verifier::ext_equal]
pub struct TrimmedView {
    pub partition: Seq<char>,
    pub waiting_with_backlog: bool,
}

/// What an `AtEdgePartition` says.
#[verifier::ext_equal]
pub struct AtEdgeView {
    pub partition: Seq<char>,
    pub headroom: Option<int>,
}

/// What a `PartitionDetail` says.
#[verifier::ext_equal]
pub struct DetailView {
    pub partition: Seq<char>,
    pub index: int,
    pub backlog: int,
    pub backlog_bytes: int,
    pub consumers: int,
    pub unacked_messages: int,
    pub status: Seq<char>,
}

/// What a `TopicHealth` says.
#[verifier::ext_equal]
pub struct HealthView {
    pub topic: Seq<char>,
    pub status: Status,
    pub total_backlog: Option<int>,
    pub backlog_bytes: Option<int>,
    pub consumers: Option<int>,
    pub unacked_messages: Option<int>,
    pub msg_rate_out: Double,
    pub min_headroom: Option<int>,
    pub trimmed_partitions: Seq<TrimmedView>,
    pub at_edge_partitions: Seq<AtEdgeView>,
    pub hot_partitions: Seq<HotView>,
    pub partition_gaps: Seq<GapView>,
    pub partitions: Seq<DetailView>,
    pub drain: Option<DrainStats>,
    pub state_since: Option<Seq<char>>,
    pub kube_hint: Option<Seq<char>>,
    pub error: Option<Seq<char>>,
}

/// An optional machine integer as an optional integer.
pub open spec fn int_view(n: Option<i64>) -> Option<int> {
    match n {
        Some(v) => Some(v as int),
        None => None,
    }
}

impl DeepView for HotPartition {
    type V = HotView;

    open spec fn deep_view(&self) -> HotView {
        HotView {
            partition: self.partition@,
            backlog: self.backlog as int,
            backlog_bytes: self.backlog_bytes as int,
        }
    }
}

impl DeepView for PartitionGap {
    type V = GapView;

    open spec fn deep_view(&self) -> GapView {
        GapView { partition: self.partition@, reason: self.reason@ }
    }
}

impl DeepView for TrimmedPartition {
    type V = TrimmedView;

    open spec fn deep_view(&self) -> TrimmedView {
        TrimmedView {
            partition: self.partition@,
            waiting_with_backlog: self.waiting_with_backlog,
        }
    }
}

impl DeepView for AtEdgePartition {
    type V = AtEdgeView;

    open spec fn deep_view(&self) -> AtEdgeView {
        AtEdgeView { partition: self.partition@, headroom: int_view(self.headroom) }
    }
}

impl DeepView for PartitionDetail {
    type V = DetailView;

    open spec fn deep_view(&self) -> DetailView {
        DetailView {
            partition: self.partition@,
            index: self.index as int,
            backlog: self.backlog as int,
            backlog_bytes: self.backlog_bytes as int,
            consumers: self.consumers as int,
            unacked_messages: self.unacked_messages as int,
            status: self.status@,
        }
    }
}

impl DeepView for TopicHealth {
    type V = HealthView;

    open spec fn deep_view(&self) -> HealthView {
        HealthView {
            topic: self.topic@,
            status: self.status,
            total_backlog: int_view(self.total_backlog),
            backlog_bytes: int_view(self.backlog_bytes),
            consumers: int_view(self.consumers),
            unacked_messages: int_view(self.unacked_messages),
            msg_rate_out: self.msg_rate_out,
            min_headroom: int_view(self.min_headroom),
            trimmed_partitions: self.trimmed_partitions.deep_view(),
            at_edge_partitions: self.at_edge_partitions.deep_view(),
            hot_partitions: self.hot_partitions.deep_view(),
            partition_gaps: self.partition_gaps.deep_view(),
            partitions: self.partitions.deep_view(),
            drain: self.drain,
            state_since: self.state_since.deep_view(),
            kube_hint: self.kube_hint.deep_view(),
            error: self.error.deep_view(),
        }
    }
}

/// A verdict with nothing in it but the topic, the status, the rate and the
/// error.
pub open spec fn blank_health(
    topic: Seq<char>,
    status: Status,
    rate: Double,
    error: Option<Seq<char>>,
) -> HealthView {
    HealthView {
        topic,
        status,
        total_backlog: None,
        backlog_bytes: None,
        consumers: None,
        unacked_messages: None,
        msg_rate_out: rate,
        min_headroom: None,
        trimmed_partitions: Seq::empty(),
        at_edge_partitions: Seq::empty(),
        hot_partitions: Seq::empty(),
        partition_gaps: Seq::empty(),
        partitions: Seq::empty(),
        drain: None,
        state_since: None,
        kube_hint: None,
        error,
    }
}

impl TopicHealth {
    fn blank(topic: String, status: Status, rate: Double) -> (r: TopicHealth)
        ensures
            r.deep_view() == blank_health(topic@, status, rate, None),
    {
        let r = TopicHealth {
            topic,
            status,
            total_backlog: None,
            backlog_bytes: None,
            consumers: None,
            unacked_messages: None,
            msg_rate_out: rate,
            min_headroom: None,
            trimmed_partitions: Vec::new(),
            at_edge_partitions: Vec::new(),
            hot_partitions: Vec::new(),
            partition_gaps: Vec::new(),
            partitions: Vec::new(),
            drain: None,
            state_since: None,
            kube_hint: None,
            error: None,
        };
        assert(r.deep_view() =~= blank_health(topic@, status, rate, None));
        r
    }

    /// The verdict on a topic whose statistics could not be fetched. Nothing is
    /// known of its backlog.
    pub fn error(topic: &TopicName, error: &PulsarError) -> (r: TopicHealth)
        ensures
            r.deep_view() == blank_health(
                topic_text(topic.deep_view()),
                Status::Error,
                (Double { bits: 0 }),
                Some(pulsar_error_text(*error)),
            ),
    {
        let mut r = TopicHealth::blank(topic.text(), Status::Error, Double { bits: 0 });
        r.error = Some(error.message());
        r
    }

    /// The backlog, or 0 where it could not be measured.
    pub fn backlog_or_zero(&self) -> (r: i64)
        ensures
            r == (match self.total_backlog {
                Some(n) => n,
                None => 0,
            }),
    {
        self.total_backlog.unwrap_or(0)
    }

    /// The backlog in bytes, or 0 where it could not be measured.
    pub fn backlog_bytes_or_zero(&self) -> (r: i64)
        ensures
            r == (match self.backlog_bytes {
                Some(n) => n,
                None => 0,
            }),
    {
        self.backlog_bytes.unwrap_or(0)
    }

    /// The number of consumers, or 0 where it could not be measured.
    pub fn consumers_or_zero(&self) -> (r: i64)
        ensures
            r == (match self.consumers {
                Some(n) => n,
                None => 0,
            }),
    {
        self.consumers.unwrap_or(0)
    }

    /// The unacknowledged messages, or 0 where they could not be measured.
    pub fn unacked_or_zero(&self) -> (r: i64)
        ensures
            r == (match self.unacked_messages {
                Some(n) => n,
                None => 0,
            }),
    {
        self.unacked_messages.unwrap_or(0)
    }

    /// Whether the figures were measured.
    pub fn is_measured(&self) -> (r: bool)
        ensures
            r == self.total_backlog.is_some(),
    {
        self.total_backlog.is_some()
    }
}

// ── Evaluation ───────────────────────────────────────────────────────────────

/// The number of the partition called `name`: what follows the last
/// `-partition-` in it, and the greatest number where that is none.
pub open spec fn partition_number(name: Seq<char>) -> int {
    let suffix = match last(name, "-partition-"@) {
        Some(i) => name.subrange(i + 11, name.len() as int),
        None => name,
    };
    match unsigned32(suffix) {
        Some(n) => n,
        None => u32::MAX as int,
    }
}

/// Partition `a` comes before partition `b`.
pub open spec fn partition_before(a: Seq<char>, b: Seq<char>) -> bool {
    partition_number(a) < partition_number(b)
}

/// The names of the partitions, by number.
pub open spec fn partition_names(stats: TopicStats) -> Seq<Seq<char>> {
    sorted(
        stats.partitions@.map_values(|e: (String, TopicStats)| e.0@),
        |a: Seq<char>, b: Seq<char>| partition_before(a, b),
    )
}

/// The subscription on the partition called `name`.
pub open spec fn sub_on(stats: TopicStats, name: Seq<char>, subscription: Seq<char>) -> Option<
    SubscriptionStats,
> {
    match lookup(stats.partitions@, name) {
        Some(p) => lookup(p.subscriptions@, subscription),
        None => None,
    }
}

/// The subscription's backlog on the partition called `name`.
pub open spec fn backlog_on(stats: TopicStats, name: Seq<char>, subscription: Seq<char>) -> int {
    match sub_on(stats, name, subscription) {
        Some(s) => s.msg_backlog as int,
        None => 0,
    }
}

/// Consumers of the subscription over all partitions.
pub open spec fn consumer_sum(partitions: Seq<(String, TopicStats)>, subscription: Seq<char>) -> int
    decreases partitions.len(),
{
    if partitions.len() == 0 {
        0
    } else {
        consumer_sum(partitions.drop_last(), subscription) + (match lookup(
            partitions.last().1.subscriptions@,
            subscription,
        ) {
            Some(s) => s.consumers@.len() as int,
            None => 0,
        })
    }
}

/// The partition as a hot one: the backlog is over the threshold, whether or not
/// anyone consumes it.
pub open spec fn hot_on(
    stats: TopicStats,
    subscription: Seq<char>,
    threshold: int,
    name: Seq<char>,
) -> Option<HotView> {
    match sub_on(stats, name, subscription) {
        Some(s) if s.msg_backlog > threshold => Some(
            HotView {
                partition: name,
                backlog: s.msg_backlog as int,
                backlog_bytes: s.backlog_size as int,
            },
        ),
        _ => None,
    }
}

/// The partition as a gap: the subscription is absent or has no consumers.
pub open spec fn gap_on(stats: TopicStats, subscription: Seq<char>, name: Seq<char>) -> Option<
    GapView,
> {
    match sub_on(stats, name, subscription) {
        None => Some(GapView { partition: name, reason: "subscription_missing"@ }),
        Some(s) if s.consumers@.len() == 0 => Some(
            GapView { partition: name, reason: "no_consumers"@ },
        ),
        _ => None,
    }
}

/// The verdict on the cursor of the topic or partition called `name`, where its
/// internal statistics are known.
pub open spec fn cursor_on(
    internal: Seq<(String, InternalStats)>,
    subscription: Seq<char>,
    name: Seq<char>,
    backlog: int,
) -> Option<(TrimVerdict, Option<int>, bool)> {
    match lookup(internal, name) {
        Some(is) => Some(trim_status(is, subscription, backlog)),
        None => None,
    }
}

/// A cursor's entry in the list of trimmed partitions.
pub open spec fn trimmed_entry(
    name: Seq<char>,
    cursor: Option<(TrimVerdict, Option<int>, bool)>,
) -> Option<TrimmedView> {
    match cursor {
        Some(c) if c.0 == TrimVerdict::Stuck => Some(
            TrimmedView { partition: name, waiting_with_backlog: c.2 },
        ),
        _ => None,
    }
}

/// A cursor's entry in the list of partitions at the edge.
pub open spec fn at_edge_entry(
    name: Seq<char>,
    cursor: Option<(TrimVerdict, Option<int>, bool)>,
) -> Option<AtEdgeView> {
    match cursor {
        Some(c) if c.0 == TrimVerdict::AtEdge => Some(
            AtEdgeView { partition: name, headroom: c.1 },
        ),
        _ => None,
    }
}

/// The lesser of two headrooms, where both are known.
pub open spec fn lesser(a: Option<int>, b: Option<int>) -> Option<int> {
    match (a, b) {
        (Some(x), Some(y)) => Some(if x <= y { x } else { y }),
        (Some(x), None) => Some(x),
        (None, y) => y,
    }
}

/// A cursor's headroom.
pub open spec fn headroom_entry(cursor: Option<(TrimVerdict, Option<int>, bool)>) -> Option<int> {
    match cursor {
        Some(c) => c.1,
        None => None,
    }
}

/// The least headroom of the named partitions.
pub open spec fn least_headroom(
    names: Seq<Seq<char>>,
    f: spec_fn(Seq<char>) -> Option<(TrimVerdict, Option<int>, bool)>,
) -> Option<int>
    decreases names.len(),
{
    if names.len() == 0 {
        None
    } else {
        lesser(least_headroom(names.drop_last(), f), headroom_entry(f(names.last())))
    }
}

/// The status of one partition, the worst first.
pub open spec fn partition_label(
    sub_present: bool,
    consumers: int,
    backlog: int,
    threshold: int,
    cursor: Option<TrimVerdict>,
) -> Seq<char> {
    if cursor == Some(TrimVerdict::Stuck) {
        "trimmed"@
    } else if !sub_present {
        "subscription_missing"@
    } else if consumers == 0 {
        "no_consumers"@
    } else if cursor == Some(TrimVerdict::AtEdge) {
        "at_edge"@
    } else if backlog > threshold {
        "hot"@
    } else {
        "ok"@
    }
}

/// The row of the partition called `name`.
pub open spec fn detail_on(
    stats: TopicStats,
    subscription: Seq<char>,
    threshold: int,
    internal: Seq<(String, InternalStats)>,
    name: Seq<char>,
) -> DetailView {
    let sub = sub_on(stats, name, subscription);
    let backlog = backlog_on(stats, name, subscription);
    let consumers = match sub {
        Some(s) => s.consumers@.len() as int,
        None => 0,
    };
    DetailView {
        partition: name,
        index: partition_number(name),
        backlog,
        backlog_bytes: match sub {
            Some(s) => s.backlog_size as int,
            None => 0,
        },
        consumers,
        unacked_messages: match sub {
            Some(s) => unacked_sum(s.consumers@),
            None => 0,
        },
        status: partition_label(
            sub is Some,
            consumers,
            backlog,
            threshold,
            match cursor_on(internal, subscription, name, backlog) {
                Some(c) => Some(c.0),
                None => None,
            },
        ),
    }
}

/// The status of a topic with these findings, the most urgent first.
pub open spec fn classified(
    trimmed: Seq<TrimmedView>,
    consumers: Option<int>,
    gaps: Seq<GapView>,
    hot: Seq<HotView>,
) -> Status {
    if trimmed.len() > 0 {
        Status::Trimmed
    } else if consumers is None || consumers == Some(0int) {
        Status::NoConsumers
    } else if gaps.len() > 0 {
        Status::PartitionGap
    } else if hot.len() > 0 {
        Status::Backlog
    } else {
        Status::Healthy
    }
}

/// The verdict on a topic without partitions.
pub open spec fn evaluated_plain(
    topic: Seq<char>,
    stats: TopicStats,
    sub: SubscriptionStats,
    subscription: Seq<char>,
    threshold: int,
    internal: Seq<(String, InternalStats)>,
) -> HealthView {
    let backlog = sub.msg_backlog as int;
    let cursor = cursor_on(internal, subscription, topic, backlog);
    let hot = if backlog > threshold {
        seq![
            HotView { partition: topic, backlog, backlog_bytes: sub.backlog_size as int },
        ]
    } else {
        Seq::empty()
    };
    let trimmed = seq![topic].filter_map(|n: Seq<char>| trimmed_entry(n, cursor));
    let consumers = Some(sub.consumers@.len() as int);
    HealthView {
        status: classified(trimmed, consumers, Seq::empty(), hot),
        total_backlog: Some(backlog),
        backlog_bytes: Some(sub.backlog_size as int),
        consumers,
        unacked_messages: Some(unacked_sum(sub.consumers@)),
        min_headroom: headroom_entry(cursor),
        trimmed_partitions: trimmed,
        at_edge_partitions: seq![topic].filter_map(|n: Seq<char>| at_edge_entry(n, cursor)),
        hot_partitions: hot,
        ..blank_health(topic, Status::Healthy, stats.msg_rate_out, None)
    }
}

/// The verdict on a partitioned topic.
pub open spec fn evaluated_partitioned(
    topic: Seq<char>,
    stats: TopicStats,
    sub: SubscriptionStats,
    subscription: Seq<char>,
    threshold: int,
    internal: Seq<(String, InternalStats)>,
) -> HealthView {
    let names = partition_names(stats);
    let cursor = |n: Seq<char>|
        cursor_on(internal, subscription, n, backlog_on(stats, n, subscription));
    let own = sub.consumers@.len() as int;
    let sum = consumer_sum(stats.partitions@, subscription);
    let consumers = Some(
        if own >= sum {
            own
        } else {
            sum
        },
    );
    let trimmed = names.filter_map(|n: Seq<char>| trimmed_entry(n, cursor(n)));
    let gaps = names.filter_map(|n: Seq<char>| gap_on(stats, subscription, n));
    let hot = names.filter_map(|n: Seq<char>| hot_on(stats, subscription, threshold, n));
    HealthView {
        status: classified(trimmed, consumers, gaps, hot),
        total_backlog: Some(sub.msg_backlog as int),
        backlog_bytes: Some(sub.backlog_size as int),
        consumers,
        unacked_messages: Some(unacked_sum(sub.consumers@)),
        min_headroom: least_headroom(names, cursor),
        trimmed_partitions: trimmed,
        at_edge_partitions: names.filter_map(|n: Seq<char>| at_edge_entry(n, cursor(n))),
        hot_partitions: hot,
        partition_gaps: gaps,
        partitions: names.map_values(
            |n: Seq<char>| detail_on(stats, subscription, threshold, internal, n),
        ),
        ..blank_health(topic, Status::Healthy, stats.msg_rate_out, None)
    }
}

/// The verdict on a topic, from its statistics and the internal statistics that
/// could be had.
pub open spec fn evaluated(
    topic: Seq<char>,
    stats: TopicStats,
    subscription: Seq<char>,
    threshold: int,
    partitioned: bool,
    internal: Seq<(String, InternalStats)>,
) -> HealthView {
    match lookup(stats.subscriptions@, subscription) {
        None => blank_health(topic, Status::MissingSub, stats.msg_rate_out, None),
        Some(sub) => if partitioned {
            evaluated_partitioned(topic, stats, sub, subscription, threshold, internal)
        } else {
            evaluated_plain(topic, stats, sub, subscription, threshold, internal)
        },
    }
}

/// The figures of one topic or partition stay within 64 bits.
pub open spec fn figures_fit(
    sub: Option<SubscriptionStats>,
    internal: Seq<(String, InternalStats)>,
    subscription: Seq<char>,
    name: Seq<char>,
) -> bool {
    let backlog = match sub {
        Some(s) => s.msg_backlog as int,
        None => 0,
    };
    &&& sub matches Some(s) ==> unacked_fits(s.consumers@)
    &&& lookup(internal, name) matches Some(is) ==> cursor_fits(is, subscription, backlog)
}

/// `evaluate` stays within 64 bits.
pub open spec fn evaluation_fits(
    topic: Seq<char>,
    stats: TopicStats,
    subscription: Seq<char>,
    partitioned: bool,
    internal: Seq<(String, InternalStats)>,
) -> bool {
    lookup(stats.subscriptions@, subscription) matches Some(sub) ==> {
        &&& unacked_fits(sub.consumers@)
        &&& sub.consumers@.len() <= i64::MAX
        &&& partitioned ==> {
            &&& consumer_sum(stats.partitions@, subscription) <= i64::MAX
            &&& forall|i: int|
                0 <= i < stats.partitions@.len() ==> figures_fit(
                    sub_on(stats, #[trigger] stats.partitions@[i].0@, subscription),
                    internal,
                    subscription,
                    stats.partitions@[i].0@,
                )
        }
        &&& !partitioned ==> figures_fit(Some(sub), internal, subscription, topic)
    }
}

/// The number of the partition called `name`.
pub fn partition_index(name: &str) -> (r: u32)
    ensures
        r == partition_number(name@),
{
    let v = chars_of(name);
    let n: usize = v.len();
    proof {
        reveal_strlit("-partition-");
    }
    let from: usize = match rfind(v.as_slice(), "-partition-") {
        Some(i) => i + 11,
        None => 0,
    };
    let suffix = slice_of(v.as_slice(), from, n);
    assert(from == 0 ==> suffix@ =~= name@);
    match read_u32(suffix.as_slice()) {
        Some(k) => k,
        None => u32::MAX,
    }
}

/// The status of one partition.
fn partition_status(
    sub_present: bool,
    consumers: usize,
    backlog: i64,
    threshold: i64,
    cursor: Option<TrimVerdict>,
) -> (r: &'static str)
    ensures
        r@ == partition_label(
            sub_present,
            consumers as int,
            backlog as int,
            threshold as int,
            cursor,
        ),
{
    if matches!(cursor, Some(TrimVerdict::Stuck)) {
        return "trimmed";
    }
    if !sub_present {
        return "subscription_missing";
    }
    if consumers == 0 {
        return "no_consumers";
    }
    if matches!(cursor, Some(TrimVerdict::AtEdge)) {
        return "at_edge";
    }
    if backlog > threshold {
        return "hot";
    }
    "ok"
}

/// Fold one cursor's verdict into a topic's.
fn record_cursor(health: &mut TopicHealth, partition: &str, status: &CursorTrimStatus)
    ensures
        ({
            let old_view = old(health).deep_view();
            let cursor = Some(status_view(*status));
            final(health).deep_view() == HealthView {
                min_headroom: lesser(old_view.min_headroom, headroom_entry(cursor)),
                trimmed_partitions: match trimmed_entry(partition@, cursor) {
                    Some(e) => old_view.trimmed_partitions.push(e),
                    None => old_view.trimmed_partitions,
                },
                at_edge_partitions: match at_edge_entry(partition@, cursor) {
                    Some(e) => old_view.at_edge_partitions.push(e),
                    None => old_view.at_edge_partitions,
                },
                ..old_view
            }
        }),
{
    let ghost old_view = health.deep_view();
    if let Some(headroom) = status.headroom_entries {
        health.min_headroom = Some(
            match health.min_headroom {
                Some(current) => if current <= headroom {
                    current
                } else {
                    headroom
                },
                None => headroom,
            },
        );
    }
    match status.verdict {
        TrimVerdict::Stuck => {
            let e = TrimmedPartition {
                partition: copy_of(partition),
                waiting_with_backlog: status.waiting_with_backlog,
            };
            let ghost view = e.deep_view();
            health.trimmed_partitions.push(e);
            assert(health.trimmed_partitions.deep_view() =~= old_view.trimmed_partitions.push(view));
        },
        TrimVerdict::AtEdge => {
            let e = AtEdgePartition {
                partition: copy_of(partition),
                headroom: status.headroom_entries,
            };
            let ghost view = e.deep_view();
            health.at_edge_partitions.push(e);
            assert(health.at_edge_partitions.deep_view() =~= old_view.at_edge_partitions.push(view));
        },
        TrimVerdict::Safe => {},
        TrimVerdict::Unknown => {},
    }
}

/// The status of a topic with the findings in `health`.
pub fn classify(health: &TopicHealth) -> (r: Status)
    ensures
        r == classified(
            health.trimmed_partitions.deep_view(),
            int_view(health.consumers),
            health.partition_gaps.deep_view(),
            health.hot_partitions.deep_view(),
        ),
{
    if health.trimmed_partitions.len() > 0 {
        return Status::Trimmed;
    }
    if health.consumers_or_zero() == 0 {
        return Status::NoConsumers;
    }
    if health.partition_gaps.len() > 0 {
        return Status::PartitionGap;
    }
    if health.hot_partitions.len() > 0 {
        return Status::Backlog;
    }
    Status::Healthy
}

/// Whether partition `a` comes before partition `b`.
fn name_before(a: &String, b: &String) -> (r: bool)
    ensures
        r == partition_before(a@, b@),
{
    partition_index(a.as_str()) < partition_index(b.as_str())
}

/// The names of the partitions, by number.
fn ordered_names(stats: &TopicStats) -> (r: Vec<String>)
    ensures
        r.deep_view() == partition_names(*stats),
        forall|i: int|
            0 <= i < r@.len() ==> exists|j: int|
                0 <= j < stats.partitions@.len() && (#[trigger] r@[i])@
                    == #[trigger] stats.partitions@[j].0@,
{
    let mut names: Vec<String> = Vec::new();
    for i in 0..stats.partitions.len()
        invariant
            names@.len() == i,
            forall|j: int| 0 <= j < i ==> (#[trigger] names@[j])@ == stats.partitions@[j].0@,
    {
        names.push(copy_of(stats.partitions[i].0.as_str()));
    }
    let ghost given = names@;
    let ghost lt = |a: String, b: String| partition_before(a@, b@);
    let ghost lv = |a: Seq<char>, b: Seq<char>| partition_before(a, b);
    let ghost view = |a: String| a@;
    let r = sort_by(names, name_before, Ghost(lt));
    proof {
        lemma_sorted_map(given, view, lt, lv);
        assert(given.map_values(view) =~= stats.partitions@.map_values(
            |e: (String, TopicStats)| e.0@,
        ));
        assert(r.deep_view() =~= r@.map_values(view));
        lemma_sorted_ordered(given, lt);
        given.to_multiset_ensures();
        r@.to_multiset_ensures();
        assert forall|i: int| 0 <= i < r@.len() implies exists|j: int|
            0 <= j < stats.partitions@.len() && (#[trigger] r@[i])@
                == #[trigger] stats.partitions@[j].0@ by {
            assert(r@.to_multiset().contains(r@[i]));
            assert(given.contains(r@[i]));
            let j = choose|j: int| 0 <= j < given.len() && given[j] == r@[i];
            assert(r@[i]@ == stats.partitions@[j].0@);
        }
    }
    r
}

/// The subscription on the partition called `name`.
fn find_sub<'a>(stats: &'a TopicStats, name: &str, subscription: &str) -> (r: Option<
    &'a SubscriptionStats,
>)
    ensures
        match r {
            Some(s) => sub_on(*stats, name@, subscription@) == Some(*s),
            None => sub_on(*stats, name@, subscription@) is None,
        },
{
    match get(stats.partitions.as_slice(), name) {
        Some(p) => get(p.subscriptions.as_slice(), subscription),
        None => None,
    }
}

/// List the hot partitions and the gaps.
fn collect_partition_detail(
    health: &mut TopicHealth,
    names: &Vec<String>,
    stats: &TopicStats,
    subscription: &str,
    threshold: i64,
)
    requires
        old(health).hot_partitions@.len() == 0,
        old(health).partition_gaps@.len() == 0,
    ensures
        final(health).deep_view() == (HealthView {
            hot_partitions: names.deep_view().filter_map(
                |n: Seq<char>| hot_on(*stats, subscription@, threshold as int, n),
            ),
            partition_gaps: names.deep_view().filter_map(
                |n: Seq<char>| gap_on(*stats, subscription@, n),
            ),
            ..old(health).deep_view()
        }),
{
    let ghost old_view = health.deep_view();
    let ghost all = names.deep_view();
    let ghost hot = |n: Seq<char>| hot_on(*stats, subscription@, threshold as int, n);
    let ghost gap = |n: Seq<char>| gap_on(*stats, subscription@, n);
    assert(all.take(0) =~= Seq::empty());
    assert(health.deep_view() =~= (HealthView {
        hot_partitions: all.take(0).filter_map(hot),
        partition_gaps: all.take(0).filter_map(gap),
        ..old_view
    }));
    for i in 0..names.len()
        invariant
            all == names.deep_view(),
            hot == (|n: Seq<char>| hot_on(*stats, subscription@, threshold as int, n)),
            gap == (|n: Seq<char>| gap_on(*stats, subscription@, n)),
            health.deep_view() == (HealthView {
                hot_partitions: all.take(i as int).filter_map(hot),
                partition_gaps: all.take(i as int).filter_map(gap),
                ..old_view
            }),
    {
        let ghost before = health.deep_view();
        let name = names[i].as_str();
        proof {
            assert(all[i as int] == name@);
            all.lemma_filter_map_take_succ(hot, i as int);
            all.lemma_filter_map_take_succ(gap, i as int);
        }
        match find_sub(stats, name, subscription) {
            None => {
                let e = PartitionGap { partition: copy_of(name), reason: "subscription_missing" };
                let ghost view = e.deep_view();
                health.partition_gaps.push(e);
                assert(health.partition_gaps.deep_view() =~= before.partition_gaps.push(view));
            },
            Some(sub) => {
                if sub.consumers.len() == 0 {
                    let e = PartitionGap { partition: copy_of(name), reason: "no_consumers" };
                    let ghost view = e.deep_view();
                    health.partition_gaps.push(e);
                    assert(health.partition_gaps.deep_view() =~= before.partition_gaps.push(view));
                }
                if sub.msg_backlog > threshold {
                    let e = HotPartition {
                        partition: copy_of(name),
                        backlog: sub.msg_backlog,
                        backlog_bytes: sub.backlog_size,
                    };
                    let ghost view = e.deep_view();
                    health.hot_partitions.push(e);
                    assert(health.hot_partitions.deep_view() =~= before.hot_partitions.push(view));
                }
            },
        }
        assert(health.deep_view() =~= (HealthView {
            hot_partitions: all.take(i + 1).filter_map(hot),
            partition_gaps: all.take(i + 1).filter_map(gap),
            ..old_view
        }));
    }
    assert(all.take(all.len() as int) =~= all);
}

/// Consumers of the subscription over all partitions.
fn count_consumers(stats: &TopicStats, subscription: &str) -> (r: i64)
    requires
        consumer_sum(stats.partitions@, subscription@) <= i64::MAX,
    ensures
        r == consumer_sum(stats.partitions@, subscription@),
{
    let mut sum: i64 = 0;
    for i in 0..stats.partitions.len()
        invariant
            consumer_sum(stats.partitions@, subscription@) <= i64::MAX,
            sum == consumer_sum(stats.partitions@.take(i as int), subscription@),
            sum >= 0,
    {
        proof {
            assert(stats.partitions@.take(i + 1).drop_last() =~= stats.partitions@.take(i as int));
            lemma_consumer_sum_prefix(stats.partitions@, subscription@, i + 1);
        }
        if let Some(sub) = get(stats.partitions[i].1.subscriptions.as_slice(), subscription) {
            sum = sum + sub.consumers.len() as i64;
        }
    }
    assert(stats.partitions@.take(stats.partitions@.len() as int) =~= stats.partitions@);
    sum
}

proof fn lemma_consumer_sum_prefix(
    partitions: Seq<(String, TopicStats)>,
    subscription: Seq<char>,
    k: int,
)
    requires
        0 <= k <= partitions.len(),
    ensures
        0 <= consumer_sum(partitions.take(k), subscription) <= consumer_sum(
            partitions,
            subscription,
        ),
    decreases partitions.len(),
{
    if k == partitions.len() {
        assert(partitions.take(k) =~= partitions);
        if partitions.len() > 0 {
            let rest = partitions.drop_last();
            lemma_consumer_sum_prefix(rest, subscription, rest.len() as int);
            assert(rest.take(rest.len() as int) =~= rest);
        }
    } else {
        let rest = partitions.drop_last();
        lemma_consumer_sum_prefix(rest, subscription, k);
        assert(rest.take(k) =~= partitions.take(k));
    }
}

/// Add a row for each partition and fold its cursor in.
fn collect_rows(
    health: &mut TopicHealth,
    names: &Vec<String>,
    stats: &TopicStats,
    subscription: &str,
    threshold: i64,
    internal: &Vec<(String, InternalStats)>,
)
    requires
        old(health).partitions@.len() == 0,
        old(health).trimmed_partitions@.len() == 0,
        old(health).at_edge_partitions@.len() == 0,
        old(health).min_headroom is None,
        forall|i: int|
            0 <= i < names@.len() ==> figures_fit(
                sub_on(*stats, #[trigger] names@[i]@, subscription@),
                internal@,
                subscription@,
                names@[i]@,
            ),
    ensures
        ({
            let cursor = |n: Seq<char>|
                cursor_on(
                    internal@,
                    subscription@,
                    n,
                    backlog_on(*stats, n, subscription@),
                );
            final(health).deep_view() == (HealthView {
                min_headroom: least_headroom(names.deep_view(), cursor),
                trimmed_partitions: names.deep_view().filter_map(
                    |n: Seq<char>| trimmed_entry(n, cursor(n)),
                ),
                at_edge_partitions: names.deep_view().filter_map(
                    |n: Seq<char>| at_edge_entry(n, cursor(n)),
                ),
                partitions: names.deep_view().map_values(
                    |n: Seq<char>|
                        detail_on(*stats, subscription@, threshold as int, internal@, n),
                ),
                ..old(health).deep_view()
            })
        }),
{
    let ghost old_view = health.deep_view();
    let ghost all = names.deep_view();
    let ghost cursor = |n: Seq<char>|
        cursor_on(internal@, subscription@, n, backlog_on(*stats, n, subscription@));
    let ghost trimmed = |n: Seq<char>| trimmed_entry(n, cursor(n));
    let ghost at_edge = |n: Seq<char>| at_edge_entry(n, cursor(n));
    let ghost row = |n: Seq<char>|
        detail_on(*stats, subscription@, threshold as int, internal@, n);
    assert(all.take(0) =~= Seq::empty());
    assert(health.deep_view() =~= (HealthView {
        min_headroom: least_headroom(all.take(0), cursor),
        trimmed_partitions: all.take(0).filter_map(trimmed),
        at_edge_partitions: all.take(0).filter_map(at_edge),
        partitions: all.take(0).map_values(row),
        ..old_view
    }));
    for i in 0..names.len()
        invariant
            all == names.deep_view(),
            cursor == (|n: Seq<char>|
                cursor_on(internal@, subscription@, n, backlog_on(*stats, n, subscription@))),
            trimmed == (|n: Seq<char>| trimmed_entry(n, cursor(n))),
            at_edge == (|n: Seq<char>| at_edge_entry(n, cursor(n))),
            row == (|n: Seq<char>|
                detail_on(*stats, subscription@, threshold as int, internal@, n)),
            forall|i: int|
                0 <= i < names@.len() ==> figures_fit(
                    sub_on(*stats, #[trigger] names@[i]@, subscription@),
                    internal@,
                    subscription@,
                    names@[i]@,
                ),
            health.deep_view() == (HealthView {
                min_headroom: least_headroom(all.take(i as int), cursor),
                trimmed_partitions: all.take(i as int).filter_map(trimmed),
                at_edge_partitions: all.take(i as int).filter_map(at_edge),
                partitions: all.take(i as int).map_values(row),
                ..old_view
            }),
    {
        let ghost before = health.deep_view();
        let name = names[i].as_str();
        proof {
            assert(all[i as int] == name@);
            assert(name@ == names@[i as int]@);
            all.lemma_filter_map_take_succ(trimmed, i as int);
            all.lemma_filter_map_take_succ(at_edge, i as int);
            assert(all.take(i + 1).drop_last() =~= all.take(i as int));
            assert(all.take(i + 1).last() == name@);
        }
        let sub = find_sub(stats, name, subscription);
        let (backlog, backlog_bytes, consumers, unacked): (i64, i64, usize, i64) = match sub {
            Some(s) => (s.msg_backlog, s.backlog_size, s.consumers.len(), s.unacked_total()),
            None => (0, 0, 0, 0),
        };
        let mut verdict: Option<TrimVerdict> = None;
        if let Some(is) = get(internal.as_slice(), name) {
            let status = evaluate_cursor(is, subscription, backlog);
            verdict = Some(status.verdict);
            record_cursor(health, name, &status);
        }
        let ghost folded = health.deep_view();
        let e = PartitionDetail {
            partition: copy_of(name),
            index: partition_index(name),
            backlog,
            backlog_bytes,
            consumers,
            unacked_messages: unacked,
            status: partition_status(sub.is_some(), consumers, backlog, threshold, verdict),
        };
        let ghost view = e.deep_view();
        assert(view == row(name@));
        health.partitions.push(e);
        proof {
            assert(health.partitions.deep_view() =~= before.partitions.push(view));
            assert(all.take(i + 1).map_values(row) =~= all.take(i as int).map_values(row).push(
                view,
            ));
            assert(health.trimmed_partitions.deep_view() =~= all.take(i + 1).filter_map(trimmed));
            assert(health.at_edge_partitions.deep_view() =~= all.take(i + 1).filter_map(at_edge));
            assert(health.deep_view() =~= (HealthView {
                min_headroom: least_headroom(all.take(i + 1), cursor),
                trimmed_partitions: all.take(i + 1).filter_map(trimmed),
                at_edge_partitions: all.take(i + 1).filter_map(at_edge),
                partitions: all.take(i + 1).map_values(row),
                ..old_view
            }));
        }
    }
    assert(all.take(all.len() as int) =~= all);
}

/// Turn a topic's statistics into a verdict. `internal` holds the internal
/// statistics that could be had, by full topic name.
pub fn evaluate(
    topic: &TopicName,
    stats: &TopicStats,
    subscription: &str,
    threshold: i64,
    partitioned: bool,
    internal: &Vec<(String, InternalStats)>,
) -> (r: TopicHealth)
    requires
        evaluation_fits(
            topic_text(topic.deep_view()),
            *stats,
            subscription@,
            partitioned,
            internal@,
        ),
    ensures
        r.deep_view() == evaluated(
            topic_text(topic.deep_view()),
            *stats,
            subscription@,
            threshold as int,
            partitioned,
            internal@,
        ),
{
    let name = topic.text();
    let sub = match get(stats.subscriptions.as_slice(), subscription) {
        Some(s) => s,
        None => return TopicHealth::blank(name, Status::MissingSub, stats.msg_rate_out),
    };
    let mut health = TopicHealth::blank(topic.text(), Status::Healthy, stats.msg_rate_out);
    health.total_backlog = Some(sub.msg_backlog);
    health.backlog_bytes = Some(sub.backlog_size);
    health.consumers = Some(sub.consumers.len() as i64);
    health.unacked_messages = Some(sub.unacked_total());
    if partitioned {
        let names = ordered_names(stats);
        collect_partition_detail(&mut health, &names, stats, subscription, threshold);
        let own: i64 = sub.consumers.len() as i64;
        let sum: i64 = count_consumers(stats, subscription);
        health.consumers = Some(if own >= sum { own } else { sum });
        proof {
            assert forall|i: int| 0 <= i < names@.len() implies figures_fit(
                sub_on(*stats, #[trigger] names@[i]@, subscription@),
                internal@,
                subscription@,
                names@[i]@,
            ) by {
                let j = choose|j: int|
                    0 <= j < stats.partitions@.len() && names@[i]@
                        == #[trigger] stats.partitions@[j].0@;
            }
        }
        assert(health.partitions.deep_view().len() == 0);
        assert(health.trimmed_partitions.deep_view().len() == 0);
        assert(health.at_edge_partitions.deep_view().len() == 0);
        collect_rows(&mut health, &names, stats, subscription, threshold, internal);
    } else {
        let ghost view = name@;
        let ghost cursor = cursor_on(internal@, subscription@, view, sub.msg_backlog as int);
        let ghost trimmed = |n: Seq<char>| trimmed_entry(n, cursor);
        let ghost at_edge = |n: Seq<char>| at_edge_entry(n, cursor);
        proof {
            reveal_with_fuel(Seq::filter_map, 2);
            assert(seq![view].drop_last() =~= Seq::empty());
            assert(Seq::<Seq<char>>::empty().filter_map(trimmed) =~= Seq::empty());
            assert(Seq::<Seq<char>>::empty().filter_map(at_edge) =~= Seq::empty());
        }
        if sub.msg_backlog > threshold {
            let e = HotPartition {
                partition: topic.text(),
                backlog: sub.msg_backlog,
                backlog_bytes: sub.backlog_size,
            };
            health.hot_partitions.push(e);
        }
        if let Some(is) = get(internal.as_slice(), name.as_str()) {
            let status = evaluate_cursor(is, subscription, sub.msg_backlog);
            record_cursor(&mut health, name.as_str(), &status);
        }
        proof {
            assert(health.trimmed_partitions.deep_view() =~= seq![view].filter_map(trimmed));
            assert(health.at_edge_partitions.deep_view() =~= seq![view].filter_map(at_edge));
        }
    }
    health.status = classify(&health);
    assert(health.deep_view() =~= evaluated(
        name@,
        *stats,
        subscription@,
        threshold as int,
        partitioned,
        internal@,
    ));
    health
}

/// Whether the figures of one topic or partition stay within 64 bits.
fn figures_countable(
    sub: Option<&SubscriptionStats>,
    internal: &Vec<(String, InternalStats)>,
    subscription: &str,
    name: &str,
) -> (r: bool)
    ensures
        r == figures_fit(
            match sub {
                Some(s) => Some(*s),
                None => None,
            },
            internal@,
            subscription@,
            name@,
        ),
{
    let backlog: i64 = match sub {
        Some(s) => {
            if !s.unacked_countable() {
                return false;
            }
            s.msg_backlog
        },
        None => 0,
    };
    match get(internal.as_slice(), name) {
        Some(is) => cursor_countable(is, subscription, backlog),
        None => true,
    }
}

/// Whether `evaluate` stays within 64 bits.
pub fn evaluate_countable(
    topic: &TopicName,
    stats: &TopicStats,
    subscription: &str,
    partitioned: bool,
    internal: &Vec<(String, InternalStats)>,
) -> (r: bool)
    ensures
        r == evaluation_fits(
            topic_text(topic.deep_view()),
            *stats,
            subscription@,
            partitioned,
            internal@,
        ),
{
    let sub = match get(stats.subscriptions.as_slice(), subscription) {
        Some(s) => s,
        None => return true,
    };
    if !sub.unacked_countable() || sub.consumers.len() as u128 > i64::MAX as u128 {
        return false;
    }
    if !partitioned {
        return figures_countable(Some(sub), internal, subscription, topic.text().as_str());
    }
    let mut sum: i64 = 0;
    for i in 0..stats.partitions.len()
        invariant
            partitioned,
            lookup(stats.subscriptions@, subscription@) == Some(*sub),
            sum == consumer_sum(stats.partitions@.take(i as int), subscription@),
            0 <= sum,
            forall|j: int|
                0 <= j < i ==> figures_fit(
                    sub_on(*stats, #[trigger] stats.partitions@[j].0@, subscription@),
                    internal@,
                    subscription@,
                    stats.partitions@[j].0@,
                ),
    {
        proof {
            assert(stats.partitions@.take(i + 1).drop_last() =~= stats.partitions@.take(i as int));
            lemma_consumer_sum_prefix(stats.partitions@, subscription@, i + 1);
        }
        let name = stats.partitions[i].0.as_str();
        let on = find_sub(stats, name, subscription);
        if !figures_countable(on, internal, subscription, name) {
            assert(!figures_fit(
                sub_on(*stats, stats.partitions@[i as int].0@, subscription@),
                internal@,
                subscription@,
                stats.partitions@[i as int].0@,
            ));
            return false;
        }
        if let Some(own) = get(stats.partitions[i].1.subscriptions.as_slice(), subscription) {
            if own.consumers.len() as u128 > (i64::MAX - sum) as u128 {
                return false;
            }
            sum = sum + own.consumers.len() as i64;
        }
    }
    assert(stats.partitions@.take(stats.partitions@.len() as int) =~= stats.partitions@);
    true
}

// ── What to ask for ──────────────────────────────────────────────────────────

/// What to do next about a topic.
#[derive(Debug, Clone, Copy, PartialEq, Eq, Structural)]
pub enum NextStep {
    /// Ask the admin API for these statistics.
    Ask(StatsRequest),
    /// Use the statistics that came.
    Accept { partitioned: bool },
    /// Give up with the error that came.
    GiveUp,
}

/// How an answer of the admin API came out.
#[derive(Debug, Clone, Copy, PartialEq, Eq, Structural)]
pub enum Answer {
    /// Statistics came.
    Stats,
    /// There is no such topic.
    NotFound,
    /// Anything else went wrong.
    Failed,
}

/// How an answer came out.
pub fn answer_of<T>(result: &Result<T, PulsarError>) -> (r: Answer)
    ensures
        r == (match *result {
            Ok(_) => Answer::Stats,
            Err(PulsarError::NotFound) => Answer::NotFound,
            Err(_) => Answer::Failed,
        }),
{
    match result {
        Ok(_) => Answer::Stats,
        Err(PulsarError::NotFound) => Answer::NotFound,
        Err(_) => Answer::Failed,
    }
}

/// The step after `request` was answered. Only a partitioned or aggregate
/// request that finds no such topic is followed by another one: the topic may
/// have no partitions.
pub open spec fn step_after(request: StatsRequest, answer: Answer) -> NextStep {
    match (request, answer) {
        (StatsRequest::Partitioned, Answer::Stats) => NextStep::Accept { partitioned: true },
        (_, Answer::Stats) => NextStep::Accept { partitioned: false },
        (StatsRequest::Partitioned, Answer::NotFound) => NextStep::Ask(StatsRequest::Plain),
        (StatsRequest::Aggregate, Answer::NotFound) => NextStep::Ask(StatsRequest::Plain),
        _ => NextStep::GiveUp,
    }
}

/// What to ask for first when a topic's health is checked: a partition has
/// plain statistics, any other topic may have partitions.
pub fn first_check(topic: &TopicName) -> (r: StatsRequest)
    ensures
        r == (if has(topic.local@, "-partition-"@) {
            StatsRequest::Plain
        } else {
            StatsRequest::Partitioned
        }),
{
    if topic.is_partition() {
        StatsRequest::Plain
    } else {
        StatsRequest::Partitioned
    }
}

/// What to ask for first when only a topic's backlog is read.
pub fn first_sample(topic: &TopicName) -> (r: StatsRequest)
    ensures
        r == (if has(topic.local@, "-partition-"@) {
            StatsRequest::Plain
        } else {
            StatsRequest::Aggregate
        }),
{
    if topic.is_partition() {
        StatsRequest::Plain
    } else {
        StatsRequest::Aggregate
    }
}

/// The step after `request` was answered.
pub fn next_step(request: StatsRequest, answer: Answer) -> (r: NextStep)
    ensures
        r == step_after(request, answer),
{
    match answer {
        Answer::Stats => match request {
            StatsRequest::Partitioned => NextStep::Accept { partitioned: true },
            _ => NextStep::Accept { partitioned: false },
        },
        Answer::NotFound => match request {
            StatsRequest::Partitioned => NextStep::Ask(StatsRequest::Plain),
            StatsRequest::Aggregate => NextStep::Ask(StatsRequest::Plain),
            _ => NextStep::GiveUp,
        },
        Answer::Failed => NextStep::GiveUp,
    }
}

/// The subscription's backlog in statistics that came, where it is there.
pub fn sample_backlog(stats: &TopicStats, subscription: &str) -> (r: Option<i64>)
    ensures
        r == (match lookup(stats.subscriptions@, subscription@) {
            Some(s) => Some(s.msg_backlog),
            None => None,
        }),
{
    match get(stats.subscriptions.as_slice(), subscription) {
        Some(s) => Some(s.msg_backlog),
        None => None,
    }
}

/// The topic that a partition's entry names, where it is a topic name.
pub open spec fn entry_topic(e: (String, TopicStats)) -> Option<TopicParts> {
    topic_parts(e.0@)
}

/// The topics whose internal statistics belong to the partitions in `stats`, in
/// the order of the list. A partition whose name is no topic name is left out.
pub fn partition_topics(stats: &TopicStats) -> (r: Vec<TopicName>)
    ensures
        r.deep_view() == stats.partitions@.filter_map(|e: (String, TopicStats)| entry_topic(e)),
{
    let mut r: Vec<TopicName> = Vec::new();
    let ghost f = |e: (String, TopicStats)| entry_topic(e);
    let ghost all = stats.partitions@;
    assert(all.take(0) =~= Seq::empty());
    assert(r.deep_view() =~= all.take(0).filter_map(f));
    for i in 0..stats.partitions.len()
        invariant
            all == stats.partitions@,
            f == (|e: (String, TopicStats)| entry_topic(e)),
            r.deep_view() == all.take(i as int).filter_map(f),
    {
        let ghost before = r.deep_view();
        proof {
            all.lemma_filter_map_take_succ(f, i as int);
        }
        if let Ok(t) = TopicName::parse(stats.partitions[i].0.as_str()) {
            let ghost view = t.deep_view();
            r.push(t);
            assert(r.deep_view() =~= before.push(view));
        }
        assert(r.deep_view() =~= all.take(i + 1).filter_map(f));
    }
    assert(all.take(all.len() as int) =~= all);
    r
}

// ── Laws ─────────────────────────────────────────────────────────────────────

/// A topic is asked about at most twice: whatever comes second is final.
pub proof fn lemma_two_requests(request: StatsRequest, answer: Answer, second: Answer)
    ensures
        step_after(request, answer) matches NextStep::Ask(again) ==> step_after(
            again,
            second,
        ) !is Ask,
{
}

/// The verdicts rank by urgency: a trimmed cursor outranks everything, then a
/// subscription without consumers, then gaps, then backlog.
pub proof fn lemma_status_priority(
    topic: Seq<char>,
    stats: TopicStats,
    subscription: Seq<char>,
    threshold: int,
    partitioned: bool,
    internal: Seq<(String, InternalStats)>,
)
    ensures
        ({
            let h = evaluated(topic, stats, subscription, threshold, partitioned, internal);
            let known = lookup(stats.subscriptions@, subscription) is Some;
            &&& h.status == Status::MissingSub <==> !known
            &&& h.status == Status::Trimmed <==> known && h.trimmed_partitions.len() > 0
            &&& h.status == Status::NoConsumers <==> known && h.trimmed_partitions.len() == 0
                && h.consumers == Some(0int)
            &&& h.status == Status::PartitionGap <==> known && h.trimmed_partitions.len() == 0
                && h.consumers != Some(0int) && h.partition_gaps.len() > 0
            &&& h.status == Status::Backlog <==> known && h.trimmed_partitions.len() == 0
                && h.consumers != Some(0int) && h.partition_gaps.len() == 0
                && h.hot_partitions.len() > 0
            &&& h.status != Status::Error
        }),
{
}

/// Figures are there exactly when the subscription is: nothing unmeasured is
/// ever reported as a number.
pub proof fn lemma_measured(
    topic: Seq<char>,
    stats: TopicStats,
    subscription: Seq<char>,
    threshold: int,
    partitioned: bool,
    internal: Seq<(String, InternalStats)>,
)
    ensures
        ({
            let h = evaluated(topic, stats, subscription, threshold, partitioned, internal);
            let measured = h.status != Status::MissingSub;
            &&& h.total_backlog is Some <==> measured
            &&& h.backlog_bytes is Some <==> measured
            &&& h.consumers is Some <==> measured
            &&& h.unacked_messages is Some <==> measured
        }),
{
}

/// A healthy topic has consumers, no stuck cursor, no gap and no hot partition.
pub proof fn lemma_healthy(
    topic: Seq<char>,
    stats: TopicStats,
    subscription: Seq<char>,
    threshold: int,
    partitioned: bool,
    internal: Seq<(String, InternalStats)>,
)
    requires
        evaluated(topic, stats, subscription, threshold, partitioned, internal).status
            == Status::Healthy,
    ensures
        ({
            let h = evaluated(topic, stats, subscription, threshold, partitioned, internal);
            &&& h.consumers is Some && h.consumers != Some(0int)
            &&& h.trimmed_partitions.len() == 0
            &&& h.partition_gaps.len() == 0
            &&& h.hot_partitions.len() == 0
        }),
{
}

/// A partitioned topic has exactly one row for each partition, in the order of
/// their numbers.
pub proof fn lemma_one_row_per_partition(
    topic: Seq<char>,
    stats: TopicStats,
    subscription: Seq<char>,
    threshold: int,
    internal: Seq<(String, InternalStats)>,
)
    requires
        lookup(stats.subscriptions@, subscription) is Some,
    ensures
        ({
            let h = evaluated(topic, stats, subscription, threshold, true, internal);
            &&& h.partitions.len() == stats.partitions@.len()
            &&& h.partitions.map_values(|d: DetailView| d.partition).to_multiset()
                == stats.partitions@.map_values(|e: (String, TopicStats)| e.0@).to_multiset()
            &&& forall|i: int, j: int|
                0 <= i < j < h.partitions.len() ==> (#[trigger] h.partitions[i]).index <= (
                #[trigger] h.partitions[j]).index
        }),
{
    let h = evaluated(topic, stats, subscription, threshold, true, internal);
    let lt = |a: Seq<char>, b: Seq<char>| partition_before(a, b);
    let given = stats.partitions@.map_values(|e: (String, TopicStats)| e.0@);
    let names = partition_names(stats);
    lemma_sorted_ordered(given, lt);
    assert(h.partitions.map_values(|d: DetailView| d.partition) =~= names);
    assert forall|i: int, j: int| 0 <= i < j < h.partitions.len() implies (
    #[trigger] h.partitions[i]).index <= (#[trigger] h.partitions[j]).index by {
        assert(!lt(names[j], names[i]));
    }
}

/// The names of the partitions in order are the names of the partitions, each
/// once where they are distinct.
proof fn lemma_partition_names(stats: TopicStats)
    ensures
        forall|n: Seq<char>|
            partition_names(stats).contains(n) <==> exists|i: int|
                0 <= i < stats.partitions@.len() && (#[trigger] stats.partitions@[i]).0@ == n,
        distinct_names(stats.partitions@) ==> partition_names(stats).no_duplicates(),
        forall|i: int, j: int|
            0 <= i < j < partition_names(stats).len() ==> partition_number(
                #[trigger] partition_names(stats)[i],
            ) <= partition_number(#[trigger] partition_names(stats)[j]),
{
    let lt = |a: Seq<char>, b: Seq<char>| partition_before(a, b);
    let given = stats.partitions@.map_values(|e: (String, TopicStats)| e.0@);
    let names = partition_names(stats);
    lemma_sorted_ordered(given, lt);
    given.to_multiset_ensures();
    names.to_multiset_ensures();
    assert forall|n: Seq<char>| names.contains(n) <==> exists|i: int|
        0 <= i < stats.partitions@.len() && (#[trigger] stats.partitions@[i]).0@ == n by {
        assert(names.to_multiset().count(n) == given.to_multiset().count(n));
        assert(names.contains(n) <==> given.contains(n));
        if given.contains(n) {
            let i = choose|i: int| 0 <= i < given.len() && given[i] == n;
            assert(stats.partitions@[i].0@ == n);
        }
        if exists|i: int|
            0 <= i < stats.partitions@.len() && (#[trigger] stats.partitions@[i]).0@ == n {
            let i = choose|i: int|
                0 <= i < stats.partitions@.len() && (#[trigger] stats.partitions@[i]).0@ == n;
            assert(given[i] == n);
        }
    }
    if distinct_names(stats.partitions@) {
        assert(given.no_duplicates());
        given.lemma_multiset_has_no_duplicates();
        names.lemma_multiset_has_no_duplicates_conv();
    }
    assert forall|i: int, j: int| 0 <= i < j < names.len() implies partition_number(
        #[trigger] names[i],
    ) <= partition_number(#[trigger] names[j]) by {
        assert(!lt(names[j], names[i]));
    }
}

/// A partition is hot exactly where it carries the subscription with a backlog
/// over the threshold that was given, and it is listed with that backlog.
pub proof fn lemma_hot_partitions(
    topic: Seq<char>,
    stats: TopicStats,
    subscription: Seq<char>,
    threshold: int,
    internal: Seq<(String, InternalStats)>,
    hot: HotView,
)
    requires
        lookup(stats.subscriptions@, subscription) is Some,
        distinct_names(stats.partitions@),
    ensures
        evaluated(
            topic,
            stats,
            subscription,
            threshold,
            true,
            internal,
        ).hot_partitions.contains(hot) <==> exists|i: int|
            0 <= i < stats.partitions@.len() && (#[trigger] stats.partitions@[i]).0@
                == hot.partition && (match lookup(
                stats.partitions@[i].1.subscriptions@,
                subscription,
            ) {
                Some(s) => s.msg_backlog > threshold && s.msg_backlog == hot.backlog
                    && s.backlog_size == hot.backlog_bytes,
                None => false,
            }),
{
    let names = partition_names(stats);
    let f = |n: Seq<char>| hot_on(stats, subscription, threshold, n);
    let p = stats.partitions@;
    lemma_partition_names(stats);
    lemma_filter_map_member(names, f, hot);
    if names.filter_map(f).contains(hot) {
        let k = choose|k: int| 0 <= k < names.len() && f(#[trigger] names[k]) == Some(hot);
        assert(names.contains(names[k]));
        let i = choose|i: int| 0 <= i < p.len() && (#[trigger] p[i]).0@ == names[k];
        lemma_lookup_own(p, i);
    }
    assert forall|i: int|
        0 <= i < p.len() && (#[trigger] p[i]).0@ == hot.partition && (match lookup(
            p[i].1.subscriptions@,
            subscription,
        ) {
            Some(s) => s.msg_backlog > threshold && s.msg_backlog == hot.backlog && s.backlog_size
                == hot.backlog_bytes,
            None => false,
        }) implies names.filter_map(f).contains(hot) by {
        lemma_lookup_own(p, i);
        assert(names.contains(p[i].0@));
        let k = choose|k: int| 0 <= k < names.len() && names[k] == p[i].0@;
        assert(f(names[k]) == Some(hot));
    }
}

/// A partition is a gap exactly where the subscription is absent from it or has no
/// consumers on it, and the reason says which.
pub proof fn lemma_partition_gaps(
    topic: Seq<char>,
    stats: TopicStats,
    subscription: Seq<char>,
    threshold: int,
    internal: Seq<(String, InternalStats)>,
    gap: GapView,
)
    requires
        lookup(stats.subscriptions@, subscription) is Some,
        distinct_names(stats.partitions@),
    ensures
        evaluated(
            topic,
            stats,
            subscription,
            threshold,
            true,
            internal,
        ).partition_gaps.contains(gap) <==> exists|i: int|
            0 <= i < stats.partitions@.len() && (#[trigger] stats.partitions@[i]).0@
                == gap.partition && (match lookup(
                stats.partitions@[i].1.subscriptions@,
                subscription,
            ) {
                Some(s) => s.consumers@.len() == 0 && gap.reason == "no_consumers"@,
                None => gap.reason == "subscription_missing"@,
            }),
{
    let names = partition_names(stats);
    let f = |n: Seq<char>| gap_on(stats, subscription, n);
    let p = stats.partitions@;
    lemma_partition_names(stats);
    lemma_filter_map_member(names, f, gap);
    if names.filter_map(f).contains(gap) {
        let k = choose|k: int| 0 <= k < names.len() && f(#[trigger] names[k]) == Some(gap);
        assert(names.contains(names[k]));
        let i = choose|i: int| 0 <= i < p.len() && (#[trigger] p[i]).0@ == names[k];
        lemma_lookup_own(p, i);
    }
    assert forall|i: int|
        0 <= i < p.len() && (#[trigger] p[i]).0@ == gap.partition && (match lookup(
            p[i].1.subscriptions@,
            subscription,
        ) {
            Some(s) => s.consumers@.len() == 0 && gap.reason == "no_consumers"@,
            None => gap.reason == "subscription_missing"@,
        }) implies names.filter_map(f).contains(gap) by {
        lemma_lookup_own(p, i);
        assert(names.contains(p[i].0@));
        let k = choose|k: int| 0 <= k < names.len() && names[k] == p[i].0@;
        assert(f(names[k]) == Some(gap));
    }
}

/// The findings on a partitioned topic name each partition at most once, in the
/// order of the partitions' numbers.
pub proof fn lemma_findings_in_order(
    topic: Seq<char>,
    stats: TopicStats,
    subscription: Seq<char>,
    threshold: int,
    internal: Seq<(String, InternalStats)>,
)
    requires
        distinct_names(stats.partitions@),
    ensures
        ({
            let h = evaluated(topic, stats, subscription, threshold, true, internal);
            &&& forall|k: int, l: int|
                0 <= k < l < h.hot_partitions.len() ==> in_order(
                    (#[trigger] h.hot_partitions[k]).partition,
                    (#[trigger] h.hot_partitions[l]).partition,
                )
            &&& forall|k: int, l: int|
                0 <= k < l < h.partition_gaps.len() ==> in_order(
                    (#[trigger] h.partition_gaps[k]).partition,
                    (#[trigger] h.partition_gaps[l]).partition,
                )
            &&& forall|k: int, l: int|
                0 <= k < l < h.trimmed_partitions.len() ==> in_order(
                    (#[trigger] h.trimmed_partitions[k]).partition,
                    (#[trigger] h.trimmed_partitions[l]).partition,
                )
            &&& forall|k: int, l: int|
                0 <= k < l < h.at_edge_partitions.len() ==> in_order(
                    (#[trigger] h.at_edge_partitions[k]).partition,
                    (#[trigger] h.at_edge_partitions[l]).partition,
                )
        }),
{
    let names = partition_names(stats);
    lemma_partition_names(stats);
    let rel = |a: Seq<char>, b: Seq<char>| in_order(a, b);
    let cursor = |n: Seq<char>|
        cursor_on(internal, subscription, n, backlog_on(stats, n, subscription));
    lemma_filter_map_order(
        names,
        |n: Seq<char>| hot_on(stats, subscription, threshold, n),
        |v: HotView| v.partition,
        rel,
    );
    lemma_filter_map_order(
        names,
        |n: Seq<char>| gap_on(stats, subscription, n),
        |v: GapView| v.partition,
        rel,
    );
    lemma_filter_map_order(
        names,
        |n: Seq<char>| trimmed_entry(n, cursor(n)),
        |v: TrimmedView| v.partition,
        rel,
    );
    lemma_filter_map_order(
        names,
        |n: Seq<char>| at_edge_entry(n, cursor(n)),
        |v: AtEdgeView| v.partition,
        rel,
    );
    let h = evaluated(topic, stats, subscription, threshold, true, internal);
    if lookup(stats.subscriptions@, subscription) is Some {
        let hot = |v: HotView| v.partition;
        assert forall|k: int, l: int| 0 <= k < l < h.hot_partitions.len() implies in_order(
            (#[trigger] h.hot_partitions[k]).partition,
            (#[trigger] h.hot_partitions[l]).partition,
        ) by {
            assert(rel(hot(h.hot_partitions[k]), hot(h.hot_partitions[l])));
        }
        let gap = |v: GapView| v.partition;
        assert forall|k: int, l: int| 0 <= k < l < h.partition_gaps.len() implies in_order(
            (#[trigger] h.partition_gaps[k]).partition,
            (#[trigger] h.partition_gaps[l]).partition,
        ) by {
            assert(rel(gap(h.partition_gaps[k]), gap(h.partition_gaps[l])));
        }
        let trim = |v: TrimmedView| v.partition;
        assert forall|k: int, l: int| 0 <= k < l < h.trimmed_partitions.len() implies in_order(
            (#[trigger] h.trimmed_partitions[k]).partition,
            (#[trigger] h.trimmed_partitions[l]).partition,
        ) by {
            assert(rel(trim(h.trimmed_partitions[k]), trim(h.trimmed_partitions[l])));
        }
        let edge = |v: AtEdgeView| v.partition;
        assert forall|k: int, l: int| 0 <= k < l < h.at_edge_partitions.len() implies in_order(
            (#[trigger] h.at_edge_partitions[k]).partition,
            (#[trigger] h.at_edge_partitions[l]).partition,
        ) by {
            assert(rel(edge(h.at_edge_partitions[k]), edge(h.at_edge_partitions[l])));
        }
    }
}

/// Two different partitions, the one with the lesser number first.
pub open spec fn in_order(a: Seq<char>, b: Seq<char>) -> bool {
    a != b && partition_number(a) <= partition_number(b)
}

/// What the internal statistics tell of the cursor on the partition at place `i`.
pub open spec fn cursor_at(
    stats: TopicStats,
    subscription: Seq<char>,
    internal: Seq<(String, InternalStats)>,
    i: int,
) -> Option<(TrimVerdict, Option<int>, bool)> {
    match lookup(internal, stats.partitions@[i].0@) {
        Some(is) => Some(
            trim_status(
                is,
                subscription,
                match lookup(stats.partitions@[i].1.subscriptions@, subscription) {
                    Some(s) => s.msg_backlog as int,
                    None => 0,
                },
            ),
        ),
        None => None,
    }
}

/// The partitions in order have the cursors that the partitions have.
proof fn lemma_cursor_at(
    stats: TopicStats,
    subscription: Seq<char>,
    internal: Seq<(String, InternalStats)>,
    i: int,
)
    requires
        distinct_names(stats.partitions@),
        0 <= i < stats.partitions@.len(),
    ensures
        cursor_on(
            internal,
            subscription,
            stats.partitions@[i].0@,
            backlog_on(stats, stats.partitions@[i].0@, subscription),
        ) == cursor_at(stats, subscription, internal, i),
{
    lemma_lookup_own(stats.partitions@, i);
}

/// The least headroom of a partitioned topic is that of some partition, no
/// partition has less, and it is absent only where no partition's is known.
pub proof fn lemma_least_headroom(
    topic: Seq<char>,
    stats: TopicStats,
    subscription: Seq<char>,
    threshold: int,
    internal: Seq<(String, InternalStats)>,
)
    requires
        lookup(stats.subscriptions@, subscription) is Some,
        distinct_names(stats.partitions@),
    ensures
        ({
            let least = evaluated(
                topic,
                stats,
                subscription,
                threshold,
                true,
                internal,
            ).min_headroom;
            &&& least is Some ==> exists|i: int|
                0 <= i < stats.partitions@.len() && (#[trigger] cursor_at(
                    stats,
                    subscription,
                    internal,
                    i,
                )) is Some && (cursor_at(stats, subscription, internal, i)->0).1 == least
            &&& forall|i: int|
                0 <= i < stats.partitions@.len() ==> match #[trigger] cursor_at(
                    stats,
                    subscription,
                    internal,
                    i,
                ) {
                    Some(c) => c.1 is Some ==> least is Some && least->0 <= c.1->0,
                    None => true,
                }
        }),
{
    let names = partition_names(stats);
    let p = stats.partitions@;
    let cursor = |n: Seq<char>|
        cursor_on(internal, subscription, n, backlog_on(stats, n, subscription));
    lemma_partition_names(stats);
    lemma_least_of(names, cursor);
    let least = least_headroom(names, cursor);
    if least is Some {
        let k = choose|k: int|
            0 <= k < names.len() && (cursor(#[trigger] names[k]) is Some && (cursor(names[k])->0).1
                == least);
        assert(names.contains(names[k]));
        let i = choose|i: int| 0 <= i < p.len() && (#[trigger] p[i]).0@ == names[k];
        lemma_cursor_at(stats, subscription, internal, i);
    }
    assert forall|i: int| 0 <= i < p.len() implies match #[trigger] cursor_at(
        stats,
        subscription,
        internal,
        i,
    ) {
        Some(c) => c.1 is Some ==> least is Some && least->0 <= c.1->0,
        None => true,
    } by {
        lemma_cursor_at(stats, subscription, internal, i);
        assert(names.contains(p[i].0@));
        let k = choose|k: int| 0 <= k < names.len() && names[k] == p[i].0@;
        assert(cursor(names[k]) == cursor_at(stats, subscription, internal, i));
    }
}

/// The least of the headrooms that are known.
proof fn lemma_least_of(
    names: Seq<Seq<char>>,
    f: spec_fn(Seq<char>) -> Option<(TrimVerdict, Option<int>, bool)>,
)
    ensures
        ({
            let least = least_headroom(names, f);
            &&& least is Some ==> exists|k: int|
                0 <= k < names.len() && (f(#[trigger] names[k]) is Some && (f(names[k])->0).1 == least)
            &&& forall|k: int|
                0 <= k < names.len() ==> match f(#[trigger] names[k]) {
                    Some(c) => c.1 is Some ==> least is Some && least->0 <= c.1->0,
                    None => true,
                }
        }),
    decreases names.len(),
{
    if names.len() > 0 {
        let rest = names.drop_last();
        let least = least_headroom(names, f);
        let before = least_headroom(rest, f);
        lemma_least_of(rest, f);
        let last = names[names.len() - 1];
        if least is Some {
            if before == least {
                let k = choose|k: int|
                    0 <= k < rest.len() && (f(#[trigger] rest[k]) is Some && (f(rest[k])->0).1
                        == before);
                assert(names[k] == rest[k]);
            } else {
                assert(f(last) is Some && (f(last)->0).1 == least);
            }
        }
        assert forall|k: int| 0 <= k < names.len() implies match f(#[trigger] names[k]) {
            Some(c) => c.1 is Some ==> least is Some && least->0 <= c.1->0,
            None => true,
        } by {
            if k < rest.len() {
                assert(names[k] == rest[k]);
            }
        }
    }
}

/// A partition is listed as trimmed exactly where its cursor is stuck, and as at
/// the edge exactly where its cursor is there, with what the cursor tells.
pub proof fn lemma_cursor_findings(
    topic: Seq<char>,
    stats: TopicStats,
    subscription: Seq<char>,
    threshold: int,
    internal: Seq<(String, InternalStats)>,
    trimmed: TrimmedView,
    edge: AtEdgeView,
)
    requires
        lookup(stats.subscriptions@, subscription) is Some,
        distinct_names(stats.partitions@),
    ensures
        ({
            let h = evaluated(topic, stats, subscription, threshold, true, internal);
            &&& h.trimmed_partitions.contains(trimmed) <==> exists|i: int|
                0 <= i < stats.partitions@.len() && (#[trigger] stats.partitions@[i]).0@
                    == trimmed.partition && (match cursor_at(stats, subscription, internal, i) {
                    Some(c) => c.0 == TrimVerdict::Stuck && c.2 == trimmed.waiting_with_backlog,
                    None => false,
                })
            &&& h.at_edge_partitions.contains(edge) <==> exists|i: int|
                0 <= i < stats.partitions@.len() && (#[trigger] stats.partitions@[i]).0@
                    == edge.partition && (match cursor_at(stats, subscription, internal, i) {
                    Some(c) => c.0 == TrimVerdict::AtEdge && c.1 == edge.headroom,
                    None => false,
                })
        }),
{
    let names = partition_names(stats);
    let p = stats.partitions@;
    let cursor = |n: Seq<char>|
        cursor_on(internal, subscription, n, backlog_on(stats, n, subscription));
    let f = |n: Seq<char>| trimmed_entry(n, cursor(n));
    let g = |n: Seq<char>| at_edge_entry(n, cursor(n));
    lemma_partition_names(stats);
    lemma_filter_map_member(names, f, trimmed);
    lemma_filter_map_member(names, g, edge);
    assert forall|i: int| 0 <= i < p.len() implies cursor((#[trigger] p[i]).0@) == cursor_at(
        stats,
        subscription,
        internal,
        i,
    ) && names.contains(p[i].0@) by {
        lemma_cursor_at(stats, subscription, internal, i);
    }
    if names.filter_map(f).contains(trimmed) {
        let k = choose|k: int| 0 <= k < names.len() && f(#[trigger] names[k]) == Some(trimmed);
        assert(names.contains(names[k]));
        let i = choose|i: int| 0 <= i < p.len() && (#[trigger] p[i]).0@ == names[k];
        assert(cursor(p[i].0@) == cursor_at(stats, subscription, internal, i));
    }
    if names.filter_map(g).contains(edge) {
        let k = choose|k: int| 0 <= k < names.len() && g(#[trigger] names[k]) == Some(edge);
        assert(names.contains(names[k]));
        let i = choose|i: int| 0 <= i < p.len() && (#[trigger] p[i]).0@ == names[k];
        assert(cursor(p[i].0@) == cursor_at(stats, subscription, internal, i));
    }
    assert forall|i: int|
        0 <= i < p.len() && (#[trigger] p[i]).0@ == trimmed.partition && (match cursor_at(
            stats,
            subscription,
            internal,
            i,
        ) {
            Some(c) => c.0 == TrimVerdict::Stuck && c.2 == trimmed.waiting_with_backlog,
            None => false,
        }) implies names.filter_map(f).contains(trimmed) by {
        let k = choose|k: int| 0 <= k < names.len() && names[k] == p[i].0@;
        assert(f(names[k]) == Some(trimmed));
    }
    assert forall|i: int|
        0 <= i < p.len() && (#[trigger] p[i]).0@ == edge.partition && (match cursor_at(
            stats,
            subscription,
            internal,
            i,
        ) {
            Some(c) => c.0 == TrimVerdict::AtEdge && c.1 == edge.headroom,
            None => false,
        }) implies names.filter_map(g).contains(edge) by {
        let k = choose|k: int| 0 <= k < names.len() && names[k] == p[i].0@;
        assert(g(names[k]) == Some(edge));
    }
}

/// The row of a partition has what the statistics of that partition say, and its
/// status is the worst of what holds of it.
pub proof fn lemma_partition_row(
    topic: Seq<char>,
    stats: TopicStats,
    subscription: Seq<char>,
    threshold: int,
    internal: Seq<(String, InternalStats)>,
    i: int,
    k: int,
)
    requires
        lookup(stats.subscriptions@, subscription) is Some,
        distinct_names(stats.partitions@),
        0 <= i < stats.partitions@.len(),
        0 <= k < stats.partitions@.len(),
        evaluated(topic, stats, subscription, threshold, true, internal).partitions[k].partition
            == stats.partitions@[i].0@,
    ensures
        ({
            let row = evaluated(topic, stats, subscription, threshold, true, internal).partitions[k];
            let sub = lookup(stats.partitions@[i].1.subscriptions@, subscription);
            let cursor = cursor_at(stats, subscription, internal, i);
            let stuck = cursor is Some && (cursor->0).0 == TrimVerdict::Stuck;
            let edge = cursor is Some && (cursor->0).0 == TrimVerdict::AtEdge;
            &&& row.index == partition_number(stats.partitions@[i].0@)
            &&& row.backlog == (match sub {
                Some(s) => s.msg_backlog as int,
                None => 0,
            })
            &&& row.backlog_bytes == (match sub {
                Some(s) => s.backlog_size as int,
                None => 0,
            })
            &&& row.consumers == (match sub {
                Some(s) => s.consumers@.len() as int,
                None => 0,
            })
            &&& row.unacked_messages == (match sub {
                Some(s) => unacked_sum(s.consumers@),
                None => 0,
            })
            &&& stuck ==> row.status == "trimmed"@
            &&& !stuck && sub is None ==> row.status == "subscription_missing"@
            &&& !stuck && sub is Some && row.consumers == 0 ==> row.status == "no_consumers"@
            &&& !stuck && sub is Some && row.consumers > 0 && edge ==> row.status == "at_edge"@
            &&& !stuck && !edge && sub is Some && row.consumers > 0 && row.backlog > threshold
                ==> row.status == "hot"@
            &&& !stuck && !edge && sub is Some && row.consumers > 0 && row.backlog <= threshold
                ==> row.status == "ok"@
        }),
{
    let names = partition_names(stats);
    lemma_partition_names(stats);
    lemma_one_row_per_partition(topic, stats, subscription, threshold, internal);
    lemma_cursor_at(stats, subscription, internal, i);
    lemma_lookup_own(stats.partitions@, i);
    assert(names[k] == stats.partitions@[i].0@);
}

/// The figures of a topic are those of the subscription on it. Only the number of
/// consumers may be more: it is that over all partitions where that is more.
pub proof fn lemma_figures(
    topic: Seq<char>,
    stats: TopicStats,
    subscription: Seq<char>,
    threshold: int,
    partitioned: bool,
    internal: Seq<(String, InternalStats)>,
)
    ensures
        ({
            let h = evaluated(topic, stats, subscription, threshold, partitioned, internal);
            &&& h.topic == topic
            &&& h.msg_rate_out == stats.msg_rate_out
            &&& h.error is None && h.drain is None && h.state_since is None && h.kube_hint is None
            &&& match lookup(stats.subscriptions@, subscription) {
                Some(s) => {
                    &&& h.total_backlog == Some(s.msg_backlog as int)
                    &&& h.backlog_bytes == Some(s.backlog_size as int)
                    &&& h.unacked_messages == Some(unacked_sum(s.consumers@))
                    &&& !partitioned ==> h.consumers == Some(s.consumers@.len() as int)
                    &&& partitioned ==> h.consumers is Some && h.consumers->0
                        >= s.consumers@.len() && h.consumers->0 >= consumer_sum(
                        stats.partitions@,
                        subscription,
                    ) && (h.consumers->0 == s.consumers@.len() || h.consumers->0 == consumer_sum(
                        stats.partitions@,
                        subscription,
                    ))
                },
                None => h.hot_partitions.len() == 0 && h.partition_gaps.len() == 0
                    && h.trimmed_partitions.len() == 0 && h.at_edge_partitions.len() == 0
                    && h.partitions.len() == 0 && h.min_headroom is None,
            }
        }),
{
}

/// One more partition adds the consumers that the subscription has on it.
pub proof fn lemma_consumers_add_up(
    partitions: Seq<(String, TopicStats)>,
    p: (String, TopicStats),
    subscription: Seq<char>,
)
    ensures
        lookup(p.1.subscriptions@, subscription) matches Some(s) ==> consumer_sum(
            partitions.push(p),
            subscription,
        ) == consumer_sum(partitions, subscription) + s.consumers@.len(),
        lookup(p.1.subscriptions@, subscription) is None ==> consumer_sum(
            partitions.push(p),
            subscription,
        ) == consumer_sum(partitions, subscription),
        consumer_sum(Seq::empty(), subscription) == 0,
{
    assert(partitions.push(p).drop_last() =~= partitions);
}

/// A topic without partitions is its own only finding: hot where its backlog is
/// over the threshold that was given, trimmed or at the edge as its cursor is.
pub proof fn lemma_plain_topic(
    topic: Seq<char>,
    stats: TopicStats,
    subscription: Seq<char>,
    threshold: int,
    internal: Seq<(String, InternalStats)>,
)
    requires
        lookup(stats.subscriptions@, subscription) is Some,
    ensures
        ({
            let h = evaluated(topic, stats, subscription, threshold, false, internal);
            let s = lookup(stats.subscriptions@, subscription)->0;
            let backlog = s.msg_backlog as int;
            &&& h.partitions.len() == 0 && h.partition_gaps.len() == 0
            &&& backlog > threshold ==> h.hot_partitions == seq![
                HotView { partition: topic, backlog, backlog_bytes: s.backlog_size as int },
            ]
            &&& backlog <= threshold ==> h.hot_partitions.len() == 0
            &&& match lookup(internal, topic) {
                Some(is) => {
                    let c = trim_status(is, subscription, backlog);
                    &&& h.min_headroom == c.1
                    &&& c.0 == TrimVerdict::Stuck ==> h.trimmed_partitions == seq![
                        TrimmedView { partition: topic, waiting_with_backlog: c.2 },
                    ]
                    &&& c.0 != TrimVerdict::Stuck ==> h.trimmed_partitions.len() == 0
                    &&& c.0 == TrimVerdict::AtEdge ==> h.at_edge_partitions == seq![
                        AtEdgeView { partition: topic, headroom: c.1 },
                    ]
                    &&& c.0 != TrimVerdict::AtEdge ==> h.at_edge_partitions.len() == 0
                },
                None => h.min_headroom is None && h.trimmed_partitions.len() == 0
                    && h.at_edge_partitions.len() == 0,
            }
        }),
{
    let backlog = lookup(stats.subscriptions@, subscription)->0.msg_backlog as int;
    let cursor = cursor_on(internal, subscription, topic, backlog);
    Seq::<Seq<char>>::lemma_filter_map_singleton(topic, |n: Seq<char>| trimmed_entry(n, cursor));
    Seq::<Seq<char>>::lemma_filter_map_singleton(topic, |n: Seq<char>| at_edge_entry(n, cursor));
}

/// A partitioned topic is healthy only where the subscription is on every
/// partition, with consumers, with a backlog that the threshold allows, and with
/// no stuck cursor.
pub proof fn lemma_healthy_partitions(
    topic: Seq<char>,
    stats: TopicStats,
    subscription: Seq<char>,
    threshold: int,
    internal: Seq<(String, InternalStats)>,
    i: int,
)
    requires
        distinct_names(stats.partitions@),
        0 <= i < stats.partitions@.len(),
        evaluated(topic, stats, subscription, threshold, true, internal).status == Status::Healthy,
    ensures
        match lookup(stats.partitions@[i].1.subscriptions@, subscription) {
            Some(s) => s.consumers@.len() > 0 && s.msg_backlog <= threshold,
            None => false,
        },
        cursor_at(stats, subscription, internal, i) matches Some(c) ==> c.0 != TrimVerdict::Stuck,
{
    let h = evaluated(topic, stats, subscription, threshold, true, internal);
    let name = stats.partitions@[i].0@;
    let sub = lookup(stats.partitions@[i].1.subscriptions@, subscription);
    lemma_status_priority(topic, stats, subscription, threshold, true, internal);
    lemma_healthy(topic, stats, subscription, threshold, true, internal);
    let gap = GapView {
        partition: name,
        reason: if sub is None {
            "subscription_missing"@
        } else {
            "no_consumers"@
        },
    };
    lemma_partition_gaps(topic, stats, subscription, threshold, internal, gap);
    let cursor = cursor_at(stats, subscription, internal, i);
    if let Some(s) = sub {
        let hot = HotView {
            partition: name,
            backlog: s.msg_backlog as int,
            backlog_bytes: s.backlog_size as int,
        };
        lemma_hot_partitions(topic, stats, subscription, threshold, internal, hot);
    }
    if let Some(c) = cursor {
        let trimmed = TrimmedView { partition: name, waiting_with_backlog: c.2 };
        lemma_cursor_findings(
            topic,
            stats,
            subscription,
            threshold,
            internal,
            trimmed,
            AtEdgeView { partition: name, headroom: None },
        );
    }
}

/// A topic whose status is a backlog has a partition with more than the threshold.
pub proof fn lemma_backlog_means_over_threshold(
    topic: Seq<char>,
    stats: TopicStats,
    subscription: Seq<char>,
    threshold: int,
    internal: Seq<(String, InternalStats)>,
)
    requires
        distinct_names(stats.partitions@),
        evaluated(topic, stats, subscription, threshold, true, internal).status == Status::Backlog,
    ensures
        exists|i: int|
            0 <= i < stats.partitions@.len() && (match lookup(
                (#[trigger] stats.partitions@[i]).1.subscriptions@,
                subscription,
            ) {
                Some(s) => s.msg_backlog > threshold,
                None => false,
            }),
{
    let h = evaluated(topic, stats, subscription, threshold, true, internal);
    lemma_status_priority(topic, stats, subscription, threshold, true, internal);
    let hot = h.hot_partitions[0];
    assert(h.hot_partitions.contains(hot));
    lemma_hot_partitions(topic, stats, subscription, threshold, internal, hot);
}

/// A partition that is called by a number has that number.
pub proof fn lemma_partition_number(base: Seq<char>, n: int)
    requires
        0 <= n < u32::MAX,
    ensures
        partition_number(base + "-partition-"@ + decimal(n)) == n,
{
    reveal_strlit("-partition-");
    let pat = "-partition-"@;
    let s = base + pat + decimal(n);
    lemma_digits(n as nat);
    lemma_integer_of_decimal(n);
    assert(s.subrange(base.len() as int, base.len() as int + pat.len()) =~= pat);
    assert(occurs_at(s, pat, base.len() as int));
    lemma_last_place(s, pat, base.len() as int);
    assert(s.subrange(base.len() as int + 11, s.len() as int) =~= decimal(n));
    assert(is_digit(decimal(n)[0]));
}

/// Digits hold no mark of a partition.
proof fn lemma_last_place(s: Seq<char>, pat: Seq<char>, at: int)
    requires
        pat == "-partition-"@,
        occurs_at(s, pat, at),
        forall|i: int| at + pat.len() <= i < s.len() ==> is_digit(#[trigger] s[i]),
    ensures
        last(s, pat) == Some(at),
{
    reveal_strlit("-partition-");
    lemma_rfind_upto(s, pat, s.len() as int);
    let k = last(s, pat)->0;
    if k != at {
        // A later place would have a letter where only digits stand, or a hyphen
        // where the pattern has none.
        assert(s.subrange(k, k + 11)[10] == s[k + 10]);
        assert(s.subrange(k, k + 11)[0] == s[k]);
        assert(pat[10] == '-' && pat[0] == '-');
        if k + 10 < at + 11 {
            assert(s.subrange(at, at + 11)[k + 10 - at] == s[k + 10]);
            assert(s.subrange(at, at + 11)[k - at] == s[k]);
        }
    }
}

/// Statistics that came are taken as what was asked for, a topic that is not found
/// is asked about once more as one without partitions, and nothing else is tried.
pub proof fn lemma_next_step(request: StatsRequest, answer: Answer)
    ensures
        answer == Answer::Stats ==> step_after(request, answer) == (NextStep::Accept {
            partitioned: request == StatsRequest::Partitioned,
        }),
        answer == Answer::NotFound && (request == StatsRequest::Partitioned || request
            == StatsRequest::Aggregate) ==> step_after(request, answer) == NextStep::Ask(
            StatsRequest::Plain,
        ),
        answer == Answer::NotFound && (request == StatsRequest::Plain || request
            == StatsRequest::Internal) ==> step_after(request, answer) == NextStep::GiveUp,
        answer == Answer::Failed ==> step_after(request, answer) == NextStep::GiveUp,
{
}

/// How the statuses are called.
pub proof fn lemma_status_labels()
    ensures
        status_label(Status::Healthy) == "OK"@,
        status_label(Status::Backlog) == "BACKLOG"@,
        status_label(Status::PartitionGap) == "PARTITION_GAP"@,
        status_label(Status::NoConsumers) == "NO_CONSUMERS"@,
        status_label(Status::MissingSub) == "MISSING_SUB"@,
        status_label(Status::Trimmed) == "TRIMMED"@,
        status_label(Status::Error) == "ERROR"@,
{
}

} // verus!
