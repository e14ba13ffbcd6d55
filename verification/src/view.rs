//! What the interactive screen shows: the current view, the selection, and the
//! rows of the partition view. No terminal is involved.
use crate::output::{format_bytes, size_text};
use vstd::prelude::*;
use vstd::string::*;
use vstd::view::View as _;
use crate::health::{DetailView, HealthView, TopicHealth};
use crate::order::{
    is_before, lemma_precedes_irreflexive, lemma_precedes_total, lemma_precedes_transitive,
    lemma_sorted_map, lemma_sorted_ordered, precedes, sort_by, sorted, strict_weak_order,
};
use crate::text::{copy_of, same};

verus! {

// ── Views ────────────────────────────────────────────────────────────────────

/// Which panel the user is looking at.
#[derive(Debug, Clone, Copy, PartialEq, Eq, Structural)]
pub enum View {
    /// One row for each topic.
    Topic,
    /// One row for each partition of every topic.
    Partition,
    /// The consumer pods and their nodes.
    Kube,
    /// Topics above, partitions of the chosen topic below.
    Combined,
    /// One node and the pods on it.
    NodeDetail,
    /// One pod, its logs and its metrics.
    PodDetail,
    /// The metrics of all pods.
    Metrics,
    /// The connection stability of all pods.
    Stability,
}

/// The view that follows when views are cycled. The cycle is that of topics,
/// partitions, pods and both. The details of a node or a pod lead back to its
/// start, and the metrics lead to the stability and from there into the cycle.
pub open spec fn next_view(v: View) -> View {
    match v {
        View::Topic => View::Partition,
        View::Partition => View::Kube,
        View::Kube => View::Combined,
        View::Combined => View::Topic,
        View::NodeDetail => View::Topic,
        View::PodDetail => View::Topic,
        View::Metrics => View::Stability,
        View::Stability => View::Combined,
    }
}

/// How a view is called.
pub open spec fn view_label(v: View) -> Seq<char> {
    match v {
        View::Topic => "topic"@,
        View::Partition => "partition"@,
        View::Kube => "kube"@,
        View::Combined => "combined"@,
        View::NodeDetail => "node"@,
        View::PodDetail => "pod"@,
        View::Metrics => "metrics"@,
        View::Stability => "stability"@,
    }
}

impl View {
    /// The view that follows in the cycle.
    pub fn next(self) -> (r: View)
        ensures
            r == next_view(self),
    {
        match self {
            View::Topic => View::Partition,
            View::Partition => View::Kube,
            View::Kube => View::Combined,
            View::Combined => View::Topic,
            View::NodeDetail => View::Topic,
            View::PodDetail => View::Topic,
            View::Metrics => View::Stability,
            View::Stability => View::Combined,
        }
    }

    /// How the view is called.
    pub fn label(self) -> (r: &'static str)
        ensures
            r@ == view_label(self),
    {
        match self {
            View::Topic => "topic",
            View::Partition => "partition",
            View::Kube => "kube",
            View::Combined => "combined",
            View::NodeDetail => "node",
            View::PodDetail => "pod",
            View::Metrics => "metrics",
            View::Stability => "stability",
        }
    }
}

// ── State ────────────────────────────────────────────────────────────────────

/// Which list of the kube view the cursor moves in.
#[derive(Debug, Clone, Copy, PartialEq, Eq, Structural)]
pub enum KubeFocus {
    Pods,
    Nodes,
}

/// A destructive action that waits for a confirmation.
#[derive(Debug)]
pub enum PendingAction {
    DeletePod { namespace: String, pod: String },
    RecycleAll { namespace: String, selector: String },
    CordonDrainNode { node: String },
}

/// What a `PendingAction` says.
#[verifier::ext_equal]
pub enum ActionView {
    DeletePod { namespace: Seq<char>, pod: Seq<char> },
    RecycleAll { namespace: Seq<char>, selector: Seq<char> },
    CordonDrainNode { node: Seq<char> },
}

impl DeepView for PendingAction {
    type V = ActionView;

    open spec fn deep_view(&self) -> ActionView {
        match self {
            PendingAction::DeletePod { namespace, pod } => ActionView::DeletePod {
                namespace: namespace@,
                pod: pod@,
            },
            PendingAction::RecycleAll { namespace, selector } => ActionView::RecycleAll {
                namespace: namespace@,
                selector: selector@,
            },
            PendingAction::CordonDrainNode { node } => ActionView::CordonDrainNode { node: node@ },
        }
    }
}

/// Everything that keys change.
#[derive(Debug)]
pub struct ViewState {
    pub view: View,
    /// The highlighted row of the current view.
    pub cursor: usize,
    /// The topic whose partitions the combined view shows.
    pub drilled_topic: Option<String>,
    /// The node that the node detail shows.
    pub selected_node: Option<String>,
    /// The legend is showing.
    pub show_help: bool,
    pub kube_focus: KubeFocus,
    /// The pod that the pod detail shows.
    pub selected_pod: Option<String>,
    /// The pod detail shows metrics in place of logs.
    pub pod_detail_metrics: bool,
    /// The highlighted log line.
    pub log_cursor: usize,
    /// The highlighted log line is shown in full.
    pub log_expanded: bool,
    pub log_wrap: bool,
    /// The first line of the metrics view that is shown.
    pub metrics_scroll: u16,
    /// The action that waits for a confirmation.
    pub pending: Option<PendingAction>,
}

/// What a `ViewState` says.
#[verifier::ext_equal]
pub struct StateView {
    pub view: View,
    pub cursor: int,
    pub drilled_topic: Option<Seq<char>>,
    pub selected_node: Option<Seq<char>>,
    pub show_help: bool,
    pub kube_focus: KubeFocus,
    pub selected_pod: Option<Seq<char>>,
    pub pod_detail_metrics: bool,
    pub log_cursor: int,
    pub log_expanded: bool,
    pub log_wrap: bool,
    pub metrics_scroll: int,
    pub pending: Option<ActionView>,
}

impl DeepView for ViewState {
    type V = StateView;

    open spec fn deep_view(&self) -> StateView {
        StateView {
            view: self.view,
            cursor: self.cursor as int,
            drilled_topic: self.drilled_topic.deep_view(),
            selected_node: self.selected_node.deep_view(),
            show_help: self.show_help,
            kube_focus: self.kube_focus,
            selected_pod: self.selected_pod.deep_view(),
            pod_detail_metrics: self.pod_detail_metrics,
            log_cursor: self.log_cursor as int,
            log_expanded: self.log_expanded,
            log_wrap: self.log_wrap,
            metrics_scroll: self.metrics_scroll as int,
            pending: self.pending.deep_view(),
        }
    }
}

/// The state in which the screen starts.
pub open spec fn initial_state() -> StateView {
    StateView {
        view: View::Topic,
        cursor: 0,
        drilled_topic: None,
        selected_node: None,
        show_help: false,
        kube_focus: KubeFocus::Pods,
        selected_pod: None,
        pod_detail_metrics: false,
        log_cursor: 0,
        log_expanded: false,
        log_wrap: false,
        metrics_scroll: 0,
        pending: None,
    }
}

impl Default for ViewState {
    fn default() -> (r: ViewState)
        ensures
            r.deep_view() == initial_state(),
    {
        ViewState {
            view: View::Topic,
            cursor: 0,
            drilled_topic: None,
            selected_node: None,
            show_help: false,
            kube_focus: KubeFocus::Pods,
            selected_pod: None,
            pod_detail_metrics: false,
            log_cursor: 0,
            log_expanded: false,
            log_wrap: false,
            metrics_scroll: 0,
            pending: None,
        }
    }
}

/// The cursor one row down among `len` rows.
pub open spec fn row_below(cursor: int, len: int) -> int {
    if cursor + 1 < len {
        cursor + 1
    } else {
        cursor
    }
}

/// The cursor one row up.
pub open spec fn row_above(cursor: int) -> int {
    if cursor > 0 {
        cursor - 1
    } else {
        0
    }
}

/// The cursor moved onto one of `len` rows.
pub open spec fn row_within(cursor: int, len: int) -> int {
    if len == 0 {
        0
    } else if cursor >= len {
        len - 1
    } else {
        cursor
    }
}

/// The state after the next view was chosen.
pub open spec fn cycled(s: StateView) -> StateView {
    StateView { view: next_view(s.view), cursor: 0, ..s }
}

/// The state after the topic under the cursor was chosen.
pub open spec fn drilled_in(s: StateView, topics: Seq<HealthView>) -> StateView {
    if 0 <= s.cursor < topics.len() {
        StateView {
            drilled_topic: Some(topics[s.cursor].topic),
            view: View::Combined,
            ..s
        }
    } else {
        s
    }
}

/// The state after backing out of a detail or of a chosen topic.
pub open spec fn drilled_out(s: StateView) -> StateView {
    if s.view == View::NodeDetail {
        StateView { selected_node: None, view: View::Kube, ..s }
    } else if s.view == View::PodDetail {
        StateView { selected_pod: None, view: View::Kube, ..s }
    } else {
        StateView { drilled_topic: None, view: View::Topic, ..s }
    }
}

/// The state after the node under the cursor was opened.
pub open spec fn node_opened(s: StateView, nodes: Seq<Seq<char>>) -> StateView {
    if 0 <= s.cursor < nodes.len() {
        StateView {
            selected_node: Some(nodes[s.cursor]),
            view: View::NodeDetail,
            cursor: 0,
            ..s
        }
    } else {
        s
    }
}

/// The state after the pod under the cursor was opened.
pub open spec fn pod_opened(s: StateView, pods: Seq<Seq<char>>) -> StateView {
    if 0 <= s.cursor < pods.len() {
        StateView {
            selected_pod: Some(pods[s.cursor]),
            view: View::PodDetail,
            cursor: 0,
            pod_detail_metrics: false,
            log_cursor: 0,
            log_expanded: false,
            ..s
        }
    } else {
        s
    }
}

/// The state after the cursor went to the other list of the kube view.
pub open spec fn focus_toggled(s: StateView) -> StateView {
    StateView {
        kube_focus: match s.kube_focus {
            KubeFocus::Pods => KubeFocus::Nodes,
            KubeFocus::Nodes => KubeFocus::Pods,
        },
        cursor: 0,
        ..s
    }
}

impl ViewState {
    /// Go to the next view, with the cursor at the top.
    pub fn cycle_view(&mut self)
        ensures
            final(self).deep_view() == cycled(old(self).deep_view()),
    {
        self.view = self.view.next();
        self.cursor = 0;
    }

    /// Move the cursor down among `len` rows.
    pub fn cursor_down(&mut self, len: usize)
        ensures
            final(self).deep_view() == (StateView {
                cursor: row_below(old(self).cursor as int, len as int),
                ..old(self).deep_view()
            }),
    {
        if len > 0 && self.cursor < len - 1 {
            self.cursor = self.cursor + 1;
        }
    }

    /// Move the cursor up.
    pub fn cursor_up(&mut self)
        ensures
            final(self).deep_view() == (StateView {
                cursor: row_above(old(self).cursor as int),
                ..old(self).deep_view()
            }),
    {
        self.cursor = self.cursor.saturating_sub(1);
    }

    /// Move the cursor onto one of `len` rows after their number has changed.
    pub fn clamp_cursor(&mut self, len: usize)
        ensures
            final(self).deep_view() == (StateView {
                cursor: row_within(old(self).cursor as int, len as int),
                ..old(self).deep_view()
            }),
    {
        if len == 0 {
            self.cursor = 0;
        } else if self.cursor >= len {
            self.cursor = len - 1;
        }
    }

    /// Choose the topic under the cursor and show its partitions.
    pub fn drill_in(&mut self, topics: &Vec<TopicHealth>)
        ensures
            final(self).deep_view() == drilled_in(old(self).deep_view(), topics.deep_view()),
    {
        if self.cursor < topics.len() {
            self.drilled_topic = Some(copy_of(topics[self.cursor].topic.as_str()));
            self.view = View::Combined;
        }
    }

    /// Back out of a detail or of a chosen topic.
    pub fn drill_out(&mut self)
        ensures
            final(self).deep_view() == drilled_out(old(self).deep_view()),
    {
        if self.view == View::NodeDetail {
            self.selected_node = None;
            self.view = View::Kube;
        } else if self.view == View::PodDetail {
            self.selected_pod = None;
            self.view = View::Kube;
        } else {
            self.drilled_topic = None;
            self.view = View::Topic;
        }
    }

    /// Open the node under the cursor.
    pub fn drill_into_node(&mut self, nodes: &Vec<String>)
        ensures
            final(self).deep_view() == node_opened(old(self).deep_view(), nodes.deep_view()),
    {
        if self.cursor < nodes.len() {
            self.selected_node = Some(copy_of(nodes[self.cursor].as_str()));
            self.view = View::NodeDetail;
            self.cursor = 0;
        }
    }

    /// Open what is under the cursor of the kube view: a pod or a node.
    pub fn kube_drill_in(&mut self, pods: &Vec<String>, nodes: &Vec<String>)
        ensures
            final(self).deep_view() == (match old(self).kube_focus {
                KubeFocus::Pods => pod_opened(old(self).deep_view(), pods.deep_view()),
                KubeFocus::Nodes => node_opened(old(self).deep_view(), nodes.deep_view()),
            }),
    {
        match self.kube_focus {
            KubeFocus::Pods => {
                if self.cursor < pods.len() {
                    self.selected_pod = Some(copy_of(pods[self.cursor].as_str()));
                    self.view = View::PodDetail;
                    self.cursor = 0;
                    self.pod_detail_metrics = false;
                    self.log_cursor = 0;
                    self.log_expanded = false;
                }
            },
            KubeFocus::Nodes => self.drill_into_node(nodes),
        }
    }

    /// Show or hide the legend.
    pub fn toggle_help(&mut self)
        ensures
            final(self).deep_view() == (StateView {
                show_help: !old(self).show_help,
                ..old(self).deep_view()
            }),
    {
        self.show_help = !self.show_help;
    }

    /// Move the cursor to the other list of the kube view.
    pub fn toggle_kube_focus(&mut self)
        ensures
            final(self).deep_view() == focus_toggled(old(self).deep_view()),
    {
        self.kube_focus = match self.kube_focus {
            KubeFocus::Pods => KubeFocus::Nodes,
            KubeFocus::Nodes => KubeFocus::Pods,
        };
        self.cursor = 0;
    }

    /// Wrap long log lines or not.
    pub fn toggle_log_wrap(&mut self)
        ensures
            final(self).deep_view() == (StateView {
                log_wrap: !old(self).log_wrap,
                ..old(self).deep_view()
            }),
    {
        self.log_wrap = !self.log_wrap;
    }

    /// Show the pod's metrics in place of its logs, or the other way round.
    pub fn toggle_pod_metrics(&mut self)
        ensures
            final(self).deep_view() == (StateView {
                pod_detail_metrics: !old(self).pod_detail_metrics,
                ..old(self).deep_view()
            }),
    {
        self.pod_detail_metrics = !self.pod_detail_metrics;
    }

    /// Move to the log line below among `len` lines.
    pub fn log_cursor_down(&mut self, len: usize)
        ensures
            final(self).deep_view() == (StateView {
                log_cursor: row_below(old(self).log_cursor as int, len as int),
                ..old(self).deep_view()
            }),
    {
        if len > 0 && self.log_cursor < len - 1 {
            self.log_cursor = self.log_cursor + 1;
        }
    }

    /// Move to the log line above.
    pub fn log_cursor_up(&mut self)
        ensures
            final(self).deep_view() == (StateView {
                log_cursor: row_above(old(self).log_cursor as int),
                ..old(self).deep_view()
            }),
    {
        self.log_cursor = self.log_cursor.saturating_sub(1);
    }

    /// Show the highlighted log line in full.
    pub fn log_expand(&mut self)
        ensures
            final(self).deep_view() == (StateView {
                log_expanded: true,
                ..old(self).deep_view()
            }),
    {
        self.log_expanded = true;
    }

    /// Stop showing a log line in full. Tells whether one was.
    pub fn log_collapse(&mut self) -> (r: bool)
        ensures
            r == old(self).log_expanded,
            final(self).deep_view() == (StateView {
                log_expanded: false,
                ..old(self).deep_view()
            }),
    {
        let was = self.log_expanded;
        self.log_expanded = false;
        was
    }

    /// Scroll the metrics view up by `n` lines.
    pub fn metrics_scroll_up(&mut self, n: u16)
        ensures
            final(self).deep_view() == (StateView {
                metrics_scroll: if old(self).metrics_scroll >= n {
                    old(self).metrics_scroll - n
                } else {
                    0
                },
                ..old(self).deep_view()
            }),
    {
        self.metrics_scroll = self.metrics_scroll.saturating_sub(n);
    }

    /// Scroll the metrics view down by `n` lines.
    pub fn metrics_scroll_down(&mut self, n: u16)
        ensures
            final(self).deep_view() == (StateView {
                metrics_scroll: if old(self).metrics_scroll + n <= u16::MAX {
                    old(self).metrics_scroll + n
                } else {
                    u16::MAX as int
                },
                ..old(self).deep_view()
            }),
    {
        self.metrics_scroll = self.metrics_scroll.saturating_add(n);
    }
}

// ── Severity ─────────────────────────────────────────────────────────────────

/// How bad a status or a trend is.
#[derive(Debug, Clone, Copy, PartialEq, Eq, Structural)]
pub enum Severity {
    Good,
    Warn,
    Bad,
}

/// The labels of statuses and trends that are fine.
pub open spec fn good_label(label: Seq<char>) -> bool {
    ||| label == "OK"@
    ||| label == "ok"@
    ||| label == "empty"@
}

/// The labels of statuses and trends that are bad.
pub open spec fn bad_label(label: Seq<char>) -> bool {
    ||| label == "NO_CONSUMERS"@
    ||| label == "no_consumers"@
    ||| label == "MISSING_SUB"@
    ||| label == "subscription_missing"@
    ||| label == "TRIMMED"@
    ||| label == "trimmed"@
    ||| label == "ERROR"@
    ||| label == "error"@
    ||| label == "growing"@
}

/// How bad a status or a trend is, by its label; anything unknown is a warning.
pub open spec fn severity_of(label: Seq<char>) -> Severity {
    if good_label(label) {
        Severity::Good
    } else if bad_label(label) {
        Severity::Bad
    } else {
        Severity::Warn
    }
}

/// How bad a status or a trend is, by its label.
pub fn status_severity(label: &str) -> (r: Severity)
    ensures
        r == severity_of(label@),
{
    if same(label, "OK") || same(label, "ok") || same(label, "empty") {
        Severity::Good
    } else if same(label, "NO_CONSUMERS") || same(label, "no_consumers") || same(label, "MISSING_SUB") || same(label, "subscription_missing") || same(label, "TRIMMED") || same(label, "trimmed") || same(label, "ERROR") || same(label, "error") || same(label, "growing") {
        Severity::Bad
    } else {
        Severity::Warn
    }
}

// ── Legends ──────────────────────────────────────────────────────────────────

/// The statuses of a topic and what they mean.
pub open spec fn status_legend_entries() -> Seq<(&'static str, &'static str)> {
    seq![
        (
            "OK",
            "consumers attached, backlog under threshold — healthy",
        ),
        (
            "BACKLOG",
            "consumers attached but backlog over threshold",
        ),
        (
            "NO_CONSUMERS",
            "subscription EXISTS but no consumers attached (backlog is real)",
        ),
        (
            "MISSING_SUB",
            "subscription does NOT exist on the topic — 0 backlog means unmeasurable, not empty",
        ),
        (
            "PARTITION_GAP",
            "some partitions have consumers, others are missing/unconsumed",
        ),
        (
            "TRIMMED",
            "cursor fell behind the oldest ledger — data was lost",
        ),
        (
            "ERROR",
            "the stats fetch for this topic failed",
        ),
    ]
}

/// The statuses of a topic and what they mean.
pub fn status_legend() -> (r: &'static [(&'static str, &'static str)])
    ensures
        r@ == status_legend_entries(),
{
    let r: &'static [(&'static str, &'static str)] = &[
        (
            "OK",
            "consumers attached, backlog under threshold — healthy",
        ),
        (
            "BACKLOG",
            "consumers attached but backlog over threshold",
        ),
        (
            "NO_CONSUMERS",
            "subscription EXISTS but no consumers attached (backlog is real)",
        ),
        (
            "MISSING_SUB",
            "subscription does NOT exist on the topic — 0 backlog means unmeasurable, not empty",
        ),
        (
            "PARTITION_GAP",
            "some partitions have consumers, others are missing/unconsumed",
        ),
        (
            "TRIMMED",
            "cursor fell behind the oldest ledger — data was lost",
        ),
        (
            "ERROR",
            "the stats fetch for this topic failed",
        ),
    ];
    assert(r@ =~= status_legend_entries());
    r
}

/// The statuses of a partition and what they mean.
pub open spec fn partition_status_legend_entries() -> Seq<(&'static str, &'static str)> {
    seq![
        (
            "ok",
            "consumers attached, backlog under threshold",
        ),
        (
            "hot",
            "consumers attached but this partition's backlog is over threshold",
        ),
        (
            "no_consumers",
            "no consumer attached to this partition",
        ),
        (
            "subscription_missing",
            "the subscription is absent on this partition",
        ),
        (
            "at_edge",
            "cursor near the oldest ledger — trim risk",
        ),
        (
            "trimmed",
            "cursor fell behind the oldest ledger — data lost",
        ),
    ]
}

/// The statuses of a partition and what they mean.
pub fn partition_status_legend() -> (r: &'static [(&'static str, &'static str)])
    ensures
        r@ == partition_status_legend_entries(),
{
    let r: &'static [(&'static str, &'static str)] = &[
        (
            "ok",
            "consumers attached, backlog under threshold",
        ),
        (
            "hot",
            "consumers attached but this partition's backlog is over threshold",
        ),
        (
            "no_consumers",
            "no consumer attached to this partition",
        ),
        (
            "subscription_missing",
            "the subscription is absent on this partition",
        ),
        (
            "at_edge",
            "cursor near the oldest ledger — trim risk",
        ),
        (
            "trimmed",
            "cursor fell behind the oldest ledger — data lost",
        ),
    ];
    assert(r@ =~= partition_status_legend_entries());
    r
}

/// The drain trends and what they mean.
pub open spec fn trend_legend_entries() -> Seq<(&'static str, &'static str)> {
    seq![
        (
            "draining",
            "backlog shrinking; ETA shows time-to-clear",
        ),
        (
            "growing",
            "backlog rising; producers outpace consumers",
        ),
        (
            "stable",
            "backlog roughly flat (within ~1%)",
        ),
        (
            "empty",
            "no backlog",
        ),
    ]
}

/// The drain trends and what they mean.
pub fn trend_legend() -> (r: &'static [(&'static str, &'static str)])
    ensures
        r@ == trend_legend_entries(),
{
    let r: &'static [(&'static str, &'static str)] = &[
        (
            "draining",
            "backlog shrinking; ETA shows time-to-clear",
        ),
        (
            "growing",
            "backlog rising; producers outpace consumers",
        ),
        (
            "stable",
            "backlog roughly flat (within ~1%)",
        ),
        (
            "empty",
            "no backlog",
        ),
    ];
    assert(r@ =~= trend_legend_entries());
    r
}

// ── Partition rows ───────────────────────────────────────────────────────────

/// One row of the partition view.
#[derive(Debug)]
pub struct PartitionRow {
    pub topic: String,
    pub partition: String,
    pub index: u32,
    pub backlog: i64,
    pub backlog_bytes: i64,
    pub consumers: usize,
    pub unacked_messages: i64,
    pub status: &'static str,
}

/// What a `PartitionRow` says.
#[verifier::ext_equal]
pub struct RowView {
    pub topic: Seq<char>,
    pub detail: DetailView,
}

impl DeepView for PartitionRow {
    type V = RowView;

    open spec fn deep_view(&self) -> RowView {
        RowView {
            topic: self.topic@,
            detail: DetailView {
                partition: self.partition@,
                index: self.index as int,
                backlog: self.backlog as int,
                backlog_bytes: self.backlog_bytes as int,
                consumers: self.consumers as int,
                unacked_messages: self.unacked_messages as int,
                status: self.status@,
            },
        }
    }
}

/// The rows of one topic, in the order of its partitions.
pub open spec fn topic_rows(h: HealthView) -> Seq<RowView> {
    h.partitions.map_values(|d: DetailView| RowView { topic: h.topic, detail: d })
}

/// The rows of all topics, one topic after the other.
pub open spec fn rows_of(topics: Seq<HealthView>) -> Seq<RowView>
    decreases topics.len(),
{
    if topics.len() == 0 {
        Seq::empty()
    } else {
        rows_of(topics.drop_last()) + topic_rows(topics.last())
    }
}

/// Rows are ordered by topic and then by partition.
pub open spec fn row_before(a: RowView, b: RowView) -> bool {
    precedes(a.topic, b.topic) || (a.topic == b.topic && a.detail.index < b.detail.index)
}

/// Rows of one topic are ordered by partition.
pub open spec fn index_before(a: RowView, b: RowView) -> bool {
    a.detail.index < b.detail.index
}

fn row_less(a: &PartitionRow, b: &PartitionRow) -> (r: bool)
    ensures
        r == row_before(a.deep_view(), b.deep_view()),
{
    is_before(a.topic.as_str(), b.topic.as_str()) || (same(a.topic.as_str(), b.topic.as_str())
        && a.index < b.index)
}

fn index_less(a: &PartitionRow, b: &PartitionRow) -> (r: bool)
    ensures
        r == index_before(a.deep_view(), b.deep_view()),
{
    a.index < b.index
}

/// Add the rows of one topic.
fn push_rows(rows: &mut Vec<PartitionRow>, t: &TopicHealth)
    ensures
        final(rows).deep_view() == old(rows).deep_view() + topic_rows(t.deep_view()),
{
    let ghost start = rows.deep_view();
    let ghost want = topic_rows(t.deep_view());
    assert(start + want.take(0) =~= start);
    for i in 0..t.partitions.len()
        invariant
            want == topic_rows(t.deep_view()),
            rows.deep_view() =~= start + want.take(i as int),
    {
        let p = &t.partitions[i];
        let row = PartitionRow {
            topic: copy_of(t.topic.as_str()),
            partition: copy_of(p.partition.as_str()),
            index: p.index,
            backlog: p.backlog,
            backlog_bytes: p.backlog_bytes,
            consumers: p.consumers,
            unacked_messages: p.unacked_messages,
            status: p.status,
        };
        let ghost before = rows.deep_view();
        let ghost view = row.deep_view();
        rows.push(row);
        proof {
            assert(view == want[i as int]);
            assert(rows.deep_view() =~= before.push(view));
            assert(want.take(i + 1) =~= want.take(i as int).push(view));
        }
    }
    assert(want.take(want.len() as int) =~= want);
}

/// The rows of every topic's partitions, by topic and then by partition.
pub fn partition_rows(topics: &Vec<TopicHealth>) -> (r: Vec<PartitionRow>)
    ensures
        r.deep_view() == sorted(
            rows_of(topics.deep_view()),
            |a: RowView, b: RowView| row_before(a, b),
        ),
{
    let mut rows: Vec<PartitionRow> = Vec::new();
    let ghost all = topics.deep_view();
    assert(rows.deep_view() =~= Seq::empty());
    for i in 0..topics.len()
        invariant
            all == topics.deep_view(),
            rows.deep_view() == rows_of(all.take(i as int)),
    {
        assert(all.take(i + 1).drop_last() =~= all.take(i as int));
        assert(all.take(i + 1).last() == topics@[i as int].deep_view());
        push_rows(&mut rows, &topics[i]);
    }
    assert(all.take(all.len() as int) =~= all);
    let ghost given = rows@;
    let ghost unsorted = rows.deep_view();
    let ghost lt = |a: PartitionRow, b: PartitionRow| row_before(a.deep_view(), b.deep_view());
    let ghost lv = |a: RowView, b: RowView| row_before(a, b);
    let ghost view = |a: PartitionRow| a.deep_view();
    let r = sort_by(rows, row_less, Ghost(lt));
    proof {
        lemma_sorted_map(given, view, lt, lv);
        assert(given.map_values(view) =~= unsorted);
        assert(r.deep_view() =~= r@.map_values(view));
    }
    r
}

/// The rows of the topic called `topic`, by partition; none where there is no
/// such topic.
pub fn partition_rows_for_topic(topics: &Vec<TopicHealth>, topic: &str) -> (r: Vec<PartitionRow>)
    ensures
        r.deep_view() == sorted(
            rows_of(topics.deep_view().filter(|h: HealthView| h.topic == topic@)),
            |a: RowView, b: RowView| index_before(a, b),
        ),
{
    let mut rows: Vec<PartitionRow> = Vec::new();
    let ghost all = topics.deep_view();
    let ghost p = |h: HealthView| h.topic == topic@;
    proof {
        assert(rows.deep_view() =~= Seq::empty());
        assert(all.take(0).filter(p) =~= Seq::empty());
    }
    for i in 0..topics.len()
        invariant
            all == topics.deep_view(),
            p == (|h: HealthView| h.topic == topic@),
            rows.deep_view() == rows_of(all.take(i as int).filter(p)),
    {
        let ghost done = all.take(i as int);
        let ghost h = topics@[i as int].deep_view();
        proof {
            assert(all[i as int] == h);
            assert(all.take(i + 1) =~= done.push(h));
            done.lemma_filter_push(h, p);
            assert(done.filter(p).push(h).drop_last() =~= done.filter(p));
        }
        if same(topics[i].topic.as_str(), topic) {
            push_rows(&mut rows, &topics[i]);
        }
    }
    assert(all.take(all.len() as int) =~= all);
    let ghost given = rows@;
    let ghost unsorted = rows.deep_view();
    let ghost lt = |a: PartitionRow, b: PartitionRow| index_before(a.deep_view(), b.deep_view());
    let ghost lv = |a: RowView, b: RowView| index_before(a, b);
    let ghost view = |a: PartitionRow| a.deep_view();
    let r = sort_by(rows, index_less, Ghost(lt));
    proof {
        lemma_sorted_map(given, view, lt, lv);
        assert(given.map_values(view) =~= unsorted);
        assert(r.deep_view() =~= r@.map_values(view));
    }
    r
}

/// A size, as the table of topics shows it.
pub fn fmt_bytes(bytes: i64) -> (r: String)
    ensures
        r@ == size_text(bytes as int),
{
    format_bytes(bytes)
}

// ── Laws ─────────────────────────────────────────────────────────────────────

/// From any view of the cycle, four steps lead back to it.
pub proof fn lemma_cycle_of_four(v: View)
    requires
        v == View::Topic || v == View::Partition || v == View::Kube || v == View::Combined,
    ensures
        next_view(next_view(next_view(next_view(v)))) == v,
{
}

/// Moving the cursor never takes it out of the rows, once it is in.
pub proof fn lemma_cursor_stays(cursor: int, len: int)
    requires
        0 <= cursor,
        len >= 0,
    ensures
        cursor < len ==> 0 <= row_below(cursor, len) < len,
        cursor < len ==> 0 <= row_above(cursor) < len,
        len > 0 ==> 0 <= row_within(cursor, len) < len,
        len == 0 ==> row_within(cursor, len) == 0,
        cursor < len ==> row_within(cursor, len) == cursor,
{
}

/// Showing and hiding the legend undo each other.
pub proof fn lemma_help_twice(s: StateView)
    ensures
        ({
            let once = StateView { show_help: !s.show_help, ..s };
            (StateView { show_help: !once.show_help, ..once }) == s
        }),
{
}

/// Opening a node and backing out leads to the kube view with nothing chosen.
pub proof fn lemma_node_in_and_out(s: StateView, nodes: Seq<Seq<char>>)
    requires
        0 <= s.cursor < nodes.len(),
    ensures
        ({
            let r = drilled_out(node_opened(s, nodes));
            r.view == View::Kube && r.selected_node is None && r.drilled_topic == s.drilled_topic
        }),
{
}

/// Choosing a topic and backing out leads to the topic view, with the cursor
/// where it was.
pub proof fn lemma_topic_in_and_out(s: StateView, topics: Seq<HealthView>)
    requires
        0 <= s.cursor < topics.len(),
    ensures
        ({
            let r = drilled_out(drilled_in(s, topics));
            r.view == View::Topic && r.drilled_topic is None && r.cursor == s.cursor
        }),
{
}

proof fn lemma_rows_topic(topics: Seq<HealthView>, topic: Seq<char>)
    requires
        forall|i: int| 0 <= i < topics.len() ==> (#[trigger] topics[i]).topic == topic,
    ensures
        forall|i: int| 0 <= i < rows_of(topics).len() ==> (#[trigger] rows_of(topics)[i]).topic
            == topic,
    decreases topics.len(),
{
    if topics.len() > 0 {
        let rest = topics.drop_last();
        assert forall|i: int| 0 <= i < rest.len() implies (#[trigger] rest[i]).topic == topic by {
            assert(rest[i] == topics[i]);
        }
        lemma_rows_topic(rest, topic);
        assert(topics[topics.len() - 1].topic == topic);
        assert forall|i: int| 0 <= i < rows_of(topics).len() implies (#[trigger] rows_of(
            topics,
        )[i]).topic == topic by {
            if i < rows_of(rest).len() {
                assert(rows_of(topics)[i] == rows_of(rest)[i]);
            } else {
                assert(rows_of(topics)[i] == topic_rows(topics.last())[i - rows_of(rest).len()]);
            }
        }
    }
}

/// The rows of one topic all belong to it and come by partition.
pub proof fn lemma_rows_of_one_topic(topics: Seq<HealthView>, topic: Seq<char>)
    ensures
        ({
            let r = sorted(
                rows_of(topics.filter(|h: HealthView| h.topic == topic)),
                |a: RowView, b: RowView| index_before(a, b),
            );
            &&& forall|i: int| 0 <= i < r.len() ==> (#[trigger] r[i]).topic == topic
            &&& forall|i: int, j: int|
                0 <= i < j < r.len() ==> (#[trigger] r[i]).detail.index <= (
                #[trigger] r[j]).detail.index
        }),
{
    broadcast use Seq::lemma_filter_pred;

    let p = |h: HealthView| h.topic == topic;
    let own = topics.filter(p);
    assert forall|i: int| 0 <= i < own.len() implies (#[trigger] own[i]).topic == topic by {
        assert(p(own[i]));
    }
    lemma_rows_topic(own, topic);
    let lt = |a: RowView, b: RowView| index_before(a, b);
    let given = rows_of(own);
    lemma_sorted_ordered(given, lt);
    let r = sorted(given, lt);
    given.to_multiset_ensures();
    r.to_multiset_ensures();
    assert forall|i: int| 0 <= i < r.len() implies (#[trigger] r[i]).topic == topic by {
        assert(r.to_multiset().contains(r[i]));
        assert(given.contains(r[i]));
    }
    assert forall|i: int, j: int| 0 <= i < j < r.len() implies (#[trigger] r[i]).detail.index <= (
    #[trigger] r[j]).detail.index by {
        assert(!lt(r[j], r[i]));
    }
}

proof fn lemma_row_order()
    ensures
        strict_weak_order(|a: RowView, b: RowView| row_before(a, b)),
{
    let lt = |a: RowView, b: RowView| row_before(a, b);
    assert forall|a: RowView| !#[trigger] lt(a, a) by {
        lemma_precedes_irreflexive(a.topic);
    }
    assert forall|a: RowView, b: RowView, c: RowView| #[trigger]
        lt(a, b) && #[trigger] lt(b, c) implies lt(a, c) by {
        if precedes(a.topic, b.topic) && precedes(b.topic, c.topic) {
            lemma_precedes_transitive(a.topic, b.topic, c.topic);
        }
    }
    assert forall|a: RowView, b: RowView, c: RowView| !#[trigger]
        lt(a, b) && !#[trigger] lt(b, c) implies !lt(a, c) by {
        lemma_precedes_total(a.topic, b.topic);
        lemma_precedes_total(b.topic, c.topic);
        lemma_precedes_total(a.topic, c.topic);
        if precedes(b.topic, a.topic) && precedes(c.topic, b.topic) {
            lemma_precedes_transitive(c.topic, b.topic, a.topic);
        }
    }
}

/// The partition view has one row for each partition, ordered by topic and then
/// by partition.
pub proof fn lemma_partition_rows_ordered(topics: Seq<HealthView>)
    ensures
        ({
            let r = sorted(rows_of(topics), |a: RowView, b: RowView| row_before(a, b));
            &&& r.to_multiset() == rows_of(topics).to_multiset()
            &&& forall|i: int, j: int|
                0 <= i < j < r.len() ==> !row_before(#[trigger] r[j], #[trigger] r[i])
        }),
{
    lemma_row_order();
    let lt = |a: RowView, b: RowView| row_before(a, b);
    lemma_sorted_ordered(rows_of(topics), lt);
    let r = sorted(rows_of(topics), lt);
    assert forall|i: int, j: int| 0 <= i < j < r.len() implies !row_before(
        #[trigger] r[j],
        #[trigger] r[i],
    ) by {
        assert(!lt(r[j], r[i]));
    }
}

/// The views in the order of the cycle.
pub proof fn lemma_cycle_order(s: StateView)
    ensures
        s.view == View::Topic ==> cycled(s).view == View::Partition,
        s.view == View::Partition ==> cycled(s).view == View::Kube,
        s.view == View::Kube ==> cycled(s).view == View::Combined,
        s.view == View::Combined ==> cycled(s).view == View::Topic,
        s.view == View::NodeDetail || s.view == View::PodDetail ==> cycled(s).view == View::Topic,
        s.view == View::Metrics ==> cycled(s).view == View::Stability,
        s.view == View::Stability ==> cycled(s).view == View::Combined,
        cycled(s) == (StateView { view: cycled(s).view, cursor: 0, ..s }),
{
}

/// Between the first row and the last, one row down and one row up undo each
/// other; at the ends the cursor stays.
pub proof fn lemma_row_steps(cursor: int, len: int)
    requires
        0 <= cursor < len,
    ensures
        cursor < len - 1 ==> row_below(cursor, len) == cursor + 1,
        cursor == len - 1 ==> row_below(cursor, len) == cursor,
        cursor > 0 ==> row_above(cursor) == cursor - 1,
        cursor == 0 ==> row_above(cursor) == 0,
        cursor < len - 1 ==> row_above(row_below(cursor, len)) == cursor,
        forall|before: int| before >= len ==> #[trigger] row_within(before, len) == len - 1,
{
}

/// What is opened is what the cursor is on, with a fresh detail; without rows
/// nothing is opened.
pub proof fn lemma_opened(s: StateView, names: Seq<Seq<char>>)
    requires
        0 <= s.cursor,
    ensures
        s.cursor < names.len() ==> node_opened(s, names) == (StateView {
            view: View::NodeDetail,
            selected_node: Some(names[s.cursor]),
            cursor: 0,
            ..s
        }),
        s.cursor < names.len() ==> pod_opened(s, names) == (StateView {
            view: View::PodDetail,
            selected_pod: Some(names[s.cursor]),
            cursor: 0,
            pod_detail_metrics: false,
            log_cursor: 0,
            log_expanded: false,
            ..s
        }),
        s.cursor >= names.len() ==> node_opened(s, names) == s && pod_opened(s, names) == s,
{
}

/// Opening a pod and backing out leads to the kube view with nothing chosen.
pub proof fn lemma_pod_in_and_out(s: StateView, pods: Seq<Seq<char>>)
    requires
        0 <= s.cursor < pods.len(),
    ensures
        ({
            let r = drilled_out(pod_opened(s, pods));
            r.view == View::Kube && r.selected_pod is None && r.selected_node == s.selected_node
                && r.drilled_topic == s.drilled_topic
        }),
{
}

/// The topic under the cursor is the one whose partitions are shown.
pub proof fn lemma_topic_chosen(s: StateView, topics: Seq<HealthView>)
    requires
        0 <= s.cursor,
    ensures
        s.cursor < topics.len() ==> drilled_in(s, topics).drilled_topic == Some(
            topics[s.cursor].topic,
        ) && drilled_in(s, topics).view == View::Combined,
        s.cursor >= topics.len() ==> drilled_in(s, topics) == s,
{
}

/// The focus of the kube view goes to and fro.
pub proof fn lemma_focus_to_and_fro(s: StateView)
    ensures
        s.kube_focus == KubeFocus::Pods ==> focus_toggled(s).kube_focus == KubeFocus::Nodes,
        s.kube_focus == KubeFocus::Nodes ==> focus_toggled(s).kube_focus == KubeFocus::Pods,
        focus_toggled(focus_toggled(s)) == (StateView { cursor: 0, ..s }),
{
}

/// How bad each status of a topic, each status of a partition and each trend is.
pub proof fn lemma_severities()
    ensures
        severity_of("OK"@) == Severity::Good,
        severity_of("ok"@) == Severity::Good,
        severity_of("empty"@) == Severity::Good,
        severity_of("BACKLOG"@) == Severity::Warn,
        severity_of("PARTITION_GAP"@) == Severity::Warn,
        severity_of("hot"@) == Severity::Warn,
        severity_of("at_edge"@) == Severity::Warn,
        severity_of("draining"@) == Severity::Warn,
        severity_of("stable"@) == Severity::Warn,
        severity_of("NO_CONSUMERS"@) == Severity::Bad,
        severity_of("no_consumers"@) == Severity::Bad,
        severity_of("MISSING_SUB"@) == Severity::Bad,
        severity_of("subscription_missing"@) == Severity::Bad,
        severity_of("TRIMMED"@) == Severity::Bad,
        severity_of("trimmed"@) == Severity::Bad,
        severity_of("ERROR"@) == Severity::Bad,
        severity_of("error"@) == Severity::Bad,
        severity_of("growing"@) == Severity::Bad,
{
    reveal_strlit("OK");
    reveal_strlit("ok");
    reveal_strlit("empty");
    reveal_strlit("BACKLOG");
    reveal_strlit("PARTITION_GAP");
    reveal_strlit("hot");
    reveal_strlit("at_edge");
    reveal_strlit("draining");
    reveal_strlit("stable");
    reveal_strlit("NO_CONSUMERS");
    reveal_strlit("no_consumers");
    reveal_strlit("MISSING_SUB");
    reveal_strlit("subscription_missing");
    reveal_strlit("TRIMMED");
    reveal_strlit("trimmed");
    reveal_strlit("ERROR");
    reveal_strlit("error");
    reveal_strlit("growing");
    assert("BACKLOG"@[0] == 'B' && "PARTITION_GAP"@[0] == 'P' && "hot"@[0] == 'h');
    assert("at_edge"@[0] == 'a' && "draining"@[0] == 'd' && "stable"@.len() == 6);
    assert("OK"@[0] == 'O' && "ok"@[0] == 'o' && "empty"@[0] == 'e' && "empty"@[1] == 'm');
    assert("NO_CONSUMERS"@[0] == 'N' && "no_consumers"@[0] == 'n' && "MISSING_SUB"@[0] == 'M');
    assert("subscription_missing"@.len() == 20 && "subscription_missing"@[0] == 's');
    assert("TRIMMED"@[0] == 'T' && "trimmed"@[0] == 't' && "ERROR"@[0] == 'E');
    assert("error"@[0] == 'e' && "error"@[1] == 'r' && "growing"@[0] == 'g');
}

/// Each partition of each topic has its row, under the name of the topic.
pub proof fn lemma_rows_complete(topics: Seq<HealthView>, i: int, k: int)
    requires
        0 <= i < topics.len(),
        0 <= k < topics[i].partitions.len(),
    ensures
        rows_of(topics).contains(
            RowView { topic: topics[i].topic, detail: topics[i].partitions[k] },
        ),
    decreases topics.len(),
{
    let rest = topics.drop_last();
    let a = rows_of(rest);
    let b = topic_rows(topics.last());
    let row = RowView { topic: topics[i].topic, detail: topics[i].partitions[k] };
    if i < rest.len() {
        assert(rest[i] == topics[i]);
        lemma_rows_complete(rest, i, k);
        let j = choose|j: int| 0 <= j < a.len() && a[j] == row;
        assert((a + b)[j] == row);
    } else {
        assert(b[k] == row);
        assert((a + b)[a.len() + k] == row);
    }
}

/// One more topic adds one row for each of its partitions.
pub proof fn lemma_row_count(topics: Seq<HealthView>, h: HealthView)
    ensures
        rows_of(Seq::empty()).len() == 0,
        rows_of(topics.push(h)).len() == rows_of(topics).len() + h.partitions.len(),
{
    assert(topics.push(h).drop_last() =~= topics);
}

/// The screen starts with the topics, at the first of them, with nothing chosen,
/// opened or waiting.
pub proof fn lemma_start()
    ensures
        initial_state().view == View::Topic,
        initial_state().cursor == 0 && initial_state().log_cursor == 0,
        initial_state().metrics_scroll == 0,
        initial_state().kube_focus == KubeFocus::Pods,
        initial_state().pending is None,
        initial_state().drilled_topic is None && initial_state().selected_node is None,
        initial_state().selected_pod is None,
        !initial_state().show_help && !initial_state().pod_detail_metrics,
        !initial_state().log_expanded && !initial_state().log_wrap,
{
}

} // verus!
