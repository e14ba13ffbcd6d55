//! Which panels the interactive screen shows, and what stands in them.

use crate::fleet::{
    fleet_lines, metrics_lines, metrics_scroll, pod_metrics, pod_metrics_lines, scroll_offset,
    scroll_title, stability_part, stability_rows,
};
use crate::kube::json::document;
use crate::kube::logs::long_lines;
use crate::kube::{KubeReport, PodLogs, PodMetricSummary, PodSummary};
use crate::output::{local_name, short_topic};
use crate::panels::{
    expanded_log, log_row, log_rows, log_scroll, no_match, no_match_text, node_detail,
    node_detail_lines, pod_info, pod_info_lines,
};
use crate::screen::{one, one_line, plain, GridRow, Line, LineView, RowLook};
use crate::text::{cat2, copy_of, same};
use crate::view::{StateView, ViewState};
use vstd::prelude::*;

verus! {

/// A panel of lines.
#[derive(Debug)]
pub struct Panel {
    pub title: String,
    pub lines: Vec<Line>,
    /// The first line that is shown.
    pub scroll: usize,
    /// Long lines are wrapped.
    pub wrap: bool,
}

/// A panel as a model.
#[verifier::ext_equal]
pub struct PanelView {
    pub title: Seq<char>,
    pub lines: Seq<LineView>,
    pub scroll: int,
    pub wrap: bool,
}

impl DeepView for Panel {
    type V = PanelView;

    open spec fn deep_view(&self) -> PanelView {
        PanelView {
            title: self.title@,
            lines: self.lines.deep_view(),
            scroll: self.scroll as int,
            wrap: self.wrap,
        }
    }
}

/// A panel that is neither scrolled nor wrapped.
pub open spec fn still(title: Seq<char>, lines: Seq<LineView>) -> PanelView {
    PanelView { title, lines, scroll: 0, wrap: false }
}

/// A panel with one line.
pub open spec fn notice(title: Seq<char>, text: Seq<char>) -> PanelView {
    still(title, seq![one(text, plain())])
}

/// A panel with one line.
fn notice_panel(title: &str, text: &str) -> (r: Panel)
    ensures
        r.deep_view() == notice(title@, text@),
{
    let mut lines: Vec<Line> = Vec::new();
    lines.push(one_line(copy_of(text), plain()));
    let r = Panel { title: copy_of(title), lines, scroll: 0, wrap: false };
    assert(r.deep_view() =~= notice(title@, text@));
    r
}

// ── One pod ──────────────────────────────────────────────────────────────────

/// The first pod of that name.
pub open spec fn pod_named(pods: Seq<PodSummary>, name: Seq<char>) -> Option<PodSummary>
    decreases pods.len(),
{
    if pods.len() == 0 {
        None
    } else if pods[0].name@ == name {
        Some(pods[0])
    } else {
        pod_named(pods.drop_first(), name)
    }
}

/// The first log of that pod.
pub open spec fn logs_named(logs: Seq<PodLogs>, name: Seq<char>) -> Option<PodLogs>
    decreases logs.len(),
{
    if logs.len() == 0 {
        None
    } else if logs[0].pod@ == name {
        Some(logs[0])
    } else {
        logs_named(logs.drop_first(), name)
    }
}

/// The first summary of that pod.
pub open spec fn summary_named(list: Seq<PodMetricSummary>, name: Seq<char>) -> Option<
    PodMetricSummary,
>
    decreases list.len(),
{
    if list.len() == 0 {
        None
    } else if list[0].pod@ == name {
        Some(list[0])
    } else {
        summary_named(list.drop_first(), name)
    }
}

fn find_pod<'a>(pods: &'a Vec<PodSummary>, name: &str) -> (r: Option<&'a PodSummary>)
    ensures
        match r {
            Some(p) => pod_named(pods@, name@) == Some(*p),
            None => pod_named(pods@, name@) is None,
        },
{
    assert(pods@.skip(0) =~= pods@);
    for i in 0..pods.len()
        invariant
            pod_named(pods@, name@) == pod_named(pods@.skip(i as int), name@),
    {
        assert(pods@.skip(i as int)[0] == pods@[i as int]);
        assert(pods@.skip(i as int).drop_first() =~= pods@.skip(i + 1));
        if same(pods[i].name.as_str(), name) {
            return Some(&pods[i]);
        }
    }
    None
}

fn find_logs<'a>(logs: &'a Vec<PodLogs>, name: &str) -> (r: Option<&'a PodLogs>)
    ensures
        match r {
            Some(p) => logs_named(logs@, name@) == Some(*p),
            None => logs_named(logs@, name@) is None,
        },
{
    assert(logs@.skip(0) =~= logs@);
    for i in 0..logs.len()
        invariant
            logs_named(logs@, name@) == logs_named(logs@.skip(i as int), name@),
    {
        assert(logs@.skip(i as int)[0] == logs@[i as int]);
        assert(logs@.skip(i as int).drop_first() =~= logs@.skip(i + 1));
        if same(logs[i].pod.as_str(), name) {
            return Some(&logs[i]);
        }
    }
    None
}

fn find_summary<'a>(list: &'a Vec<PodMetricSummary>, name: &str) -> (r: Option<&'a PodMetricSummary>)
    ensures
        match r {
            Some(p) => summary_named(list@, name@) == Some(*p),
            None => summary_named(list@, name@) is None,
        },
{
    assert(list@.skip(0) =~= list@);
    for i in 0..list.len()
        invariant
            summary_named(list@, name@) == summary_named(list@.skip(i as int), name@),
    {
        assert(list@.skip(i as int)[0] == list@[i as int]);
        assert(list@.skip(i as int).drop_first() =~= list@.skip(i + 1));
        if same(list[i].pod.as_str(), name) {
            return Some(&list[i]);
        }
    }
    None
}

/// The upper panel of a pod: what is known of it.
pub open spec fn pod_head(report: KubeReport, name: Seq<char>) -> PanelView {
    still(
        "pod · "@ + local_name(name),
        match pod_named(report.pods@, name) {
            Some(p) => pod_info(p),
            None => Seq::empty(),
        },
    )
}

/// The upper panel of a pod.
pub fn pod_head_panel(report: &KubeReport, name: &str) -> (r: Panel)
    ensures
        r.deep_view() == pod_head(*report, name@),
{
    let lines = match find_pod(&report.pods, name) {
        Some(p) => pod_info_lines(p),
        None => Vec::new(),
    };
    let r = Panel {
        title: cat2("pod · ", short_topic(name).as_str()),
        lines,
        scroll: 0,
        wrap: false,
    };
    assert(r.deep_view() =~= pod_head(*report, name@));
    r
}

/// The metrics of a pod.
pub open spec fn pod_metrics_panel(report: KubeReport, name: Seq<char>) -> PanelView {
    still(
        "metrics (m logs · grouped)"@,
        match summary_named(report.pod_metric_summaries@, name) {
            Some(s) => pod_metrics(s),
            None => seq![
                one("no metrics for this pod (scraping off or not yet scraped)"@, plain()),
            ],
        },
    )
}

/// The log line at place `i`; empty where there is none.
pub open spec fn line_at(logs: Option<PodLogs>, i: int) -> Seq<char> {
    match logs {
        Some(l) => if 0 <= i < l.lines@.len() {
            l.lines@[i]@
        } else {
            ""@
        },
        None => ""@,
    }
}

/// The log line under the cursor in full.
pub open spec fn entry_panel(logs: Option<PodLogs>, s: StateView) -> PanelView {
    let line = line_at(logs, s.log_cursor);
    PanelView {
        title: "log entry (Esc collapse · w wrap)"@,
        lines: long_lines(document(line), line).map_values(|t: Seq<char>| one(t, plain())),
        scroll: 0,
        wrap: s.log_wrap,
    }
}

/// The log lines of a pod in a pane of that size.
pub open spec fn logs_panel(
    logs: Option<PodLogs>,
    s: StateView,
    width: int,
    visible: int,
) -> PanelView {
    PanelView {
        title: "logs (↑/↓ select · Enter expand)"@,
        lines: match logs {
            Some(l) => Seq::new(
                l.lines@.len(),
                |i: int| log_row(l.lines@[i]@, width, i == s.log_cursor),
            ),
            None => seq![one("no logs captured for this pod"@, plain())],
        },
        scroll: if s.log_cursor > visible / 2 {
            s.log_cursor - visible / 2
        } else {
            0
        },
        wrap: false,
    }
}

/// The lower panel of a pod: its metrics, one log line in full, or its log.
pub open spec fn pod_body(
    report: KubeReport,
    name: Seq<char>,
    s: StateView,
    width: int,
    visible: int,
) -> PanelView {
    let logs = logs_named(report.pod_logs@, name);
    if s.pod_detail_metrics {
        pod_metrics_panel(report, name)
    } else if s.log_expanded {
        entry_panel(logs, s)
    } else {
        logs_panel(logs, s, width, visible)
    }
}

/// The lower panel of a pod, in a pane of that many columns and lines.
pub fn pod_body_panel(
    report: &KubeReport,
    name: &str,
    state: &ViewState,
    width: usize,
    visible: usize,
) -> (r: Panel)
    ensures
        r.deep_view() == pod_body(
            *report,
            name@,
            state.deep_view(),
            width as int,
            visible as int,
        ),
{
    let ghost want = pod_body(*report, name@, state.deep_view(), width as int, visible as int);
    let r = if state.pod_detail_metrics {
        match find_summary(&report.pod_metric_summaries, name) {
            Some(s) => Panel {
                title: copy_of("metrics (m logs · grouped)"),
                lines: pod_metrics_lines(s),
                scroll: 0,
                wrap: false,
            },
            None => notice_panel(
                "metrics (m logs · grouped)",
                "no metrics for this pod (scraping off or not yet scraped)",
            ),
        }
    } else {
        let logs = find_logs(&report.pod_logs, name);
        if state.log_expanded {
            let line = match logs {
                Some(l) => if state.log_cursor < l.lines.len() {
                    copy_of(l.lines[state.log_cursor].as_str())
                } else {
                    copy_of("")
                },
                None => copy_of(""),
            };
            Panel {
                title: copy_of("log entry (Esc collapse · w wrap)"),
                lines: expanded_log(line.as_str()),
                scroll: 0,
                wrap: state.log_wrap,
            }
        } else {
            let lines = match logs {
                Some(l) => log_rows(&l.lines, state.log_cursor, width),
                None => {
                    let mut v: Vec<Line> = Vec::new();
                    v.push(one_line(copy_of("no logs captured for this pod"), plain()));
                    v
                },
            };
            assert(lines.deep_view() =~= want.lines);
            Panel {
                title: copy_of("logs (↑/↓ select · Enter expand)"),
                lines,
                scroll: log_scroll(state.log_cursor, visible),
                wrap: false,
            }
        }
    };
    assert(r.deep_view() =~= want);
    r
}

// ── One node ─────────────────────────────────────────────────────────────────

/// The panel of a node.
pub fn node_panel(report: &KubeReport, name: &str) -> (r: Panel)
    ensures
        r.deep_view() == still("node · "@ + name@, node_detail(*report, name@)),
{
    Panel {
        title: cat2("node · ", name),
        lines: node_detail_lines(report, name),
        scroll: 0,
        wrap: false,
    }
}

// ── All pods ─────────────────────────────────────────────────────────────────

/// What stands in place of the pods where there are none to show.
pub open spec fn pods_notice(kube: Option<KubeReport>) -> Option<(Seq<char>, Seq<char>)> {
    match kube {
        None => Some(("kubernetes"@, "kube view: run with --kube (and a binary built with --features kube)"@)),
        Some(report) => if report.pods@.len() == 0 {
            Some(("kubernetes — no match"@, no_match(report)))
        } else {
            None
        },
    }
}

/// Title and text of what stands in place of the pods where there are none to
/// show.
pub fn pods_notice_text(kube: &Option<KubeReport>) -> (r: Option<(String, String)>)
    ensures
        r.deep_view() == pods_notice(*kube),
{
    match kube {
        None => Some((copy_of("kubernetes"), copy_of("kube view: run with --kube (and a binary built with --features kube)"))),
        Some(report) => if report.pods.len() == 0 {
            Some((copy_of("kubernetes — no match"), no_match_text(report)))
        } else {
            None
        },
    }
}

/// The metrics of all pods in a pane of that many lines.
pub open spec fn fleet_view(kube: Option<KubeReport>, scroll: int, height: int) -> PanelView {
    match kube {
        None => notice(
            "fleet metrics"@,
            "metrics scraping is off (set [metrics] enabled = true)"@,
        ),
        Some(report) => if report.pod_metric_summaries@.len() == 0 {
            notice("fleet metrics"@, "no pod metrics scraped yet"@)
        } else {
            let lines = fleet_lines(report.pod_metric_summaries@);
            PanelView {
                title: scroll_title(scroll, lines.len() as int, height),
                lines,
                scroll: scroll_offset(scroll, lines.len() as int, height),
                wrap: false,
            }
        },
    }
}

/// The metrics of all pods in a pane of that many lines.
pub fn fleet_panel(kube: &Option<KubeReport>, scroll: u16, height: u16) -> (r: Panel)
    ensures
        r.deep_view() == fleet_view(*kube, scroll as int, height as int),
{
    match kube {
        None => notice_panel(
            "fleet metrics",
            "metrics scraping is off (set [metrics] enabled = true)",
        ),
        Some(report) => if report.pod_metric_summaries.len() == 0 {
            notice_panel("fleet metrics", "no pod metrics scraped yet")
        } else {
            let lines = metrics_lines(&report.pod_metric_summaries);
            assert(lines.deep_view().len() == lines@.len());
            let (offset, title) = metrics_scroll(scroll, lines.len(), height);
            Panel { title, lines, scroll: offset, wrap: false }
        },
    }
}

/// The connections of all pods as rows, or a notice in their place.
#[derive(Debug)]
pub enum Stability {
    Notice(Panel),
    Rows(Vec<GridRow>),
}

/// The connections of all pods as a model.
#[verifier::ext_equal]
pub enum StabilityView {
    Notice(PanelView),
    Rows(Seq<RowLook>),
}

impl DeepView for Stability {
    type V = StabilityView;

    open spec fn deep_view(&self) -> StabilityView {
        match self {
            Stability::Notice(p) => StabilityView::Notice(p.deep_view()),
            Stability::Rows(v) => StabilityView::Rows(v.deep_view()),
        }
    }
}

/// How stable the connections of the pods are; those that flap come first.
pub open spec fn stability(kube: Option<KubeReport>) -> StabilityView {
    match kube {
        None => StabilityView::Notice(
            notice(
                "connection stability"@,
                "metrics scraping is off (set [metrics] enabled = true)"@,
            ),
        ),
        Some(report) => if report.pod_stability@.len() == 0 {
            StabilityView::Notice(
                notice(
                    "connection stability"@,
                    "no stability data yet (needs a few scrapes to compute churn)"@,
                ),
            )
        } else {
            StabilityView::Rows(
                stability_part(report.pod_stability@, true) + stability_part(
                    report.pod_stability@,
                    false,
                ),
            )
        },
    }
}

/// How stable the connections of the pods are.
pub fn stability_panel(kube: &Option<KubeReport>) -> (r: Stability)
    ensures
        r.deep_view() == stability(*kube),
{
    match kube {
        None => Stability::Notice(
            notice_panel(
                "connection stability",
                "metrics scraping is off (set [metrics] enabled = true)",
            ),
        ),
        Some(report) => if report.pod_stability.len() == 0 {
            Stability::Notice(
                notice_panel(
                    "connection stability",
                    "no stability data yet (needs a few scrapes to compute churn)",
                ),
            )
        } else {
            Stability::Rows(stability_rows(&report.pod_stability))
        },
    }
}

// ── Laws ─────────────────────────────────────────────────────────────────────

/// The detail of a pod is about the first pod, log and summary of its name.
pub proof fn lemma_pod_named(pods: Seq<PodSummary>, i: int)
    requires
        0 <= i < pods.len(),
        forall|j: int| 0 <= j < i ==> (#[trigger] pods[j]).name@ != pods[i].name@,
    ensures
        pod_named(pods, pods[i].name@) == Some(pods[i]),
    decreases i,
{
    if i > 0 {
        let rest = pods.drop_first();
        assert(pods[0].name@ != pods[i].name@);
        assert(rest[i - 1] == pods[i]);
        assert forall|j: int| 0 <= j < i - 1 implies (#[trigger] rest[j]).name@ != rest[i
            - 1].name@ by {
            assert(rest[j] == pods[j + 1]);
        }
        lemma_pod_named(rest, i - 1);
    }
}

/// The log of a pod is the first one under its name.
pub proof fn lemma_logs_named(logs: Seq<PodLogs>, i: int)
    requires
        0 <= i < logs.len(),
        forall|j: int| 0 <= j < i ==> (#[trigger] logs[j]).pod@ != logs[i].pod@,
    ensures
        logs_named(logs, logs[i].pod@) == Some(logs[i]),
    decreases i,
{
    if i > 0 {
        let rest = logs.drop_first();
        assert(logs[0].pod@ != logs[i].pod@);
        assert(rest[i - 1] == logs[i]);
        assert forall|j: int| 0 <= j < i - 1 implies (#[trigger] rest[j]).pod@ != rest[i
            - 1].pod@ by {
            assert(rest[j] == logs[j + 1]);
        }
        lemma_logs_named(rest, i - 1);
    }
}

/// The metrics of a pod are the first ones under its name.
pub proof fn lemma_summary_named(list: Seq<PodMetricSummary>, i: int)
    requires
        0 <= i < list.len(),
        forall|j: int| 0 <= j < i ==> (#[trigger] list[j]).pod@ != list[i].pod@,
    ensures
        summary_named(list, list[i].pod@) == Some(list[i]),
    decreases i,
{
    if i > 0 {
        let rest = list.drop_first();
        assert(list[0].pod@ != list[i].pod@);
        assert(rest[i - 1] == list[i]);
        assert forall|j: int| 0 <= j < i - 1 implies (#[trigger] rest[j]).pod@ != rest[i
            - 1].pod@ by {
            assert(rest[j] == list[j + 1]);
        }
        lemma_summary_named(rest, i - 1);
    }
}

/// The lower panel of a pod: its metrics where they were asked for, else the log
/// line under the cursor where it was opened, else all log lines, with the one under
/// the cursor reversed and near the middle.
pub proof fn lemma_pod_body(
    report: KubeReport,
    name: Seq<char>,
    s: StateView,
    width: int,
    visible: int,
    l: PodLogs,
)
    requires
        logs_named(report.pod_logs@, name) == Some(l),
        0 <= s.log_cursor < l.lines@.len(),
        visible >= 0,
    ensures
        ({
            let body = pod_body(report, name, s, width, visible);
            let line = l.lines@[s.log_cursor]@;
            &&& s.pod_detail_metrics && summary_named(report.pod_metric_summaries@, name) is Some
                ==> body.lines == pod_metrics(
                summary_named(report.pod_metric_summaries@, name)->0,
            )
            &&& !s.pod_detail_metrics && s.log_expanded ==> body.lines == long_lines(
                document(line),
                line,
            ).map_values(|t: Seq<char>| one(t, plain())) && body.wrap == s.log_wrap
            &&& !s.pod_detail_metrics && !s.log_expanded ==> {
                &&& body.lines.len() == l.lines@.len()
                &&& forall|i: int|
                    0 <= i < l.lines@.len() ==> ((#[trigger] body.lines[i])[0].1.reversed <==> i
                        == s.log_cursor)
                &&& s.log_cursor <= visible / 2 ==> body.scroll == 0
                &&& s.log_cursor > visible / 2 ==> body.scroll == s.log_cursor - visible / 2
            }
        }),
{
}

/// What is shown where there is nothing to show.
pub proof fn lemma_notices(report: KubeReport, scroll: int, height: int)
    ensures
        pods_notice(None) is Some,
        pods_notice(Some(report)) is Some <==> report.pods@.len() == 0,
        report.pod_metric_summaries@.len() > 0 ==> fleet_view(Some(report), scroll, height).lines
            == fleet_lines(report.pod_metric_summaries@),
        report.pod_metric_summaries@.len() == 0 ==> fleet_view(Some(report), scroll, height).lines
            == seq![one("no pod metrics scraped yet"@, plain())],
        stability(None) is Notice,
        stability(Some(report)) is Notice <==> report.pod_stability@.len() == 0,
        report.pod_stability@.len() > 0 ==> stability(Some(report)) == StabilityView::Rows(
            stability_part(report.pod_stability@, true) + stability_part(
                report.pod_stability@,
                false,
            ),
        ),
{
}

/// The upper panel of a pod tells what is known of it, under its short name.
pub proof fn lemma_pod_head(report: KubeReport, p: PodSummary)
    requires
        pod_named(report.pods@, p.name@) == Some(p),
    ensures
        pod_head(report, p.name@).title == "pod · "@ + local_name(p.name@),
        pod_head(report, p.name@).lines == pod_info(p),
        pod_head(report, p.name@).scroll == 0,
{
}

} // verus!
