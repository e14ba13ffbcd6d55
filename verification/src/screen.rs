//! What the interactive screen says: styled lines and grids, without a terminal.

use crate::decimal::{count_text, decimal, decimal_text, unsigned_text};
use crate::drain::{trend_label, DrainStats, Trend};
use crate::health::{status_label, HealthView, TopicHealth};
use crate::kube::{NodeInfo, PodSummary};
use crate::kube::quantity::{cpu_text, format_cpu};
use crate::output::{
    any_drain, clear_text, eta_str, format_bytes, local_name, net_str, net_text, number_or_dash, opt_bytes, opt_num,
    short_topic, shows_drain, size_or_dash, size_text,
};
use crate::podtable::{
    age_or_dash, age_text, cpu_usage, cpu_usage_text, mem_usage, mem_usage_text, pod_ready_text,
    pod_state, ready_text, state_text,
};
use crate::table::Paint;
use crate::text::{cat2, cat7, chars_of, copy_of, join, joined};
use crate::view::{
    partition_status_legend, partition_status_legend_entries, severity_of, status_legend, status_legend_entries,
    status_severity, trend_legend, trend_legend_entries, view_label, PartitionRow, RowView, Severity, View, ViewState,
};
use vstd::prelude::*;
use vstd::view::View as _;

verus! {

// ── Styles, lines and grids ──────────────────────────────────────────────────

/// How a piece of text looks.
#[derive(Debug, Clone, Copy, PartialEq, Eq, Structural)]
pub struct Style {
    pub fg: Option<Paint>,
    pub bg: Option<Paint>,
    pub bold: bool,
    pub dim: bool,
    pub italic: bool,
    pub reversed: bool,
}

/// Nothing special.
#[verifier::allow_in_spec]
pub fn plain() -> (r: Style)
    returns
        (Style { fg: None, bg: None, bold: false, dim: false, italic: false, reversed: false }),
{
    Style { fg: None, bg: None, bold: false, dim: false, italic: false, reversed: false }
}

/// In bold type.
#[verifier::allow_in_spec]
pub fn bold() -> (r: Style)
    returns
        (Style { fg: None, bg: None, bold: true, dim: false, italic: false, reversed: false }),
{
    Style { fg: None, bg: None, bold: true, dim: false, italic: false, reversed: false }
}

/// In italics.
#[verifier::allow_in_spec]
pub fn italic() -> (r: Style)
    returns
        (Style { fg: None, bg: None, bold: false, dim: false, italic: true, reversed: false }),
{
    Style { fg: None, bg: None, bold: false, dim: false, italic: true, reversed: false }
}

/// An alarm: white on red.
#[verifier::allow_in_spec]
pub fn alarm() -> (r: Style)
    returns
        (Style { fg: Some(Paint::White), bg: Some(Paint::Red), bold: true, dim: false, italic: false, reversed: false }),
{
    Style { fg: Some(Paint::White), bg: Some(Paint::Red), bold: true, dim: false, italic: false, reversed: false }
}

/// The row under the cursor.
#[verifier::allow_in_spec]
pub fn under_cursor() -> (r: Style)
    returns
        (Style { fg: None, bg: None, bold: true, dim: false, italic: false, reversed: true }),
{
    Style { fg: None, bg: None, bold: true, dim: false, italic: false, reversed: true }
}

/// In a colour.
pub open spec fn coloured(p: Paint) -> Style {
    Style { fg: Some(p), ..plain() }
}

/// In a colour.
pub fn in_colour(p: Paint) -> (r: Style)
    ensures
        r == coloured(p),
{
    Style { fg: Some(p), bg: None, bold: false, dim: false, italic: false, reversed: false }
}

/// A piece of text with its style.
#[derive(Debug)]
pub struct Span {
    pub text: String,
    pub style: Style,
}

/// A piece of text with its style, as a model.
pub type SpanView = (Seq<char>, Style);

impl DeepView for Span {
    type V = SpanView;

    open spec fn deep_view(&self) -> SpanView {
        (self.text@, self.style)
    }
}

/// A line of several pieces.
#[derive(Debug)]
pub struct Line {
    pub spans: Vec<Span>,
}

/// A line of several pieces, as a model.
pub type LineView = Seq<SpanView>;

impl DeepView for Line {
    type V = LineView;

    open spec fn deep_view(&self) -> LineView {
        self.spans.deep_view()
    }
}

/// A row of a grid.
#[derive(Debug)]
pub struct GridRow {
    pub cells: Vec<Span>,
    pub style: Style,
}

/// A row of a grid, as a model.
#[verifier::ext_equal]
pub struct RowLook {
    pub cells: Seq<SpanView>,
    pub style: Style,
}

impl DeepView for GridRow {
    type V = RowLook;

    open spec fn deep_view(&self) -> RowLook {
        RowLook { cells: self.cells.deep_view(), style: self.style }
    }
}

/// A piece of text without a style.
pub open spec fn bare(text: Seq<char>) -> SpanView {
    (text, plain())
}

/// A line of one piece.
pub open spec fn one(text: Seq<char>, style: Style) -> LineView {
    seq![(text, style)]
}

/// A line of one piece.
pub fn one_line(text: String, style: Style) -> (r: Line)
    ensures
        r.deep_view() == one(text@, style),
{
    let mut spans: Vec<Span> = Vec::new();
    spans.push(Span { text, style });
    let r = Line { spans };
    assert(r.deep_view() =~= one(text@, style));
    r
}

/// A piece of text.
pub fn span(text: String, style: Style) -> (r: Span)
    ensures
        r.deep_view() == (text@, style),
{
    Span { text, style }
}

/// Add a line of one piece.
pub fn push_line(out: &mut Vec<Line>, text: String, style: Style)
    ensures
        final(out).deep_view() == old(out).deep_view().push(one(text@, style)),
{
    let ghost before = out.deep_view();
    let line = one_line(text, style);
    let ghost added = line.deep_view();
    out.push(line);
    assert(out.deep_view() =~= before.push(added));
}

/// Add lines behind the others.
pub fn push_lines(out: &mut Vec<Line>, more: Vec<Line>)
    ensures
        final(out).deep_view() == old(out).deep_view() + more.deep_view(),
{
    let ghost before = out.deep_view();
    let ghost added = more.deep_view();
    let mut more = more;
    out.append(&mut more);
    assert(out.deep_view() =~= before + added);
}

/// `s` with spaces behind it, up to `width` characters.
pub open spec fn filled(s: Seq<char>, width: int) -> Seq<char> {
    if s.len() < width {
        s + Seq::new((width - s.len()) as nat, |i: int| ' ')
    } else {
        s
    }
}

/// `s` with spaces behind it, up to `width` characters.
pub fn fill(s: &str, width: usize) -> (r: String)
    ensures
        r@ == filled(s@, width as int),
{
    let mut r = copy_of(s);
    let n: usize = chars_of(s).len();
    let mut i: usize = n;
    assert(r@ =~= s@ + Seq::new(0, |i: int| ' '));
    while i < width
        invariant
            n == s@.len(),
            n <= i,
            n < width ==> i <= width,
            n < width ==> r@ == s@ + Seq::new((i - n) as nat, |i: int| ' '),
            n >= width ==> r@ == s@,
        decreases width - i,
    {
        r.push(' ');
        i = i + 1;
        assert(r@ =~= s@ + Seq::new((i - n) as nat, |i: int| ' '));
    }
    r
}

// ── Severity ─────────────────────────────────────────────────────────────────

/// The colour of a severity.
pub open spec fn severity_paint(s: Severity) -> Paint {
    match s {
        Severity::Good => Paint::Green,
        Severity::Warn => Paint::Yellow,
        Severity::Bad => Paint::Red,
    }
}

/// The style of a status or a trend.
pub open spec fn status_style(label: Seq<char>) -> Style {
    coloured(severity_paint(severity_of(label)))
}

/// The colour of a severity.
pub fn severity_color(s: Severity) -> (r: Paint)
    ensures
        r == severity_paint(s),
{
    match s {
        Severity::Good => Paint::Green,
        Severity::Warn => Paint::Yellow,
        Severity::Bad => Paint::Red,
    }
}

/// The style of a status or a trend.
fn style_of(label: &str) -> (r: Style)
    ensures
        r == status_style(label@),
{
    in_colour(severity_color(status_severity(label)))
}

// ── Header and footer ────────────────────────────────────────────────────────

/// The line at the top.
pub open spec fn header(
    view: View,
    drilled: Option<Seq<char>>,
    subscription: Seq<char>,
    run_at: Seq<char>,
) -> Seq<char> {
    " pulsar-topic-health · sub: "@ + local_name(subscription) + " · view: "@ + view_label(view) + (
    match drilled {
        Some(t) => " · drilled: "@ + local_name(t),
        None => ""@,
    }) + " · as of "@ + run_at
}

/// The line at the top.
pub fn header_text(state: &ViewState, subscription: &str, run_at: &str) -> (r: String)
    ensures
        r@ == header(state.view, state.drilled_topic.deep_view(), subscription@, run_at@),
{
    let focus = match &state.drilled_topic {
        Some(t) => cat2(" · drilled: ", short_topic(t.as_str()).as_str()),
        None => copy_of(""),
    };
    cat7(
        " pulsar-topic-health · sub: ",
        short_topic(subscription).as_str(),
        " · view: ",
        state.view.label(),
        focus.as_str(),
        " · as of ",
        run_at,
    )
}

/// The line at the bottom: the keys.
pub open spec fn footer(view: View) -> Seq<char> {
    match view {
        View::Kube => " ↑/↓=move  Tab=pods/nodes  Enter=open  Esc=back  v=view  ?=legend  q=quit"@,
        View::PodDetail => " ↑/↓=select  Enter=expand  Esc=collapse/back  m=logs/metrics  w=wrap  q=quit"@,
        View::NodeDetail => " Esc=back  ?=legend  r=refresh  q=quit"@,
        View::Metrics => " ↑/↓ PgUp/PgDn=scroll  v=view  r=refresh  q=quit"@,
        View::Stability => " v=view  r=refresh  q=quit  (connection stability — flapping pods flagged)"@,
        _ => " ↑/↓=move  Enter=drill in  Esc=back  v=view  ?=legend  r=refresh  q=quit"@,
    }
}

/// The line at the bottom: the keys.
pub fn footer_text(view: View) -> (r: &'static str)
    ensures
        r@ == footer(view),
{
    match view {
        View::Kube => " ↑/↓=move  Tab=pods/nodes  Enter=open  Esc=back  v=view  ?=legend  q=quit",
        View::PodDetail => " ↑/↓=select  Enter=expand  Esc=collapse/back  m=logs/metrics  w=wrap  q=quit",
        View::NodeDetail => " Esc=back  ?=legend  r=refresh  q=quit",
        View::Metrics => " ↑/↓ PgUp/PgDn=scroll  v=view  r=refresh  q=quit",
        View::Stability => " v=view  r=refresh  q=quit  (connection stability — flapping pods flagged)",
        _ => " ↑/↓=move  Enter=drill in  Esc=back  v=view  ?=legend  r=refresh  q=quit",
    }
}

// ── Legend ───────────────────────────────────────────────────────────────────

/// One entry of a legend.
pub open spec fn legend_line(e: (&'static str, &'static str), width: int) -> LineView {
    seq![(filled(e.0@, width), status_style(e.0@)), bare(e.1@)]
}

/// The entries of a legend.
pub open spec fn legend(entries: Seq<(&'static str, &'static str)>, width: int) -> Seq<LineView> {
    Seq::new(entries.len(), |i: int| legend_line(entries[i], width))
}

/// The entries of a legend.
fn legend_lines(entries: &[(&'static str, &'static str)], width: usize) -> (r: Vec<Line>)
    ensures
        r.deep_view() == legend(entries@, width as int),
{
    let mut r: Vec<Line> = Vec::new();
    for i in 0..entries.len()
        invariant
            r@.len() == i,
            forall|j: int|
                0 <= j < i ==> (#[trigger] r@[j]).deep_view() == legend_line(
                    entries@[j],
                    width as int,
                ),
    {
        let (label, meaning) = entries[i];
        let mut spans: Vec<Span> = Vec::new();
        spans.push(span(fill(label, width), style_of(label)));
        spans.push(span(copy_of(meaning), plain()));
        let line = Line { spans };
        assert(line.deep_view() =~= legend_line(entries@[i as int], width as int));
        r.push(line);
    }
    assert(r.deep_view() =~= legend(entries@, width as int));
    r
}

/// The keys for actions, where they are enabled.
pub open spec fn action_keys(allowed: bool) -> Seq<LineView> {
    if allowed {
        seq![
            one("Actions (kube and pod views, each asks for confirmation)"@, bold()),
            one("d=delete pod  R=recycle all pods  D=cordon and drain the pod's node"@, plain()),
            one(""@, plain()),
        ]
    } else {
        Seq::empty()
    }
}

/// The legend.
pub open spec fn help(allowed: bool) -> Seq<LineView> {
    seq![one("Status legend"@, bold())] + legend(status_legend_entries(), 14) + seq![
        one(""@, plain()),
        one("Trend legend"@, bold()),
    ] + legend(trend_legend_entries(), 14) + seq![
        one(""@, plain()),
        one("Partition status (partition view)"@, bold()),
    ] + legend(partition_status_legend_entries(), 22) + seq![one(""@, plain())] + action_keys(allowed)
        + seq![
        one("CPU/MEM columns show used/limit, coloured by % of limit."@, plain()),
        one("press ? to close"@, italic()),
    ]
}

/// The keys for actions, where they are enabled.
fn action_lines(allowed: bool) -> (r: Vec<Line>)
    ensures
        r.deep_view() == action_keys(allowed),
{
    let mut r: Vec<Line> = Vec::new();
    assert(r.deep_view() =~= Seq::empty());
    if allowed {
        push_line(
            &mut r,
            copy_of("Actions (kube and pod views, each asks for confirmation)"),
            bold(),
        );
        push_line(
            &mut r,
            copy_of("d=delete pod  R=recycle all pods  D=cordon and drain the pod's node"),
            plain(),
        );
        push_line(&mut r, copy_of(""), plain());
    }
    assert(r.deep_view() =~= action_keys(allowed));
    r
}

/// The legend.
pub fn help_lines(allowed: bool) -> (r: Vec<Line>)
    ensures
        r.deep_view() == help(allowed),
{
    let mut r: Vec<Line> = Vec::new();
    assert(r.deep_view() =~= Seq::empty());
    push_line(&mut r, copy_of("Status legend"), bold());
    push_lines(&mut r, legend_lines(status_legend(), 14));
    push_line(&mut r, copy_of(""), plain());
    push_line(&mut r, copy_of("Trend legend"), bold());
    push_lines(&mut r, legend_lines(trend_legend(), 14));
    push_line(&mut r, copy_of(""), plain());
    push_line(&mut r, copy_of("Partition status (partition view)"), bold());
    push_lines(&mut r, legend_lines(partition_status_legend(), 22));
    push_line(&mut r, copy_of(""), plain());
    push_lines(&mut r, action_lines(allowed));
    push_line(&mut r, copy_of("CPU/MEM columns show used/limit, coloured by % of limit."), plain());
    push_line(
        &mut r,
        copy_of("press ? to close"),
        italic(),
    );
    assert(r.deep_view() =~= help(allowed));
    r
}

// ── Topics ───────────────────────────────────────────────────────────────────

/// The style of a row, under the cursor or not.
pub open spec fn emphasised(on: bool) -> Style {
    if on {
        under_cursor()
    } else {
        plain()
    }
}

/// The style of a row, under the cursor or not.
pub fn emphasise(on: bool) -> (r: Style)
    ensures
        r == emphasised(on),
{
    if on {
        under_cursor()
    } else {
        plain()
    }
}

/// The trend of a topic.
pub open spec fn trend_span(drain: Option<DrainStats>) -> SpanView {
    match drain {
        None => bare("—"@),
        Some(d) => (
            trend_label(d.trend),
            match d.trend {
                Trend::Draining => coloured(Paint::Green),
                Trend::Growing => Style { bold: true, ..coloured(Paint::Red) },
                Trend::Stable => coloured(Paint::Yellow),
                Trend::Empty => coloured(Paint::DarkGrey),
            },
        ),
    }
}

/// What is said of a topic, in short.
pub open spec fn note_parts(h: HealthView) -> Seq<Seq<char>> {
    (if h.hot_partitions.len() > 0 {
        seq![decimal(h.hot_partitions.len() as int) + " hot"@]
    } else {
        Seq::empty()
    }) + (if h.partition_gaps.len() > 0 {
        seq![decimal(h.partition_gaps.len() as int) + " gap"@]
    } else {
        Seq::empty()
    }) + (match h.kube_hint {
        Some(t) => seq![t],
        None => Seq::empty(),
    })
}

/// The cells of a topic.
pub open spec fn topic_spans(h: HealthView, drain: bool) -> Seq<SpanView> {
    seq![
        bare(local_name(h.topic)),
        (status_label(h.status), status_style(status_label(h.status))),
        bare(number_or_dash(h.total_backlog)),
        bare(size_or_dash(h.backlog_bytes)),
        bare(number_or_dash(h.consumers)),
        bare(net_text(h.drain)),
    ] + (if drain {
        seq![trend_span(h.drain), bare(clear_text(h.drain))]
    } else {
        Seq::empty()
    }) + seq![bare(joined(note_parts(h), ", "@))]
}

/// The titles of the columns of the topics.
pub open spec fn topic_heads(drain: bool) -> Seq<Seq<char>> {
    seq!["TOPIC"@, "STATUS"@, "BACKLOG"@, "SIZE"@, "CONS"@, "NET/s"@] + (if drain {
        seq!["TREND"@, "ETA"@]
    } else {
        Seq::empty()
    }) + seq!["DETAIL"@]
}

/// The trend of a topic.
fn trend_cell(drain: &Option<DrainStats>) -> (r: Span)
    ensures
        r.deep_view() == trend_span(*drain),
{
    match drain {
        None => span(copy_of("—"), plain()),
        Some(d) => {
            let mut style = match d.trend {
                Trend::Draining => in_colour(Paint::Green),
                Trend::Growing => in_colour(Paint::Red),
                Trend::Stable => in_colour(Paint::Yellow),
                Trend::Empty => in_colour(Paint::DarkGrey),
            };
            style.bold = d.trend == Trend::Growing;
            span(copy_of(d.trend.label()), style)
        },
    }
}

/// What is said of a topic, in short.
pub fn topic_detail(t: &TopicHealth) -> (r: String)
    ensures
        r@ == joined(note_parts(t.deep_view()), ", "@),
{
    let mut parts: Vec<String> = Vec::new();
    if t.hot_partitions.len() > 0 {
        parts.push(cat2(count_text(t.hot_partitions.len()).as_str(), " hot"));
    }
    if t.partition_gaps.len() > 0 {
        parts.push(cat2(count_text(t.partition_gaps.len()).as_str(), " gap"));
    }
    if let Some(h) = &t.kube_hint {
        parts.push(copy_of(h.as_str()));
    }
    assert(parts.deep_view() =~= note_parts(t.deep_view()));
    join(&parts, ", ")
}

/// The cells of a topic.
fn topic_cells(t: &TopicHealth, drain: bool) -> (r: Vec<Span>)
    ensures
        r.deep_view() == topic_spans(t.deep_view(), drain),
{
    let mut r: Vec<Span> = Vec::new();
    let label = t.status.label();
    r.push(span(short_topic(t.topic.as_str()), plain()));
    r.push(span(copy_of(label), style_of(label)));
    r.push(span(opt_num(t.total_backlog), plain()));
    r.push(span(opt_bytes(t.backlog_bytes), plain()));
    r.push(span(opt_num(t.consumers), plain()));
    r.push(span(net_str(&t.drain), plain()));
    if drain {
        r.push(trend_cell(&t.drain));
        r.push(span(eta_str(&t.drain), plain()));
    }
    r.push(span(topic_detail(t), plain()));
    assert(r.deep_view() =~= topic_spans(t.deep_view(), drain));
    r
}

/// The titles of the columns of the topics.
pub fn topic_titles(drain: bool) -> (r: Vec<&'static str>)
    ensures
        Seq::new(r@.len(), |i: int| r@[i]@) == topic_heads(drain),
{
    let mut r: Vec<&'static str> = Vec::new();
    r.push("TOPIC");
    r.push("STATUS");
    r.push("BACKLOG");
    r.push("SIZE");
    r.push("CONS");
    r.push("NET/s");
    if drain {
        r.push("TREND");
        r.push("ETA");
    }
    r.push("DETAIL");
    assert(Seq::new(r@.len(), |i: int| r@[i]@) =~= topic_heads(drain));
    r
}

/// The rows of the topics, with the one under the cursor emphasised. The trend is
/// there only where a topic has one.
pub fn topic_rows(topics: &Vec<TopicHealth>, cursor: usize) -> (r: Vec<GridRow>)
    ensures
        r@.len() == topics@.len(),
        forall|i: int|
            0 <= i < r@.len() ==> (#[trigger] r@[i]).deep_view() == (RowLook {
                cells: topic_spans(topics@[i].deep_view(), any_drain(topics@)),
                style: emphasised(i == cursor),
            }),
{
    let drain = shows_drain(topics);
    let mut r: Vec<GridRow> = Vec::new();
    for i in 0..topics.len()
        invariant
            drain == any_drain(topics@),
            r@.len() == i,
            forall|j: int|
                0 <= j < i ==> (#[trigger] r@[j]).deep_view() == (RowLook {
                    cells: topic_spans(topics@[j].deep_view(), any_drain(topics@)),
                    style: emphasised(j == cursor),
                }),
    {
        r.push(GridRow { cells: topic_cells(&topics[i], drain), style: emphasise(i == cursor) });
    }
    r
}

// ── Partitions ───────────────────────────────────────────────────────────────

/// The cells of a partition.
pub open spec fn partition_spans(p: RowView) -> Seq<SpanView> {
    seq![
        bare(local_name(p.topic)),
        bare("p"@ + decimal(p.detail.index)),
        (p.detail.status, status_style(p.detail.status)),
        bare(decimal(p.detail.backlog)),
        bare(size_text(p.detail.backlog_bytes)),
        bare(decimal(p.detail.consumers)),
        bare(decimal(p.detail.unacked_messages)),
    ]
}

/// The rows of partitions, with the one under the cursor emphasised, where there
/// is a cursor.
pub fn partition_grid(rows: &Vec<PartitionRow>, cursor: Option<usize>) -> (r: Vec<GridRow>)
    ensures
        r@.len() == rows@.len(),
        forall|i: int|
            0 <= i < r@.len() ==> (#[trigger] r@[i]).deep_view() == (RowLook {
                cells: partition_spans(rows@[i].deep_view()),
                style: emphasised(cursor == Some(i as usize)),
            }),
{
    let mut r: Vec<GridRow> = Vec::new();
    for i in 0..rows.len()
        invariant
            r@.len() == i,
            forall|j: int|
                0 <= j < i ==> (#[trigger] r@[j]).deep_view() == (RowLook {
                    cells: partition_spans(rows@[j].deep_view()),
                    style: emphasised(cursor == Some(j as usize)),
                }),
    {
        let p = &rows[i];
        let mut cells: Vec<Span> = Vec::new();
        cells.push(span(short_topic(p.topic.as_str()), plain()));
        cells.push(span(cat2("p", unsigned_text(p.index as u64).as_str()), plain()));
        cells.push(span(copy_of(p.status), style_of(p.status)));
        cells.push(span(decimal_text(p.backlog), plain()));
        cells.push(span(format_bytes(p.backlog_bytes), plain()));
        cells.push(span(count_text(p.consumers), plain()));
        cells.push(span(decimal_text(p.unacked_messages), plain()));
        assert(cells.deep_view() =~= partition_spans(p.deep_view()));
        let on = match cursor {
            Some(c) => c == i,
            None => false,
        };
        r.push(GridRow { cells, style: emphasise(on) });
    }
    r
}

// ── Pods and nodes ───────────────────────────────────────────────────────────

/// The style of a pod's state: red where rows are lost or memory runs out.
pub open spec fn state_style(p: PodSummary) -> Style {
    if p.transform_error || p.memory_pressure {
        coloured(Paint::Red)
    } else {
        status_style(state_text(p))
    }
}

/// The cells of a pod.
pub open spec fn pod_spans(p: PodSummary) -> Seq<SpanView> {
    seq![
        bare(p.name@),
        bare(ready_text(p)),
        bare(decimal(p.restarts as int)),
        bare(age_or_dash(p.age_secs)),
        bare(cpu_usage(p)),
        bare(mem_usage(p)),
        (state_text(p), state_style(p)),
    ]
}

/// The rows of the pods; the cursor is on one of them, or nowhere.
pub fn pod_rows(pods: &Vec<PodSummary>, cursor: Option<usize>) -> (r: Vec<GridRow>)
    ensures
        r@.len() == pods@.len(),
        forall|i: int|
            0 <= i < r@.len() ==> (#[trigger] r@[i]).deep_view() == (RowLook {
                cells: pod_spans(pods@[i]),
                style: emphasised(cursor == Some(i as usize)),
            }),
{
    let mut r: Vec<GridRow> = Vec::new();
    for i in 0..pods.len()
        invariant
            r@.len() == i,
            forall|j: int|
                0 <= j < i ==> (#[trigger] r@[j]).deep_view() == (RowLook {
                    cells: pod_spans(pods@[j]),
                    style: emphasised(cursor == Some(j as usize)),
                }),
    {
        let p = &pods[i];
        let state = pod_state(p);
        let style = if p.transform_error || p.memory_pressure {
            in_colour(Paint::Red)
        } else {
            style_of(state.as_str())
        };
        let mut cells: Vec<Span> = Vec::new();
        cells.push(span(copy_of(p.name.as_str()), plain()));
        cells.push(span(pod_ready_text(p), plain()));
        cells.push(span(decimal_text(p.restarts as i64), plain()));
        cells.push(span(age_text(p.age_secs), plain()));
        cells.push(span(cpu_usage_text(p), plain()));
        cells.push(span(mem_usage_text(p), plain()));
        cells.push(span(state, style));
        assert(cells.deep_view() =~= pod_spans(*p));
        let on = match cursor {
            Some(c) => c == i,
            None => false,
        };
        r.push(GridRow { cells, style: emphasise(on) });
    }
    r
}

/// What a node can allocate of CPU.
pub open spec fn node_cpu(n: NodeInfo) -> Seq<char> {
    match n.alloc_cpu_milli {
        Some(v) => cpu_text(v as int),
        None => "?"@,
    }
}

/// What a node can allocate of memory.
pub open spec fn node_mem(n: NodeInfo) -> Seq<char> {
    match n.alloc_mem_bytes {
        Some(v) => size_text(v as int),
        None => "?"@,
    }
}

/// The cells of a node.
pub open spec fn node_spans(n: NodeInfo) -> Seq<SpanView> {
    seq![
        bare(n.name@),
        bare(match n.instance_type {
            Some(t) => t@,
            None => "—"@,
        }),
        bare(node_cpu(n) + " CPU"@),
        bare(node_mem(n) + " alloc"@),
    ]
}

/// What a node can allocate of CPU.
fn node_cpu_text(n: &NodeInfo) -> (r: String)
    ensures
        r@ == node_cpu(*n),
{
    match n.alloc_cpu_milli {
        Some(v) => format_cpu(v),
        None => copy_of("?"),
    }
}

/// What a node can allocate of memory.
fn node_mem_text(n: &NodeInfo) -> (r: String)
    ensures
        r@ == node_mem(*n),
{
    match n.alloc_mem_bytes {
        Some(v) => format_bytes(v),
        None => copy_of("?"),
    }
}

/// The rows of the nodes; the cursor is on one of them, or nowhere.
pub fn node_rows(nodes: &Vec<NodeInfo>, cursor: Option<usize>) -> (r: Vec<GridRow>)
    ensures
        r@.len() == nodes@.len(),
        forall|i: int|
            0 <= i < r@.len() ==> (#[trigger] r@[i]).deep_view() == (RowLook {
                cells: node_spans(nodes@[i]),
                style: emphasised(cursor == Some(i as usize)),
            }),
{
    let mut r: Vec<GridRow> = Vec::new();
    for i in 0..nodes.len()
        invariant
            r@.len() == i,
            forall|j: int|
                0 <= j < i ==> (#[trigger] r@[j]).deep_view() == (RowLook {
                    cells: node_spans(nodes@[j]),
                    style: emphasised(cursor == Some(j as usize)),
                }),
    {
        let n = &nodes[i];
        let mut cells: Vec<Span> = Vec::new();
        cells.push(span(copy_of(n.name.as_str()), plain()));
        let kind = match &n.instance_type {
            Some(t) => copy_of(t.as_str()),
            None => copy_of("—"),
        };
        cells.push(span(kind, plain()));
        cells.push(span(cat2(node_cpu_text(n).as_str(), " CPU"), plain()));
        cells.push(span(cat2(node_mem_text(n).as_str(), " alloc"), plain()));
        assert(cells.deep_view() =~= node_spans(*n));
        let on = match cursor {
            Some(c) => c == i,
            None => false,
        };
        r.push(GridRow { cells, style: emphasise(on) });
    }
    r
}

// ── Laws ─────────────────────────────────────────────────────────────────────

/// Spaces fill a text up to its width and never cut it.
pub proof fn lemma_filled(s: Seq<char>, width: int)
    ensures
        s.len() >= width ==> filled(s, width) == s,
        s.len() < width ==> filled(s, width).len() == width && filled(s, width).take(
            s.len() as int,
        ) == s,
        forall|i: int| s.len() <= i < filled(s, width).len() ==> #[trigger] filled(s, width)[i]
            == ' ',
{
    if s.len() < width {
        assert(filled(s, width).take(s.len() as int) =~= s);
    }
}

/// The colours of severities.
pub proof fn lemma_severity_colours(label: Seq<char>)
    ensures
        status_style(label).fg == Some(Paint::Green) <==> severity_of(label) == Severity::Good,
        status_style(label).fg == Some(Paint::Yellow) <==> severity_of(label) == Severity::Warn,
        status_style(label).fg == Some(Paint::Red) <==> severity_of(label) == Severity::Bad,
        status_style(label).bg is None && !status_style(label).bold,
{
}

/// The line at the top names the subscription, the view, the topic that is chosen
/// and the time.
pub proof fn lemma_header(
    view: View,
    topic: Seq<char>,
    subscription: Seq<char>,
    run_at: Seq<char>,
)
    ensures
        header(view, Some(topic), subscription, run_at) == " pulsar-topic-health · sub: "@
            + local_name(subscription) + " · view: "@ + view_label(view) + (" · drilled: "@
            + local_name(topic)) + " · as of "@ + run_at,
        header(view, None, subscription, run_at) =~= " pulsar-topic-health · sub: "@ + local_name(
            subscription,
        ) + " · view: "@ + view_label(view) + " · as of "@ + run_at,
{
    reveal_strlit("");
}

/// The keys for actions are told only where actions are enabled.
pub proof fn lemma_actions_told()
    ensures
        help(true).len() == help(false).len() + 3,
        action_keys(false).len() == 0,
        action_keys(true).len() == 3,
{
}

/// Only the row under the cursor is reversed.
pub proof fn lemma_cursor_row(on: bool)
    ensures
        emphasised(on).reversed <==> on,
        emphasised(on).bold <==> on,
{
}

/// Every cell of a topic stands under its title.
pub proof fn lemma_topic_columns(h: HealthView, drain: bool)
    ensures
        ({
            let heads = topic_heads(drain);
            let cells = topic_spans(h, drain);
            let n = heads.len() as int;
            &&& cells.len() == n
            &&& heads[0] == "TOPIC"@ && cells[0].0 == local_name(h.topic)
            &&& heads[1] == "STATUS"@ && cells[1] == (
                status_label(h.status),
                status_style(status_label(h.status)),
            )
            &&& heads[2] == "BACKLOG"@ && cells[2].0 == number_or_dash(h.total_backlog)
            &&& heads[3] == "SIZE"@ && cells[3].0 == size_or_dash(h.backlog_bytes)
            &&& heads[4] == "CONS"@ && cells[4].0 == number_or_dash(h.consumers)
            &&& heads[5] == "NET/s"@ && cells[5].0 == net_text(h.drain)
            &&& drain ==> heads[6] == "TREND"@ && heads[7] == "ETA"@ && cells[7].0 == clear_text(
                h.drain,
            )
            &&& drain && h.drain is Some ==> cells[6].0 == trend_label(h.drain->0.trend)
            &&& heads[n - 1] == "DETAIL"@
        }),
{
}

/// The colour of a trend: green where the backlog drains, red and bold where it
/// grows, yellow where it stands, grey where there is none.
pub proof fn lemma_trend_colours(d: DrainStats)
    ensures
        trend_span(Some(d)).0 == trend_label(d.trend),
        trend_span(Some(d)).1.fg == Some(Paint::Green) <==> d.trend == Trend::Draining,
        trend_span(Some(d)).1.fg == Some(Paint::Red) <==> d.trend == Trend::Growing,
        trend_span(Some(d)).1.bold <==> d.trend == Trend::Growing,
        trend_span(Some(d)).1.fg == Some(Paint::Yellow) <==> d.trend == Trend::Stable,
        trend_span(Some(d)).1.fg == Some(Paint::DarkGrey) <==> d.trend == Trend::Empty,
        trend_span(None) == ("—"@, plain()),
{
}

/// What is said of a topic in short: how many partitions are hot, how many have a
/// gap, and the hint, each where there is one.
pub proof fn lemma_notes(h: HealthView)
    ensures
        ({
            let a = if h.hot_partitions.len() > 0 {
                seq![decimal(h.hot_partitions.len() as int) + " hot"@]
            } else {
                Seq::empty()
            };
            let b = if h.partition_gaps.len() > 0 {
                seq![decimal(h.partition_gaps.len() as int) + " gap"@]
            } else {
                Seq::empty()
            };
            let c = if h.kube_hint is Some {
                seq![h.kube_hint->0]
            } else {
                Seq::empty()
            };
            let cells = topic_spans(h, false);
            cells[cells.len() - 1].0 == joined(a + b + c, ", "@)
        }),
{
}

/// The cells of a partition: its topic, its number, its status and its figures.
pub proof fn lemma_partition_cells(p: RowView)
    ensures
        ({
            let cells = partition_spans(p);
            &&& cells.len() == 7
            &&& cells[0].0 == local_name(p.topic)
            &&& cells[1].0 == "p"@ + decimal(p.detail.index)
            &&& cells[2] == (p.detail.status, status_style(p.detail.status))
            &&& cells[3].0 == decimal(p.detail.backlog)
            &&& cells[4].0 == size_text(p.detail.backlog_bytes)
            &&& cells[5].0 == decimal(p.detail.consumers)
            &&& cells[6].0 == decimal(p.detail.unacked_messages)
        }),
{
}

/// The cells of a pod and of a node. A pod that loses rows or runs out of memory is
/// red.
pub proof fn lemma_pod_and_node_cells(p: PodSummary, n: NodeInfo)
    ensures
        ({
            let cells = pod_spans(p);
            &&& cells.len() == 7
            &&& cells[0].0 == p.name@
            &&& cells[1].0 == ready_text(p)
            &&& cells[2].0 == decimal(p.restarts as int)
            &&& cells[3].0 == age_or_dash(p.age_secs)
            &&& cells[4].0 == cpu_usage(p)
            &&& cells[5].0 == mem_usage(p)
            &&& cells[6].0 == state_text(p)
            &&& p.transform_error || p.memory_pressure ==> cells[6].1.fg == Some(Paint::Red)
        }),
        ({
            let cells = node_spans(n);
            &&& cells.len() == 4
            &&& cells[0].0 == n.name@
            &&& n.instance_type is Some ==> cells[1].0 == n.instance_type->0@
            &&& n.alloc_cpu_milli is Some ==> cells[2].0 == cpu_text(n.alloc_cpu_milli->0 as int)
                + " CPU"@
            &&& n.alloc_mem_bytes is Some ==> cells[3].0 == size_text(n.alloc_mem_bytes->0 as int)
                + " alloc"@
        }),
{
}

} // verus!
