//! The metrics of all pods on the interactive screen, and how stable their
//! connections are.

use crate::decimal::{count_text, decimal};
use crate::float::{
    absolute, lemma_integer_exact, lemma_integer_order, negated, of_integer, quotient, ratio, ratio_of, sum,
};
use crate::kube::{MetricLine, PodMetricSummary, PodStabilityLine};
use crate::number::{tenth_text, whole_text, Double, EXPONENT_UNIT};
use crate::screen::{
    alarm, bare, bold, coloured, fill, filled, in_colour, one, plain, push_line, push_lines, span,
    GridRow, Line, LineView, RowLook, Span, SpanView, Style,
};
use crate::table::Paint;
use crate::text::{cat2, cat3, cat4, cat5, cat7, chars_of, copy_of, has, join, joined, last, lemma_rfind_upto, occurs_at, rfind, same, slice_of, text_contains, text_of};
use vstd::prelude::*;

verus! {

// ── One metric ───────────────────────────────────────────────────────────────

/// What follows the last hyphen of a pod's name, which tells the pods of a
/// deployment apart.
pub open spec fn pod_tail(pod: Seq<char>) -> Seq<char> {
    match last(pod, "-"@) {
        Some(i) => pod.skip(i + 1),
        None => pod,
    }
}

/// In the background: dim and grey.
pub open spec fn faded() -> Style {
    Style { dim: true, ..coloured(Paint::DarkGrey) }
}

/// A metric: an alarm where it is over its threshold, yellow where it gets worse
/// or stands still, green where it gets better. What the scrape did not have is
/// shown as missing.
pub open spec fn metric_span(m: MetricLine) -> SpanView {
    if !m.present {
        (m.label@ + "=(no data)"@, faded())
    } else {
        (
            m.label@ + "="@ + whole_text(m.value) + (if m.is_rate {
                "/s"@
            } else {
                ""@
            }) + (if m.changed {
                m.arrow@
            } else {
                ""@
            }),
            if m.breached {
                alarm()
            } else if m.worsening || m.stalled {
                coloured(Paint::Yellow)
            } else if m.improving {
                coloured(Paint::Green)
            } else {
                coloured(Paint::DarkGrey)
            },
        )
    }
}

/// What follows the last hyphen of a pod's name.
pub fn short_pod(pod: &str) -> (r: String)
    ensures
        r@ == pod_tail(pod@),
{
    let v = chars_of(pod);
    let n: usize = v.len();
    match rfind(v.as_slice(), "-") {
        Some(i) => {
            proof {
                reveal_strlit("-");
                assert("-"@.len() == 1);
            }
            let tail = slice_of(v.as_slice(), i + 1, n);
            assert(tail@ =~= v@.skip(i + 1));
            text_of(tail.as_slice())
        },
        None => copy_of(pod),
    }
}

/// In the background.
fn fade() -> (r: Style)
    ensures
        r == faded(),
{
    let mut style = in_colour(Paint::DarkGrey);
    style.dim = true;
    style
}

/// A metric.
pub fn metric_line_span(m: &MetricLine) -> (r: Span)
    ensures
        r.deep_view() == metric_span(*m),
{
    if !m.present {
        return span(crate::text::cat2(m.label.as_str(), "=(no data)"), fade());
    }
    let style = if m.breached {
        alarm()
    } else if m.worsening || m.stalled {
        in_colour(Paint::Yellow)
    } else if m.improving {
        in_colour(Paint::Green)
    } else {
        in_colour(Paint::DarkGrey)
    };
    let unit = if m.is_rate { "/s" } else { "" };
    let arrow = if m.changed { m.arrow.as_str() } else { "" };
    span(cat5(m.label.as_str(), "=", m.value.whole().as_str(), unit, arrow), style)
}

// ── Flow ─────────────────────────────────────────────────────────────────────

/// The value of the first metric whose label has `needle` in it.
pub open spec fn stage(lines: Seq<MetricLine>, needle: Seq<char>) -> Option<Double>
    decreases lines.len(),
{
    if lines.len() == 0 {
        None
    } else if has(lines[0].label@, needle) {
        Some(lines[0].value)
    } else {
        stage(lines.drop_first(), needle)
    }
}

/// Zero.
pub open spec fn zero() -> Double {
    Double { bits: 0 }
}

/// Something goes in, and nothing comes out.
pub open spec fn blocked(a: Option<Double>, b: Option<Double>) -> bool {
    match (a, b) {
        (Some(x), Some(y)) => zero().less(x) && y.zero(),
        _ => false,
    }
}

/// A rate, or `—`.
pub open spec fn rate_or_dash(d: Option<Double>) -> Seq<char> {
    match d {
        Some(x) => whole_text(x),
        None => "—"@,
    }
}

/// The stages of the pipeline of a pod, where one of them is known.
pub open spec fn flow_line(s: PodMetricSummary) -> Seq<LineView> {
    let a = stage(s.lines@, "consumed"@);
    let b = stage(s.lines@, "written"@);
    let c = stage(s.lines@, "sink"@);
    if a is None && b is None && c is None {
        Seq::empty()
    } else {
        seq![
            seq![
                bare("  "@ + filled(pod_tail(s.pod@), 14) + " "@),
                (
                    "consumed "@ + rate_or_dash(a) + "/s → written "@ + rate_or_dash(b)
                        + "/s → sink "@ + rate_or_dash(c) + "/s"@,
                    if blocked(a, b) || blocked(b, c) {
                        coloured(Paint::Yellow)
                    } else {
                        coloured(Paint::DarkGrey)
                    },
                ),
            ],
        ]
    }
}

/// The value of the first metric whose label has `needle` in it.
fn find_stage(lines: &Vec<MetricLine>, needle: &str) -> (r: Option<Double>)
    ensures
        r == stage(lines@, needle@),
{
    assert(lines@.skip(0) =~= lines@);
    for i in 0..lines.len()
        invariant
            stage(lines@, needle@) == stage(lines@.skip(i as int), needle@),
    {
        assert(lines@.skip(i as int)[0] == lines@[i as int]);
        assert(lines@.skip(i as int).drop_first() =~= lines@.skip(i + 1));
        if text_contains(lines[i].label.as_str(), needle) {
            return Some(lines[i].value);
        }
    }
    assert(lines@.skip(lines@.len() as int) =~= Seq::empty());
    None
}

/// Whether something goes in and nothing comes out.
fn is_blocked(a: Option<Double>, b: Option<Double>) -> (r: bool)
    ensures
        r == blocked(a, b),
{
    match (a, b) {
        (Some(x), Some(y)) => (Double { bits: 0 }).is_less(x) && y.is_zero(),
        _ => false,
    }
}

/// A rate, or `—`.
fn rate_text(d: Option<Double>) -> (r: String)
    ensures
        r@ == rate_or_dash(d),
{
    match d {
        Some(x) => x.whole(),
        None => copy_of("—"),
    }
}

/// The stages of the pipeline of a pod.
fn flow_lines(s: &PodMetricSummary) -> (r: Vec<Line>)
    ensures
        r.deep_view() == flow_line(*s),
{
    let a = find_stage(&s.lines, "consumed");
    let b = find_stage(&s.lines, "written");
    let c = find_stage(&s.lines, "sink");
    let mut r: Vec<Line> = Vec::new();
    if a.is_some() || b.is_some() || c.is_some() {
        let style = if is_blocked(a, b) || is_blocked(b, c) {
            in_colour(Paint::Yellow)
        } else {
            in_colour(Paint::DarkGrey)
        };
        let name = fill(short_pod(s.pod.as_str()).as_str(), 14);
        let text = cat7(
            "consumed ",
            rate_text(a).as_str(),
            "/s → written ",
            rate_text(b).as_str(),
            "/s → sink ",
            rate_text(c).as_str(),
            "/s",
        );
        let mut spans: Vec<Span> = Vec::new();
        spans.push(span(cat3("  ", name.as_str(), " "), plain()));
        spans.push(span(text, style));
        let line = Line { spans };
        assert(line.deep_view() =~= flow_line(*s)[0]);
        r.push(line);
    }
    assert(r.deep_view() =~= flow_line(*s));
    r
}

// ── One category ─────────────────────────────────────────────────────────────

/// The metrics of one pod in one category.
#[derive(Debug)]
pub struct CategoryRow<'a> {
    /// The pod, in short.
    pub pod: String,
    pub lines: Vec<&'a MetricLine>,
    /// One of them is over its threshold.
    pub breach: bool,
}

/// The metrics of one pod in one category, as a model.
#[verifier::ext_equal]
pub struct CategoryView {
    pub pod: Seq<char>,
    pub lines: Seq<MetricLine>,
    pub breach: bool,
}

impl<'a> DeepView for CategoryRow<'a> {
    type V = CategoryView;

    open spec fn deep_view(&self) -> CategoryView {
        CategoryView {
            pod: self.pod@,
            lines: values(self.lines@),
            breach: self.breach,
        }
    }
}

/// What the references point to.
pub open spec fn values(list: Seq<&MetricLine>) -> Seq<MetricLine> {
    Seq::new(list.len(), |i: int| *list[i])
}

/// What the references point to.
pub open spec fn pointed(list: Seq<&PodMetricSummary>) -> Seq<PodMetricSummary> {
    Seq::new(list.len(), |i: int| *list[i])
}

/// The metrics of a category.
pub open spec fn in_category(lines: Seq<MetricLine>, category: Seq<char>) -> Seq<MetricLine>
    decreases lines.len(),
{
    if lines.len() == 0 {
        Seq::empty()
    } else {
        let rest = in_category(lines.drop_last(), category);
        if lines.last().category@ == category {
            rest.push(lines.last())
        } else {
            rest
        }
    }
}

/// A metric is over its threshold.
pub open spec fn any_breach(lines: Seq<MetricLine>) -> bool {
    exists|i: int| 0 <= i < lines.len() && (#[trigger] lines[i]).breached
}

/// The pods that have metrics of the category.
pub open spec fn category_rows(list: Seq<PodMetricSummary>, category: Seq<char>) -> Seq<
    CategoryView,
>
    decreases list.len(),
{
    if list.len() == 0 {
        Seq::empty()
    } else {
        let rest = category_rows(list.drop_last(), category);
        let lines = in_category(list.last().lines@, category);
        if lines.len() == 0 {
            rest
        } else {
            rest.push(
                CategoryView { pod: pod_tail(list.last().pod@), lines, breach: any_breach(lines) },
            )
        }
    }
}

/// The first metric with that label.
pub open spec fn labelled(lines: Seq<MetricLine>, label: Seq<char>) -> Option<MetricLine>
    decreases lines.len(),
{
    if lines.len() == 0 {
        None
    } else if lines[0].label@ == label {
        Some(lines[0])
    } else {
        labelled(lines.drop_first(), label)
    }
}

/// The values differ by less than the distance from one to the next double.
pub open spec fn close(a: Double, b: Double) -> bool {
    absolute(sum(a, negated(b))).less(ratio(1, EXPONENT_UNIT as int))
}

/// Two metrics say the same, and neither calls for attention.
pub open spec fn alike(a: MetricLine, b: MetricLine) -> bool {
    close(a.value, b.value) && a.present == b.present && !a.breached && !a.worsening && !a.stalled
}

/// Every pod has the metric, and it says the same everywhere.
pub open spec fn uniform(rows: Seq<CategoryView>, label: Seq<char>) -> bool {
    rows.len() > 0 && labelled(rows[0].lines, label) is Some && forall|i: int|
        0 <= i < rows.len() ==> match labelled((#[trigger] rows[i]).lines, label) {
            Some(m) => alike(m, labelled(rows[0].lines, label)->0),
            None => false,
        }
}

/// The labels of the metrics that say the same everywhere.
pub open spec fn uniform_labels(rows: Seq<CategoryView>, lines: Seq<MetricLine>) -> Seq<Seq<char>>
    decreases lines.len(),
{
    if lines.len() == 0 {
        Seq::empty()
    } else {
        let rest = uniform_labels(rows, lines.drop_last());
        if uniform(rows, lines.last().label@) {
            rest.push(lines.last().label@)
        } else {
            rest
        }
    }
}

/// One line for all pods.
pub open spec fn shared_line(rows: Seq<CategoryView>, label: Seq<char>) -> LineView {
    seq![
        bare("  "@),
        metric_span(labelled(rows[0].lines, label)->0),
        (
            "  (all "@ + decimal(rows.len() as int) + " pods)"@,
            coloured(Paint::DarkGrey),
        ),
    ]
}

/// One line for each metric that says the same everywhere.
pub open spec fn shared_lines(rows: Seq<CategoryView>, labels: Seq<Seq<char>>) -> Seq<LineView> {
    Seq::new(labels.len(), |i: int| shared_line(rows, labels[i]))
}

/// The metrics whose label is not among `labels`.
pub open spec fn others(lines: Seq<MetricLine>, labels: Seq<Seq<char>>) -> Seq<MetricLine>
    decreases lines.len(),
{
    if lines.len() == 0 {
        Seq::empty()
    } else {
        let rest = others(lines.drop_last(), labels);
        if labels.contains(lines.last().label@) {
            rest
        } else {
            rest.push(lines.last())
        }
    }
}

/// Metrics one after the other, with a gap between them.
pub open spec fn spaced(lines: Seq<MetricLine>) -> Seq<SpanView>
    decreases lines.len(),
{
    if lines.len() == 0 {
        Seq::empty()
    } else if lines.len() == 1 {
        seq![metric_span(lines[0])]
    } else {
        spaced(lines.drop_last()).push(bare("  "@)).push(metric_span(lines.last()))
    }
}

/// The line of a pod.
pub open spec fn own_line(row: CategoryView, labels: Seq<Seq<char>>) -> LineView {
    seq![bare("  "@ + filled(row.pod, 14) + " "@)] + spaced(others(row.lines, labels))
}

/// The lines of the pods with a breach, or of those without one.
pub open spec fn own_lines(rows: Seq<CategoryView>, labels: Seq<Seq<char>>, breach: bool) -> Seq<
    LineView,
>
    decreases rows.len(),
{
    if rows.len() == 0 {
        Seq::empty()
    } else {
        let rest = own_lines(rows.drop_last(), labels, breach);
        let row = rows.last();
        if row.breach == breach && others(row.lines, labels).len() > 0 {
            rest.push(own_line(row, labels))
        } else {
            rest
        }
    }
}

/// A category: what is the same everywhere, then the pods, those with a breach
/// first.
pub open spec fn category_lines(list: Seq<PodMetricSummary>, category: Seq<char>) -> Seq<LineView> {
    let rows = category_rows(list, category);
    if rows.len() == 0 {
        Seq::empty()
    } else {
        let labels = uniform_labels(rows, rows[0].lines);
        seq![one("── "@ + category + " ──"@, bold())] + shared_lines(rows, labels) + own_lines(
            rows,
            labels,
            true,
        ) + own_lines(rows, labels, false) + seq![one(""@, plain())]
    }
}

/// The metrics of a category.
fn pick_category<'a>(lines: &'a Vec<MetricLine>, category: &str) -> (r: Vec<&'a MetricLine>)
    ensures
        values(r@) == in_category(lines@, category@),
{
    let mut r: Vec<&'a MetricLine> = Vec::new();
    assert(values(r@) =~= Seq::empty());
    for i in 0..lines.len()
        invariant
            values(r@) == in_category(lines@.take(i as int), category@),
    {
        let ghost before = values(r@);
        assert(lines@.take(i + 1).drop_last() =~= lines@.take(i as int));
        assert(lines@.take(i + 1).last() == lines@[i as int]);
        if same(lines[i].category.as_str(), category) {
            r.push(&lines[i]);
            assert(values(r@) =~= before.push(lines@[i as int]));
        }
    }
    assert(lines@.take(lines@.len() as int) =~= lines@);
    r
}

/// Whether a metric is over its threshold.
fn has_breach(lines: &Vec<&MetricLine>) -> (r: bool)
    ensures
        r == any_breach(values(lines@)),
{
    let ghost all = values(lines@);
    for i in 0..lines.len()
        invariant
            all == values(lines@),
            forall|j: int| 0 <= j < i ==> !(#[trigger] all[j]).breached,
    {
        assert(all[i as int] == *lines@[i as int]);
        if lines[i].breached {
            return true;
        }
    }
    false
}

/// The pods that have metrics of the category.
fn collect_rows<'a>(list: &Vec<&'a PodMetricSummary>, category: &str) -> (r: Vec<CategoryRow<'a>>)
    ensures
        r.deep_view() == category_rows(pointed(list@), category@),
{
    let ghost all = pointed(list@);
    let mut r: Vec<CategoryRow<'a>> = Vec::new();
    assert(r.deep_view() =~= Seq::empty());
    for i in 0..list.len()
        invariant
            all == pointed(list@),
            r.deep_view() == category_rows(all.take(i as int), category@),
    {
        let ghost before = r.deep_view();
        assert(all.take(i + 1).drop_last() =~= all.take(i as int));
        assert(all.take(i + 1).last() == *list@[i as int]);
        let s: &'a PodMetricSummary = list[i];
        let lines = pick_category(&s.lines, category);
        if lines.len() > 0 {
            let breach = has_breach(&lines);
            let row = CategoryRow { pod: short_pod(s.pod.as_str()), lines, breach };
            let ghost added = row.deep_view();
            r.push(row);
            assert(r.deep_view() =~= before.push(added));
        }
    }
    assert(all.take(all.len() as int) =~= all);
    r
}

/// The first metric with that label.
fn find_labelled<'a>(lines: &Vec<&'a MetricLine>, label: &str) -> (r: Option<&'a MetricLine>)
    ensures
        match r {
            Some(m) => labelled(values(lines@), label@) == Some(*m),
            None => labelled(values(lines@), label@) is None,
        },
{
    let ghost all = values(lines@);
    assert(all.skip(0) =~= all);
    for i in 0..lines.len()
        invariant
            all == values(lines@),
            labelled(all, label@) == labelled(all.skip(i as int), label@),
    {
        assert(all.skip(i as int)[0] == *lines@[i as int]);
        assert(all.skip(i as int).drop_first() =~= all.skip(i + 1));
        if same(lines[i].label.as_str(), label) {
            return Some(lines[i]);
        }
    }
    assert(all.skip(all.len() as int) =~= Seq::empty());
    None
}

/// Whether two metrics say the same, and neither calls for attention.
fn are_alike(a: &MetricLine, b: &MetricLine) -> (r: bool)
    ensures
        r == alike(*a, *b),
{
    a.value.minus(b.value).abs().is_less(ratio_of(1, EXPONENT_UNIT)) && a.present == b.present
        && !a.breached && !a.worsening && !a.stalled
}

/// Whether every pod has the metric and it says the same everywhere.
fn is_uniform(rows: &Vec<CategoryRow>, label: &str) -> (r: bool)
    ensures
        r == uniform(rows.deep_view(), label@),
{
    let ghost all = rows.deep_view();
    if rows.len() == 0 {
        return false;
    }
    assert(all[0] == rows@[0].deep_view());
    let first = match find_labelled(&rows[0].lines, label) {
        Some(m) => m,
        None => return false,
    };
    for i in 0..rows.len()
        invariant
            all == rows.deep_view(),
            all.len() > 0,
            labelled(all[0].lines, label@) == Some(*first),
            forall|j: int|
                0 <= j < i ==> match labelled((#[trigger] all[j]).lines, label@) {
                    Some(m) => alike(m, *first),
                    None => false,
                },
    {
        assert(all[i as int] == rows@[i as int].deep_view());
        match find_labelled(&rows[i].lines, label) {
            Some(m) => {
                if !are_alike(m, first) {
                    return false;
                }
            },
            None => return false,
        }
    }
    true
}

/// The labels of the metrics that say the same everywhere.
fn find_uniform(rows: &Vec<CategoryRow>) -> (r: Vec<String>)
    requires
        rows@.len() > 0,
    ensures
        r.deep_view() == uniform_labels(rows.deep_view(), rows.deep_view()[0].lines),
{
    let ghost all = rows.deep_view();
    let ghost lines = all[0].lines;
    let mut r: Vec<String> = Vec::new();
    assert(r.deep_view() =~= Seq::empty());
    assert(all[0] == rows@[0].deep_view());
    let n: usize = rows[0].lines.len();
    for i in 0..n
        invariant
            all == rows.deep_view(),
            all.len() > 0,
            rows@.len() > 0,
            n == rows@[0].lines@.len(),
            lines == all[0].lines,
            lines == values(rows@[0].lines@),
            r.deep_view() == uniform_labels(all, lines.take(i as int)),
    {
        let ghost before = r.deep_view();
        assert(lines.take(i + 1).drop_last() =~= lines.take(i as int));
        assert(lines.take(i + 1).last() == *rows@[0].lines@[i as int]);
        let label = rows[0].lines[i].label.as_str();
        if is_uniform(rows, label) {
            r.push(copy_of(label));
            assert(r.deep_view() =~= before.push(label@));
        }
    }
    assert(lines.take(lines.len() as int) =~= lines);
    r
}

/// A label among those that say the same everywhere is the label of a metric of
/// the first pod.
proof fn lemma_uniform_labels(rows: Seq<CategoryView>, lines: Seq<MetricLine>)
    ensures
        forall|i: int|
            0 <= i < uniform_labels(rows, lines).len() ==> uniform(
                rows,
                #[trigger] uniform_labels(rows, lines)[i],
            ),
    decreases lines.len(),
{
    if lines.len() > 0 {
        let rest = uniform_labels(rows, lines.drop_last());
        lemma_uniform_labels(rows, lines.drop_last());
        assert forall|i: int| 0 <= i < uniform_labels(rows, lines).len() implies uniform(
            rows,
            #[trigger] uniform_labels(rows, lines)[i],
        ) by {
            if i < rest.len() {
                assert(uniform(rows, rest[i]));
            }
        }
    }
}

/// One line for each metric that says the same everywhere.
fn shared(rows: &Vec<CategoryRow>, labels: &Vec<String>) -> (r: Vec<Line>)
    requires
        rows@.len() > 0,
        labels.deep_view() == uniform_labels(rows.deep_view(), rows.deep_view()[0].lines),
    ensures
        r.deep_view() == shared_lines(rows.deep_view(), labels.deep_view()),
{
    let ghost all = rows.deep_view();
    let mut r: Vec<Line> = Vec::new();
    let many = cat3("  (all ", count_text(rows.len()).as_str(), " pods)");
    proof {
        lemma_uniform_labels(all, all[0].lines);
        assert(all[0] == rows@[0].deep_view());
    }
    for i in 0..labels.len()
        invariant
            all == rows.deep_view(),
            rows@.len() > 0,
            all[0] == rows@[0].deep_view(),
            many@ == "  (all "@ + decimal(rows@.len() as int) + " pods)"@,
            labels.deep_view() == uniform_labels(all, all[0].lines),
            forall|i: int|
                0 <= i < labels@.len() ==> uniform(all, #[trigger] labels.deep_view()[i]),
            r@.len() == i,
            forall|j: int|
                0 <= j < i ==> (#[trigger] r@[j]).deep_view() == shared_line(
                    all,
                    labels.deep_view()[j],
                ),
    {
        let label = labels[i].as_str();
        assert(labels.deep_view()[i as int] == label@);
        assert(uniform(all, labels.deep_view()[i as int]));
        if let Some(m) = find_labelled(&rows[0].lines, label) {
            let mut spans: Vec<Span> = Vec::new();
            spans.push(span(copy_of("  "), plain()));
            spans.push(metric_line_span(m));
            spans.push(span(copy_of(many.as_str()), in_colour(Paint::DarkGrey)));
            let line = Line { spans };
            assert(line.deep_view() =~= shared_line(all, label@));
            r.push(line);
        }
    }
    assert(r.deep_view() =~= shared_lines(all, labels.deep_view()));
    r
}

/// Whether the list has the label.
fn lists_label(labels: &Vec<String>, label: &str) -> (r: bool)
    ensures
        r == labels.deep_view().contains(label@),
{
    let ghost all = labels.deep_view();
    for i in 0..labels.len()
        invariant
            all == labels.deep_view(),
            forall|j: int| 0 <= j < i ==> #[trigger] all[j] != label@,
    {
        assert(all[i as int] == labels@[i as int]@);
        if same(labels[i].as_str(), label) {
            return true;
        }
    }
    false
}

/// The metrics whose label is not among `labels`.
fn pick_others<'a>(lines: &Vec<&'a MetricLine>, labels: &Vec<String>) -> (r: Vec<&'a MetricLine>)
    ensures
        values(r@) == others(values(lines@), labels.deep_view()),
{
    let ghost all = values(lines@);
    let mut r: Vec<&'a MetricLine> = Vec::new();
    assert(values(r@) =~= Seq::empty());
    for i in 0..lines.len()
        invariant
            all == values(lines@),
            values(r@) == others(all.take(i as int), labels.deep_view()),
    {
        let ghost before = values(r@);
        assert(all.take(i + 1).drop_last() =~= all.take(i as int));
        assert(all.take(i + 1).last() == *lines@[i as int]);
        let m: &'a MetricLine = lines[i];
        if !lists_label(labels, m.label.as_str()) {
            r.push(m);
            assert(values(r@) =~= before.push(*m));
        }
    }
    assert(all.take(all.len() as int) =~= all);
    r
}

/// The line of a pod.
fn pod_line(pod: &str, shown: &Vec<&MetricLine>) -> (r: Line)
    ensures
        r.deep_view() == seq![bare("  "@ + filled(pod@, 14) + " "@)] + spaced(values(shown@)),
{
    let ghost all = values(shown@);
    let mut spans: Vec<Span> = Vec::new();
    let name = fill(pod, 14);
    let ghost head = seq![bare("  "@ + filled(pod@, 14) + " "@)];
    spans.push(span(cat3("  ", name.as_str(), " "), plain()));
    assert(spans.deep_view() =~= head + spaced(all.take(0)));
    for i in 0..shown.len()
        invariant
            all == values(shown@),
            head == seq![bare("  "@ + filled(pod@, 14) + " "@)],
            spans.deep_view() == head + spaced(all.take(i as int)),
    {
        let ghost before = spans.deep_view();
        let next = metric_line_span(shown[i]);
        let ghost added = next.deep_view();
        proof {
            assert(all.take(i + 1).drop_last() =~= all.take(i as int));
            assert(all.take(i + 1).last() == *shown@[i as int]);
            assert(all.take(i + 1)[0] == all[0]);
        }
        if i > 0 {
            spans.push(span(copy_of("  "), plain()));
            spans.push(next);
            assert(spans.deep_view() =~= before.push(bare("  "@)).push(added));
            assert(spans.deep_view() =~= head + spaced(all.take(i + 1)));
        } else {
            spans.push(next);
            assert(before =~= head);
            assert(spans.deep_view() =~= head + seq![added]);
        }
    }
    assert(all.take(all.len() as int) =~= all);
    Line { spans }
}

/// The lines of the pods with a breach, or of those without one.
fn pod_lines(rows: &Vec<CategoryRow>, labels: &Vec<String>, breach: bool) -> (r: Vec<Line>)
    ensures
        r.deep_view() == own_lines(rows.deep_view(), labels.deep_view(), breach),
{
    let ghost all = rows.deep_view();
    let mut r: Vec<Line> = Vec::new();
    assert(r.deep_view() =~= Seq::empty());
    for i in 0..rows.len()
        invariant
            all == rows.deep_view(),
            r.deep_view() == own_lines(all.take(i as int), labels.deep_view(), breach),
    {
        let ghost before = r.deep_view();
        assert(all.take(i + 1).drop_last() =~= all.take(i as int));
        assert(all.take(i + 1).last() == rows@[i as int].deep_view());
        let row = &rows[i];
        let shown = pick_others(&row.lines, labels);
        if row.breach == breach && shown.len() > 0 {
            let line = pod_line(row.pod.as_str(), &shown);
            let ghost added = line.deep_view();
            assert(added == own_line(row.deep_view(), labels.deep_view()));
            r.push(line);
            assert(r.deep_view() =~= before.push(added));
        }
    }
    assert(all.take(all.len() as int) =~= all);
    r
}

/// A category.
fn one_category(list: &Vec<&PodMetricSummary>, category: &str) -> (r: Vec<Line>)
    ensures
        r.deep_view() == category_lines(pointed(list@), category@),
{
    let rows = collect_rows(list, category);
    let mut r: Vec<Line> = Vec::new();
    assert(r.deep_view() =~= Seq::empty());
    if rows.len() == 0 {
        return r;
    }
    let labels = find_uniform(&rows);
    push_line(&mut r, cat3("── ", category, " ──"), bold());
    assert(r.deep_view() =~= seq![one("── "@ + category@ + " ──"@, bold())]);
    push_lines(&mut r, shared(&rows, &labels));
    push_lines(&mut r, pod_lines(&rows, &labels, true));
    push_lines(&mut r, pod_lines(&rows, &labels, false));
    let ghost before = r.deep_view();
    push_line(&mut r, copy_of(""), plain());
    assert(r.deep_view() =~= before + seq![one(""@, plain())]);
    r
}

// ── All pods ─────────────────────────────────────────────────────────────────

/// The scrape had a sample of one of the pod's metrics.
pub open spec fn was_scraped(s: PodMetricSummary) -> bool {
    exists|i: int| 0 <= i < s.lines@.len() && (#[trigger] s.lines@[i]).present
}

/// The pods that were scraped.
pub open spec fn scraped(list: Seq<PodMetricSummary>) -> Seq<PodMetricSummary>
    decreases list.len(),
{
    if list.len() == 0 {
        Seq::empty()
    } else if was_scraped(list.last()) {
        scraped(list.drop_last()).push(list.last())
    } else {
        scraped(list.drop_last())
    }
}

/// The names of the pods that were not scraped, in short.
pub open spec fn missed(list: Seq<PodMetricSummary>) -> Seq<Seq<char>>
    decreases list.len(),
{
    if list.len() == 0 {
        Seq::empty()
    } else if was_scraped(list.last()) {
        missed(list.drop_last())
    } else {
        missed(list.drop_last()).push(pod_tail(list.last().pod@))
    }
}

/// The line on the pods that were not scraped.
pub open spec fn missed_lines(names: Seq<Seq<char>>) -> Seq<LineView> {
    if names.len() == 0 {
        Seq::empty()
    } else {
        seq![
            one(
                "not scraped this cycle ("@ + decimal(names.len() as int) + "): "@ + joined(
                    names,
                    ", "@,
                ),
                faded(),
            ),
            one(""@, plain()),
        ]
    }
}

/// The pipelines of the pods.
pub open spec fn flows(list: Seq<PodMetricSummary>) -> Seq<LineView>
    decreases list.len(),
{
    if list.len() == 0 {
        Seq::empty()
    } else {
        flows(list.drop_last()) + flow_line(list.last())
    }
}

/// The metrics of all pods: who was missed, the pipelines, then the categories.
pub open spec fn fleet_lines(list: Seq<PodMetricSummary>) -> Seq<LineView> {
    let known = scraped(list);
    missed_lines(missed(list)) + seq![one("── flow (per pod) ──"@, bold())] + flows(known) + seq![
        one(""@, plain()),
    ] + category_lines(known, "consumer"@) + category_lines(known, "throughput"@) + category_lines(
        known,
        "bottleneck"@,
    ) + category_lines(known, "health"@)
}

/// Whether the scrape had a sample of one of the pod's metrics.
fn is_scraped(s: &PodMetricSummary) -> (r: bool)
    ensures
        r == was_scraped(*s),
{
    for i in 0..s.lines.len()
        invariant
            forall|j: int| 0 <= j < i ==> !(#[trigger] s.lines@[j]).present,
    {
        if s.lines[i].present {
            assert(s.lines@[i as int].present);
            return true;
        }
    }
    false
}

/// The pods that were scraped, and the names of those that were not.
fn part<'a>(list: &'a Vec<PodMetricSummary>) -> (r: (Vec<&'a PodMetricSummary>, Vec<String>))
    ensures
        pointed(r.0@) == scraped(list@),
        r.1.deep_view() == missed(list@),
{
    let mut known: Vec<&'a PodMetricSummary> = Vec::new();
    let mut names: Vec<String> = Vec::new();
    assert(names.deep_view() =~= Seq::empty());
    assert(pointed(known@) =~= Seq::empty());
    for i in 0..list.len()
        invariant
            pointed(known@) == scraped(list@.take(i as int)),
            names.deep_view() == missed(list@.take(i as int)),
    {
        let ghost before = names.deep_view();
        assert(list@.take(i + 1).drop_last() =~= list@.take(i as int));
        assert(list@.take(i + 1).last() == list@[i as int]);
        let s: &'a PodMetricSummary = &list[i];
        if is_scraped(s) {
            let ghost had = pointed(known@);
            known.push(s);
            assert(pointed(known@) =~= had.push(*s));
        } else {
            names.push(short_pod(s.pod.as_str()));
            assert(names.deep_view() =~= before.push(pod_tail(s.pod@)));
        }
    }
    assert(list@.take(list@.len() as int) =~= list@);
    (known, names)
}

/// The pipelines of the pods.
fn all_flows(list: &Vec<&PodMetricSummary>) -> (r: Vec<Line>)
    ensures
        r.deep_view() == flows(pointed(list@)),
{
    let ghost all = pointed(list@);
    let mut r: Vec<Line> = Vec::new();
    assert(r.deep_view() =~= Seq::empty());
    for i in 0..list.len()
        invariant
            all == pointed(list@),
            r.deep_view() == flows(all.take(i as int)),
    {
        assert(all.take(i + 1).drop_last() =~= all.take(i as int));
        assert(all.take(i + 1).last() == *list@[i as int]);
        push_lines(&mut r, flow_lines(list[i]));
    }
    assert(all.take(all.len() as int) =~= all);
    r
}

/// The metrics of all pods.
pub fn metrics_lines(list: &Vec<PodMetricSummary>) -> (r: Vec<Line>)
    ensures
        r.deep_view() == fleet_lines(list@),
{
    let (known, names) = part(list);
    let mut r: Vec<Line> = Vec::new();
    if names.len() > 0 {
        let text = cat4(
            "not scraped this cycle (",
            count_text(names.len()).as_str(),
            "): ",
            join(&names, ", ").as_str(),
        );
        push_line(&mut r, text, fade());
        push_line(&mut r, copy_of(""), plain());
    }
    assert(r.deep_view() =~= missed_lines(missed(list@)));
    let ghost a = r.deep_view();
    push_line(&mut r, copy_of("── flow (per pod) ──"), bold());
    assert(r.deep_view() =~= a + seq![one("── flow (per pod) ──"@, bold())]);
    push_lines(&mut r, all_flows(&known));
    let ghost b = r.deep_view();
    push_line(&mut r, copy_of(""), plain());
    assert(r.deep_view() =~= b + seq![one(""@, plain())]);
    push_lines(&mut r, one_category(&known, "consumer"));
    push_lines(&mut r, one_category(&known, "throughput"));
    push_lines(&mut r, one_category(&known, "bottleneck"));
    push_lines(&mut r, one_category(&known, "health"));
    r
}

/// The first line that is shown: the one scrolled to, but not so far that the end
/// of the text leaves the pane.
pub open spec fn scroll_offset(scroll: int, total: int, height: int) -> int {
    let most = if total > height {
        total - height
    } else {
        0
    };
    if scroll < most {
        scroll
    } else {
        most
    }
}

/// The title of the metrics: which lines are shown, where not all are.
pub open spec fn scroll_title(scroll: int, total: int, height: int) -> Seq<char> {
    let offset = scroll_offset(scroll, total, height);
    if total > height {
        "fleet metrics  ["@ + decimal(offset + 1) + "–"@ + decimal(
            if offset + height < total {
                offset + height
            } else {
                total
            },
        ) + "/"@ + decimal(total) + "  ↑/↓ PgUp/PgDn]"@
    } else {
        "fleet metrics"@
    }
}

/// The first line that is shown, and the title, for a text of `total` lines in a
/// pane of `height` lines.
pub fn metrics_scroll(scroll: u16, total: usize, height: u16) -> (r: (usize, String))
    ensures
        r.0 == scroll_offset(scroll as int, total as int, height as int),
        r.1@ == scroll_title(scroll as int, total as int, height as int),
{
    let h: usize = height as usize;
    let most: usize = if total > h { total - h } else { 0 };
    let offset: usize = if (scroll as usize) < most { scroll as usize } else { most };
    let title = if total > h {
        let end: usize = if offset + h < total { offset + h } else { total };
        cat7(
            "fleet metrics  [",
            count_text(offset + 1).as_str(),
            "–",
            count_text(end).as_str(),
            "/",
            count_text(total).as_str(),
            "  ↑/↓ PgUp/PgDn]",
        )
    } else {
        copy_of("fleet metrics")
    };
    (offset, title)
}

// ── The metrics of one pod ───────────────────────────────────────────────────

/// A category of one pod.
pub open spec fn pod_category(lines: Seq<MetricLine>, category: Seq<char>) -> Seq<LineView> {
    let own = in_category(lines, category);
    if own.len() == 0 {
        Seq::empty()
    } else {
        seq![one("── "@ + category + " ──"@, bold())] + Seq::new(
            own.len(),
            |i: int| seq![bare("  "@), metric_span(own[i])],
        )
    }
}

/// The metrics of one pod.
pub open spec fn pod_metrics(s: PodMetricSummary) -> Seq<LineView> {
    (match s.health {
        Some(h) => seq![one("health: "@ + h@, plain()), one(""@, plain())],
        None => Seq::empty(),
    }) + pod_category(s.lines@, "consumer"@) + pod_category(s.lines@, "throughput"@) + pod_category(
        s.lines@,
        "bottleneck"@,
    ) + pod_category(s.lines@, "health"@)
}

/// A category of one pod.
fn pod_category_lines(lines: &Vec<MetricLine>, category: &str) -> (r: Vec<Line>)
    ensures
        r.deep_view() == pod_category(lines@, category@),
{
    let own = pick_category(lines, category);
    let ghost all = values(own@);
    let mut r: Vec<Line> = Vec::new();
    assert(r.deep_view() =~= Seq::empty());
    if own.len() == 0 {
        return r;
    }
    let ghost head = one("── "@ + category@ + " ──"@, bold());
    push_line(&mut r, cat3("── ", category, " ──"), bold());
    assert(r.deep_view() =~= seq![head]);
    assert(r@.len() == r.deep_view().len());
    assert(r@[0].deep_view() == r.deep_view()[0]);
    for i in 0..own.len()
        invariant
            all == values(own@),
            r@.len() == i + 1,
            r@[0].deep_view() == head,
            forall|j: int|
                0 <= j < i ==> (#[trigger] r@[j + 1]).deep_view() == seq![
                    bare("  "@),
                    metric_span(all[j]),
                ],
    {
        let mut spans: Vec<Span> = Vec::new();
        spans.push(span(copy_of("  "), plain()));
        spans.push(metric_line_span(own[i]));
        let line = Line { spans };
        assert(line.deep_view() =~= seq![bare("  "@), metric_span(all[i as int])]);
        let ghost before = r@;
        r.push(line);
        assert forall|j: int| 0 <= j < i + 1 implies (#[trigger] r@[j + 1]).deep_view() == seq![
            bare("  "@),
            metric_span(all[j]),
        ] by {
            if j < i {
                assert(r@[j + 1] == before[j + 1]);
            }
        }
    }
    proof {
        let want = pod_category(lines@, category@);
        assert(r.deep_view().len() == want.len());
        assert forall|k: int| 0 <= k < want.len() implies r.deep_view()[k] == want[k] by {
            if k > 0 {
                assert(r@[(k - 1) + 1].deep_view() == seq![bare("  "@), metric_span(all[k - 1])]);
            }
        }
        assert(r.deep_view() =~= want);
    }
    r
}

/// The metrics of one pod.
pub fn pod_metrics_lines(s: &PodMetricSummary) -> (r: Vec<Line>)
    ensures
        r.deep_view() == pod_metrics(*s),
{
    let mut r: Vec<Line> = Vec::new();
    if let Some(h) = &s.health {
        push_line(&mut r, crate::text::cat2("health: ", h.as_str()), plain());
        push_line(&mut r, copy_of(""), plain());
    }
    assert(r.deep_view() =~= match s.health {
        Some(h) => seq![one("health: "@ + h@, plain()), one(""@, plain())],
        None => Seq::empty(),
    });
    push_lines(&mut r, pod_category_lines(&s.lines, "consumer"));
    push_lines(&mut r, pod_category_lines(&s.lines, "throughput"));
    push_lines(&mut r, pod_category_lines(&s.lines, "bottleneck"));
    push_lines(&mut r, pod_category_lines(&s.lines, "health"));
    r
}

// ── Stability ────────────────────────────────────────────────────────────────

/// The connections of the pod come and go.
pub open spec fn flapping(s: PodStabilityLine) -> bool {
    s.flapping_rate || s.flapping_rebalance || s.idle_cull_loop
}

/// What keeps the connections of a pod from being stable.
pub open spec fn flap_text(s: PodStabilityLine) -> Seq<char> {
    if s.flapping_rate && s.flapping_rebalance {
        "FLAPPING (reconnect + rebalance)"@
    } else if s.flapping_rate {
        "FLAPPING (reconnect churn)"@
    } else if s.flapping_rebalance {
        "FLAPPING (rebalance churn)"@
    } else {
        "stable"@
    }
}

/// What is wrong with the connections of a pod.
pub open spec fn verdict_text(s: PodStabilityLine) -> Seq<char> {
    if !s.idle_cull_loop {
        flap_text(s)
    } else if s.flapping_rate || s.flapping_rebalance {
        flap_text(s) + " — idle-cull loop"@
    } else {
        "idle-cull loop"@
    }
}

/// After how much idling a consumer is culled, where that is known.
pub open spec fn limit_text(secs: Double) -> Seq<char> {
    if secs.equals(of_integer(0)) {
        "—"@
    } else {
        whole_text(secs) + "s"@
    }
}

/// The titles above the rows.
pub open spec fn stability_columns() -> Seq<Seq<char>> {
    seq![
        "POD"@,
        "RECONNECT/s"@,
        "THROTTLE-TRANS/s"@,
        "ACTIVE-PARTS"@,
        "CHURN"@,
        "IDLE-CULL/s"@,
        "CULL-AFTER"@,
        "VERDICT"@,
    ]
}

/// The row of a pod.
pub open spec fn stability_row(s: PodStabilityLine) -> RowLook {
    RowLook {
        cells: seq![
            bare(pod_tail(s.pod@)),
            bare(tenth_text(s.reconnect_rate)),
            bare(tenth_text(s.throttle_transition_rate)),
            bare(whole_text(s.active_parts)),
            bare(whole_text(s.active_parts_churn)),
            bare(tenth_text(s.idle_cull_rate)),
            bare(limit_text(s.idle_cull_threshold_secs)),
            bare(verdict_text(s)),
        ],
        style: if flapping(s) {
            coloured(Paint::Yellow)
        } else {
            coloured(Paint::DarkGrey)
        },
    }
}

/// The rows of the pods that flap, or of those that do not.
pub open spec fn stability_part(list: Seq<PodStabilityLine>, unstable: bool) -> Seq<RowLook>
    decreases list.len(),
{
    if list.len() == 0 {
        Seq::empty()
    } else if flapping(list.last()) == unstable {
        stability_part(list.drop_last(), unstable).push(stability_row(list.last()))
    } else {
        stability_part(list.drop_last(), unstable)
    }
}

/// What keeps the connections of a pod from being stable.
fn flaps(s: &PodStabilityLine) -> (r: &'static str)
    ensures
        r@ == flap_text(*s),
{
    if s.flapping_rate && s.flapping_rebalance {
        "FLAPPING (reconnect + rebalance)"
    } else if s.flapping_rate {
        "FLAPPING (reconnect churn)"
    } else if s.flapping_rebalance {
        "FLAPPING (rebalance churn)"
    } else {
        "stable"
    }
}

/// What is wrong with the connections of a pod.
fn verdict(s: &PodStabilityLine) -> (r: String)
    ensures
        r@ == verdict_text(*s),
{
    if !s.idle_cull_loop {
        copy_of(flaps(s))
    } else if s.flapping_rate || s.flapping_rebalance {
        cat2(flaps(s), " — idle-cull loop")
    } else {
        copy_of("idle-cull loop")
    }
}

/// After how much idling a consumer is culled, where that is known.
fn limit_of(secs: Double) -> (r: String)
    ensures
        r@ == limit_text(secs),
{
    if secs.is_equal(Double::from_u64(0)) {
        copy_of("—")
    } else {
        cat2(secs.whole().as_str(), "s")
    }
}

/// The titles above the rows.
pub fn stability_titles() -> (r: Vec<&'static str>)
    ensures
        Seq::new(r@.len(), |i: int| r@[i]@) == stability_columns(),
{
    let r: Vec<&'static str> = vec![
        "POD",
        "RECONNECT/s",
        "THROTTLE-TRANS/s",
        "ACTIVE-PARTS",
        "CHURN",
        "IDLE-CULL/s",
        "CULL-AFTER",
        "VERDICT",
    ];
    assert(Seq::new(r@.len(), |i: int| r@[i]@) =~= stability_columns());
    r
}

/// The row of a pod.
fn stability_cells(s: &PodStabilityLine) -> (r: GridRow)
    ensures
        r.deep_view() == stability_row(*s),
{
    let mut cells: Vec<Span> = Vec::new();
    cells.push(span(short_pod(s.pod.as_str()), plain()));
    cells.push(span(s.reconnect_rate.tenth(), plain()));
    cells.push(span(s.throttle_transition_rate.tenth(), plain()));
    cells.push(span(s.active_parts.whole(), plain()));
    cells.push(span(s.active_parts_churn.whole(), plain()));
    cells.push(span(s.idle_cull_rate.tenth(), plain()));
    cells.push(span(limit_of(s.idle_cull_threshold_secs), plain()));
    cells.push(span(verdict(s), plain()));
    let style = if s.flapping_rate || s.flapping_rebalance || s.idle_cull_loop {
        in_colour(Paint::Yellow)
    } else {
        in_colour(Paint::DarkGrey)
    };
    let r = GridRow { cells, style };
    assert(r.deep_view() =~= stability_row(*s));
    r
}

/// The rows of the pods that flap, or of those that do not.
fn part_rows(list: &Vec<PodStabilityLine>, unstable: bool) -> (r: Vec<GridRow>)
    ensures
        r.deep_view() == stability_part(list@, unstable),
{
    let mut r: Vec<GridRow> = Vec::new();
    assert(r.deep_view() =~= Seq::empty());
    for i in 0..list.len()
        invariant
            r.deep_view() == stability_part(list@.take(i as int), unstable),
    {
        let ghost before = r.deep_view();
        assert(list@.take(i + 1).drop_last() =~= list@.take(i as int));
        assert(list@.take(i + 1).last() == list@[i as int]);
        let s = &list[i];
        if (s.flapping_rate || s.flapping_rebalance || s.idle_cull_loop) == unstable {
            let row = stability_cells(s);
            let ghost added = row.deep_view();
            r.push(row);
            assert(r.deep_view() =~= before.push(added));
        }
    }
    assert(list@.take(list@.len() as int) =~= list@);
    r
}

/// How stable the connections of the pods are, those that flap first.
pub fn stability_rows(list: &Vec<PodStabilityLine>) -> (r: Vec<GridRow>)
    ensures
        r.deep_view() == stability_part(list@, true) + stability_part(list@, false),
{
    let mut r = part_rows(list, true);
    let ghost a = r.deep_view();
    let mut rest = part_rows(list, false);
    let ghost b = rest.deep_view();
    r.append(&mut rest);
    assert(r.deep_view() =~= a + b);
    r
}

// ── Laws ─────────────────────────────────────────────────────────────────────

/// The text never scrolls past its end, and shows a full pane where it has one.
pub proof fn lemma_scroll_within(scroll: int, total: int, height: int)
    requires
        0 <= scroll,
        0 <= total,
        0 <= height,
    ensures
        0 <= scroll_offset(scroll, total, height) <= total,
        total >= height ==> scroll_offset(scroll, total, height) + height <= total,
        total <= height ==> scroll_offset(scroll, total, height) == 0,
{
}

/// Every pod has one row among those that flap or among those that do not.
pub proof fn lemma_every_pod_shown(list: Seq<PodStabilityLine>)
    ensures
        stability_part(list, true).len() + stability_part(list, false).len() == list.len(),
    decreases list.len(),
{
    if list.len() > 0 {
        lemma_every_pod_shown(list.drop_last());
    }
}

/// Every pod was either scraped or missed.
pub proof fn lemma_scraped_or_missed(list: Seq<PodMetricSummary>)
    ensures
        scraped(list).len() + missed(list).len() == list.len(),
    decreases list.len(),
{
    if list.len() > 0 {
        lemma_scraped_or_missed(list.drop_last());
    }
}

/// A metric over its threshold is never folded into a line for all pods.
pub proof fn lemma_breach_not_shared(rows: Seq<CategoryView>, label: Seq<char>, i: int)
    requires
        0 <= i < rows.len(),
        labelled(rows[i].lines, label) is Some,
        labelled(rows[i].lines, label)->0.breached,
    ensures
        !uniform(rows, label),
{
    if uniform(rows, label) {
        assert(alike(labelled(rows[i].lines, label)->0, labelled(rows[0].lines, label)->0));
    }
}

/// A metric is shown with its label and its whole value: a rate by the second, and
/// with an arrow where it moved. One over its threshold is an alarm whatever else
/// holds, and one without a sample is missing.
pub proof fn lemma_metric_shown_as(m: MetricLine)
    ensures
        ({
            let (text, style) = metric_span(m);
            &&& !m.present ==> text == m.label@ + "=(no data)"@ && style.dim
            &&& m.present && !m.is_rate && !m.changed ==> text =~= m.label@ + "="@ + whole_text(
                m.value,
            )
            &&& m.present && m.is_rate && !m.changed ==> text =~= m.label@ + "="@ + whole_text(
                m.value,
            ) + "/s"@
            &&& m.present && !m.is_rate && m.changed ==> text =~= m.label@ + "="@ + whole_text(
                m.value,
            ) + m.arrow@
            &&& m.present && m.is_rate && m.changed ==> text =~= m.label@ + "="@ + whole_text(
                m.value,
            ) + "/s"@ + m.arrow@
            &&& style.bg == Some(Paint::Red) <==> m.present && m.breached
            &&& style.fg == Some(Paint::Yellow) <==> m.present && !m.breached && (m.worsening
                || m.stalled)
            &&& style.fg == Some(Paint::Green) <==> m.present && !m.breached && !m.worsening
                && !m.stalled && m.improving
        }),
{
    reveal_strlit("");
}

/// A stage that takes something in while the next one gives nothing out is marked,
/// and no other.
pub proof fn lemma_blocked_flow(s: PodMetricSummary)
    ensures
        ({
            let a = stage(s.lines@, "consumed"@);
            let b = stage(s.lines@, "written"@);
            let c = stage(s.lines@, "sink"@);
            let stuck = |x: Option<Double>, y: Option<Double>|
                x is Some && y is Some && of_integer(0).less(x->0) && y->0.zero();
            let r = flow_line(s);
            &&& r.len() == 0 <==> a is None && b is None && c is None
            &&& r.len() > 0 ==> r.len() == 1 && r[0].len() == 2
            &&& r.len() > 0 ==> (r[0][1].1.fg == Some(Paint::Yellow) <==> stuck(a, b) || stuck(
                b,
                c,
            ))
            &&& a is Some && b is Some && c is Some ==> r[0][1].0 == "consumed "@ + whole_text(a->0)
                + "/s → written "@ + whole_text(b->0) + "/s → sink "@ + whole_text(c->0) + "/s"@
            &&& r.len() > 0 ==> r[0][0].0 == "  "@ + filled(pod_tail(s.pod@), 14) + " "@
        }),
{
    lemma_zero_is_integer();
}

/// Zero is the integer zero.
proof fn lemma_zero_is_integer()
    ensures
        zero() == of_integer(0),
{
    lemma_integer_exact(0);
    lemma_integer_order(0, 0);
    assert(of_integer(0).zero() && !of_integer(0).negative());
    assert(of_integer(0).magnitude() == 0);
}

/// A stage is the first metric whose label names it.
pub proof fn lemma_stage_found(lines: Seq<MetricLine>, needle: Seq<char>, i: int)
    requires
        0 <= i < lines.len(),
        has(lines[i].label@, needle),
        forall|j: int| 0 <= j < i ==> !(has((#[trigger] lines[j]).label@, needle)),
    ensures
        stage(lines, needle) == Some(lines[i].value),
    decreases i,
{
    if i > 0 {
        let rest = lines.drop_first();
        assert(!(has(lines[0].label@, needle)));
        assert(rest[i - 1] == lines[i]);
        assert forall|j: int| 0 <= j < i - 1 implies !(has((#[trigger] rest[j]).label@, needle)) by {
            assert(rest[j] == lines[j + 1]);
        }
        lemma_stage_found(rest, needle, i - 1);
    }
}

/// A pod is told apart by what stands behind its last hyphen.
pub proof fn lemma_pod_tail(front: Seq<char>, tail: Seq<char>)
    requires
        forall|i: int| 0 <= i < tail.len() ==> #[trigger] tail[i] != '-',
    ensures
        pod_tail(front + "-"@ + tail) == tail,
        pod_tail(tail) == tail,
{
    reveal_strlit("-");
    let pat = "-"@;
    assert(pat.len() == 1 && pat[0] == '-');
    let s = front + pat + tail;
    let k = front.len() as int;
    lemma_rfind_upto(s, pat, s.len() as int);
    lemma_rfind_upto(tail, pat, tail.len() as int);
    assert(s.subrange(k, k + 1) =~= pat);
    assert(occurs_at(s, pat, k));
    let i = last(s, pat)->0;
    if i > k {
        assert(s.subrange(i, i + 1)[0] == s[i]);
        assert(s[i] == tail[i - k - 1]);
    }
    assert(s.skip(k + 1) =~= tail);
    if last(tail, pat) is Some {
        let j = last(tail, pat)->0;
        assert(tail.subrange(j, j + 1)[0] == tail[j]);
    }
}

/// The metrics of a category are those that name it, in their order.
pub proof fn lemma_in_category(lines: Seq<MetricLine>, category: Seq<char>)
    ensures
        in_category(lines, category) == lines.filter(|m: MetricLine| m.category@ == category),
    decreases lines.len(),
{
    reveal(Seq::filter);
    if lines.len() > 0 {
        lemma_in_category(lines.drop_last(), category);
    }
}

/// A pod has a row in a category where it has metrics of it, and the row is marked
/// where one of those is over its threshold.
pub proof fn lemma_category_row(
    list: Seq<PodMetricSummary>,
    s: PodMetricSummary,
    category: Seq<char>,
)
    ensures
        category_rows(Seq::empty(), category).len() == 0,
        ({
            let own = s.lines@.filter(|m: MetricLine| m.category@ == category);
            let r = category_rows(list.push(s), category);
            let old = category_rows(list, category);
            &&& own.len() == 0 ==> r == old
            &&& own.len() > 0 ==> r.drop_last() == old && r.last().pod == pod_tail(s.pod@)
                && r.last().lines == own && (r.last().breach <==> exists|i: int|
                0 <= i < own.len() && (#[trigger] own[i]).breached)
        }),
{
    assert(list.push(s).drop_last() =~= list);
    lemma_in_category(s.lines@, category);
    let r = category_rows(list.push(s), category);
    if in_category(s.lines@, category).len() > 0 {
        assert(r.drop_last() =~= category_rows(list, category));
    }
}

/// A metric is told in one line for all pods only where every pod has it, all say
/// the same, and none calls for attention.
pub proof fn lemma_shared_means_same(rows: Seq<CategoryView>, label: Seq<char>, i: int)
    requires
        0 <= i < rows.len(),
        uniform(rows, label),
    ensures
        labelled(rows[i].lines, label) is Some,
        ({
            let m = labelled(rows[i].lines, label)->0;
            let first = labelled(rows[0].lines, label)->0;
            &&& m.present == first.present
            &&& !m.breached && !m.worsening && !m.stalled
            &&& absolute(sum(m.value, negated(first.value))).less(
                quotient(of_integer(1), of_integer(0x10_0000_0000_0000)),
            )
        }),
{
    assert(labelled(rows[i].lines, label) is Some);
}

/// Every metric of a pod is told: in a line for all pods, or in its own.
pub proof fn lemma_every_metric_told(
    lines: Seq<MetricLine>,
    labels: Seq<Seq<char>>,
    m: MetricLine,
)
    requires
        lines.contains(m),
    ensures
        labels.contains(m.label@) || others(lines, labels).contains(m),
    decreases lines.len(),
{
    let rest = lines.drop_last();
    let r = others(lines, labels);
    let i = choose|i: int| 0 <= i < lines.len() && lines[i] == m;
    if i < rest.len() {
        assert(rest[i] == m);
        assert(rest.contains(m));
        lemma_every_metric_told(rest, labels, m);
        if others(rest, labels).contains(m) {
            let k = choose|k: int| 0 <= k < others(rest, labels).len() && others(rest, labels)[k]
                == m;
            assert(r[k] == m);
        }
    } else if !labels.contains(m.label@) {
        assert(r.last() == m);
        assert(r[r.len() - 1] == m);
    }
}

/// A pod counts as scraped where one of its metrics had a sample.
pub proof fn lemma_scraped_pods(list: Seq<PodMetricSummary>, s: PodMetricSummary)
    ensures
        ({
            let sampled = exists|i: int|
                0 <= i < s.lines@.len() && (#[trigger] s.lines@[i]).present;
            &&& sampled ==> scraped(list.push(s)) == scraped(list).push(s) && missed(list.push(s))
                == missed(list)
            &&& !sampled ==> scraped(list.push(s)) == scraped(list) && missed(list.push(s))
                == missed(list).push(pod_tail(s.pod@))
        }),
{
    assert(list.push(s).drop_last() =~= list);
}

/// The screen of all metrics: who was missed, the flow of every pod that was
/// scraped, and the four categories.
pub proof fn lemma_fleet_order(list: Seq<PodMetricSummary>)
    ensures
        ({
            let known = scraped(list);
            let head = if missed(list).len() > 0 {
                seq![
                    one(
                        "not scraped this cycle ("@ + decimal(missed(list).len() as int) + "): "@
                            + joined(missed(list), ", "@),
                        faded(),
                    ),
                    one(""@, plain()),
                ]
            } else {
                Seq::empty()
            };
            fleet_lines(list) == head + seq![one("── flow (per pod) ──"@, bold())] + flows(known)
                + seq![one(""@, plain())] + category_lines(known, "consumer"@) + category_lines(
                known,
                "throughput"@,
            ) + category_lines(known, "bottleneck"@) + category_lines(known, "health"@)
        }),
{
}

/// The title tells which lines of how many are shown.
pub proof fn lemma_scroll_title(scroll: int, total: int, height: int)
    requires
        0 <= scroll,
        0 <= total,
        0 < height,
    ensures
        total <= height ==> scroll_title(scroll, total, height) == "fleet metrics"@,
        total > height && scroll + height <= total ==> scroll_offset(scroll, total, height)
            == scroll && scroll_title(scroll, total, height) == "fleet metrics  ["@ + decimal(
            scroll + 1,
        ) + "–"@ + decimal(scroll + height) + "/"@ + decimal(total) + "  ↑/↓ PgUp/PgDn]"@,
        total > height && scroll + height > total ==> scroll_offset(scroll, total, height) == total
            - height && scroll_title(scroll, total, height) == "fleet metrics  ["@ + decimal(
            total - height + 1,
        ) + "–"@ + decimal(total) + "/"@ + decimal(total) + "  ↑/↓ PgUp/PgDn]"@,
{
}

/// The verdict on the connections of a pod, and its colour.
pub proof fn lemma_stability_told(s: PodStabilityLine)
    ensures
        ({
            let row = stability_row(s);
            let loops = " — idle-cull loop"@;
            let text = if s.flapping_rate && s.flapping_rebalance {
                "FLAPPING (reconnect + rebalance)"@
            } else if s.flapping_rate {
                "FLAPPING (reconnect churn)"@
            } else {
                "FLAPPING (rebalance churn)"@
            };
            let flaps = s.flapping_rate || s.flapping_rebalance;
            &&& row.cells.len() == 8 && stability_columns().len() == 8
            &&& stability_columns()[0] == "POD"@ && row.cells[0].0 == pod_tail(s.pod@)
            &&& stability_columns()[1] == "RECONNECT/s"@ && row.cells[1].0 == tenth_text(
                s.reconnect_rate,
            )
            &&& stability_columns()[2] == "THROTTLE-TRANS/s"@ && row.cells[2].0 == tenth_text(
                s.throttle_transition_rate,
            )
            &&& stability_columns()[3] == "ACTIVE-PARTS"@ && row.cells[3].0 == whole_text(
                s.active_parts,
            )
            &&& stability_columns()[4] == "CHURN"@ && row.cells[4].0 == whole_text(
                s.active_parts_churn,
            )
            &&& stability_columns()[5] == "IDLE-CULL/s"@ && row.cells[5].0 == tenth_text(
                s.idle_cull_rate,
            )
            &&& stability_columns()[6] == "CULL-AFTER"@ && (s.idle_cull_threshold_secs.equals(
                of_integer(0),
            ) ==> row.cells[6].0 == "—"@)
            &&& !s.idle_cull_threshold_secs.equals(of_integer(0)) ==> row.cells[6].0 == whole_text(
                s.idle_cull_threshold_secs,
            ) + "s"@
            &&& stability_columns()[7] == "VERDICT"@
            &&& flaps && !s.idle_cull_loop ==> row.cells[7].0 == text
            &&& flaps && s.idle_cull_loop ==> row.cells[7].0 == text + loops
            &&& !flaps && s.idle_cull_loop ==> row.cells[7].0 == "idle-cull loop"@
            &&& !flaps && !s.idle_cull_loop ==> row.cells[7].0 == "stable"@
            &&& row.style.fg == Some(Paint::Yellow) <==> flaps || s.idle_cull_loop
        }),
{
}

/// A pod stands among those that flap exactly where it does.
pub proof fn lemma_flapping_first(list: Seq<PodStabilityLine>, s: PodStabilityLine)
    ensures
        ({
            let flaps = s.flapping_rate || s.flapping_rebalance || s.idle_cull_loop;
            &&& flaps ==> stability_part(list.push(s), true) == stability_part(list, true).push(
                stability_row(s),
            ) && stability_part(list.push(s), false) == stability_part(list, false)
            &&& !flaps ==> stability_part(list.push(s), false) == stability_part(list, false).push(
                stability_row(s),
            ) && stability_part(list.push(s), true) == stability_part(list, true)
        }),
{
    assert(list.push(s).drop_last() =~= list);
}

/// A category of one pod has a title and a line for each of its metrics, in their
/// order, and nothing where it has none.
pub proof fn lemma_pod_category(lines: Seq<MetricLine>, category: Seq<char>, i: int)
    ensures
        ({
            let own = lines.filter(|m: MetricLine| m.category@ == category);
            let r = pod_category(lines, category);
            &&& own.len() == 0 ==> r.len() == 0
            &&& own.len() > 0 ==> r.len() == own.len() + 1 && r[0] == one(
                "── "@ + category + " ──"@,
                bold(),
            )
            &&& 0 <= i < own.len() ==> r[i + 1] == seq![bare("  "@), metric_span(own[i])]
        }),
{
    lemma_in_category(lines, category);
}

/// The metrics of one pod come by category, behind its health.
pub proof fn lemma_pod_metrics_order(s: PodMetricSummary)
    ensures
        ({
            let head = if s.health is Some {
                seq![one("health: "@ + s.health->0@, plain()), one(""@, plain())]
            } else {
                Seq::empty()
            };
            pod_metrics(s) == head + pod_category(s.lines@, "consumer"@) + pod_category(
                s.lines@,
                "throughput"@,
            ) + pod_category(s.lines@, "bottleneck"@) + pod_category(s.lines@, "health"@)
        }),
{
}

} // verus!
