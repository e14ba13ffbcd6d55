//! The report for a terminal: a table of topics, and a section on the consumer
//! deployment above it.

use crate::config::{threshold_level, ColorThresholds, ThresholdLevel};
use crate::decimal::{decimal, decimal_text};
use crate::drain::{eta_text, format_eta, trend_label, DrainStats, Trend};
use crate::float::{
    lemma_integer_order, lemma_integer_quotient, lemma_integer_text, lemma_quotient_less, of_integer, quotient,
};
use crate::health::{
    int_view, status_label, AtEdgeView, GapView, HealthView, HotView, Status, TopicHealth, TrimmedView,
};
use crate::number::{hundredth_text, signed_tenth_text, tenth_text, Double};
use crate::state::{duration_text, format_duration_between};
use crate::table::{
    add_row, cell_look, looks, new_cell, set_bg, set_bold, set_fg, set_right, table_header, table_layout, table_rows,
    for_terminal, titled, Look,
    Paint,
};
use crate::text::{
    cat2, cat3, cat4, cat6, chars_of, copy_of, join, joined, last, lemma_rfind_upto, occurs_at, rfind, same, slice_of, text_of,
};
use crate::timestamp::{date_of, instant, lemma_parse_of_format, rfc3339};
use comfy_table::{Cell, Table};
use vstd::prelude::*;

verus! {

// ── Sizes and durations ──────────────────────────────────────────────────────

/// How many of the next larger binary unit that is.
pub open spec fn next_unit(d: Double) -> Double {
    quotient(d, of_integer(0x400))
}

/// The number is less than one of the next larger binary unit.
pub open spec fn within_unit(d: Double) -> bool {
    d.less(of_integer(0x400))
}

/// A number of bytes that is not zero, in the largest binary unit that it fills,
/// with two decimal places.
pub open spec fn size_text(bytes: int) -> Seq<char> {
    let plain = of_integer(bytes);
    let kibi = next_unit(plain);
    let mebi = next_unit(kibi);
    let gibi = next_unit(mebi);
    if bytes <= 0 {
        "—"@
    } else if within_unit(plain) {
        decimal(bytes) + " B"@
    } else if within_unit(kibi) {
        hundredth_text(kibi) + " KiB"@
    } else if within_unit(mebi) {
        hundredth_text(mebi) + " MiB"@
    } else if within_unit(gibi) {
        hundredth_text(gibi) + " GiB"@
    } else {
        hundredth_text(next_unit(gibi)) + " TiB"@
    }
}

/// A size in binary units, as dashboards show it. Zero is shown as `—`, so that
/// a size that is not there does not read as one.
pub fn format_bytes(bytes: i64) -> (r: String)
    ensures
        r@ == size_text(bytes as int),
{
    if bytes <= 0 {
        return copy_of("—");
    }
    let unit = Double::from_u64(0x400);
    let plain = Double::from_i64(bytes);
    if plain.is_less(unit) {
        return cat2(decimal_text(bytes).as_str(), " B");
    }
    let kibi = plain.over(unit);
    if kibi.is_less(unit) {
        return cat2(kibi.hundredth().as_str(), " KiB");
    }
    let mebi = kibi.over(unit);
    if mebi.is_less(unit) {
        return cat2(mebi.hundredth().as_str(), " MiB");
    }
    let gibi = mebi.over(unit);
    if gibi.is_less(unit) {
        return cat2(gibi.hundredth().as_str(), " GiB");
    }
    cat2(gibi.over(unit).hundredth().as_str(), " TiB")
}

/// Seconds in the largest unit that they fill.
pub open spec fn short_duration(secs: int) -> Seq<char> {
    if secs < 60 {
        decimal(secs) + "s"@
    } else if secs < 3600 {
        decimal(secs / 60) + "m"@
    } else if secs < 86_400 {
        decimal(secs / 3600) + "h"@
    } else {
        decimal(secs / 86_400) + "d"@
    }
}

/// The age of a pod or an event: `45s`, `12m`, `3h`, `2d`.
pub fn format_short_duration(secs: i64) -> (r: String)
    ensures
        r@ == short_duration(secs as int),
{
    if secs < 60 {
        cat2(decimal_text(secs).as_str(), "s")
    } else if secs < 3600 {
        cat2(decimal_text(secs / 60).as_str(), "m")
    } else if secs < 86_400 {
        cat2(decimal_text(secs / 3600).as_str(), "h")
    } else {
        cat2(decimal_text(secs / 86_400).as_str(), "d")
    }
}

// ── Names ────────────────────────────────────────────────────────────────────

/// What follows the last slash of a name.
pub open spec fn local_name(full: Seq<char>) -> Seq<char> {
    match last(full, "/"@) {
        Some(i) => full.skip(i + 1),
        None => full,
    }
}

/// A partition by its number, anything else by what follows the last slash.
pub open spec fn partition_name(full: Seq<char>) -> Seq<char> {
    match last(full, "-partition-"@) {
        Some(i) => "p"@ + full.skip(i + "-partition-"@.len() as int),
        None => local_name(full),
    }
}

/// What follows the last slash of a name.
pub fn short_topic(full: &str) -> (r: String)
    ensures
        r@ == local_name(full@),
{
    let v = chars_of(full);
    let n: usize = v.len();
    match rfind(v.as_slice(), "/") {
        Some(i) => {
            proof {
                reveal_strlit("/");
                assert("/"@.len() == 1);
            }
            let tail = slice_of(v.as_slice(), i + 1, n);
            assert(tail@ =~= v@.skip(i + 1));
            text_of(tail.as_slice())
        },
        None => copy_of(full),
    }
}

/// `p7` for partition 7 of a topic; another name by what follows its last slash.
pub fn short_partition(full: &str) -> (r: String)
    ensures
        r@ == partition_name(full@),
{
    let v = chars_of(full);
    let n: usize = v.len();
    match rfind(v.as_slice(), "-partition-") {
        Some(i) => {
            proof {
                reveal_strlit("-partition-");
                assert("-partition-"@.len() == 11);
            }
            let tail = slice_of(v.as_slice(), i + 11, n);
            assert(tail@ =~= v@.skip(i + 11));
            cat2("p", text_of(tail.as_slice()).as_str())
        },
        None => short_topic(full),
    }
}

// ── Details of a topic ───────────────────────────────────────────────────────

/// A partition whose cursor is stranded; marked where the broker agrees.
pub open spec fn trimmed_item() -> spec_fn(TrimmedView) -> Seq<char> {
    |t: TrimmedView|
        partition_name(t.partition) + (if t.waiting_with_backlog {
            "!"@
        } else {
            ""@
        })
}

/// A partition at the edge, with its headroom.
pub open spec fn edge_item() -> spec_fn(AtEdgeView) -> Seq<char> {
    |e: AtEdgeView|
        match e.headroom {
            Some(h) => partition_name(e.partition) + "(~"@ + decimal(h) + ")"@,
            None => partition_name(e.partition),
        }
}

/// A hot partition with its backlog.
pub open spec fn hot_item() -> spec_fn(HotView) -> Seq<char> {
    |p: HotView|
        if p.backlog_bytes > 0 {
            partition_name(p.partition) + "="@ + decimal(p.backlog) + " ("@ + size_text(
                p.backlog_bytes,
            ) + ")"@
        } else {
            partition_name(p.partition) + "="@ + decimal(p.backlog)
        }
}

/// Why a partition has a gap, in short.
pub open spec fn short_reason(reason: Seq<char>) -> Seq<char> {
    if reason == "subscription_missing"@ {
        "no-sub"@
    } else if reason == "no_consumers"@ {
        "no-consumers"@
    } else {
        reason
    }
}

/// A partition with a gap.
pub open spec fn gap_item() -> spec_fn(GapView) -> Seq<char> {
    |g: GapView| partition_name(g.partition) + " ("@ + short_reason(g.reason) + ")"@
}

/// A list under a label; nothing where it is empty.
pub open spec fn section(label: Seq<char>, items: Seq<Seq<char>>) -> Seq<Seq<char>> {
    if items.len() == 0 {
        Seq::empty()
    } else {
        seq![label + joined(items, ", "@)]
    }
}

/// What is said of a topic, the most urgent first.
pub open spec fn detail_parts(h: HealthView) -> Seq<Seq<char>> {
    section("TRIMMED: "@, h.trimmed_partitions.map_values(trimmed_item())) + section(
        "edge: "@,
        h.at_edge_partitions.map_values(edge_item()),
    ) + section("hot: "@, h.hot_partitions.map_values(hot_item())) + section(
        "gaps: "@,
        h.partition_gaps.map_values(gap_item()),
    ) + (match h.kube_hint {
        Some(hint) => seq![hint],
        None => Seq::empty(),
    })
}

/// What is said of a topic: its error, or its partitions of interest.
pub open spec fn detail_text(h: HealthView) -> Seq<char> {
    match h.error {
        Some(e) => e,
        None => joined(detail_parts(h), "; "@),
    }
}

/// The partitions whose cursors are stranded.
fn trimmed_items(list: &Vec<crate::health::TrimmedPartition>) -> (r: Vec<String>)
    ensures
        r.deep_view() == list.deep_view().map_values(trimmed_item()),
{
    let ghost all = list.deep_view();
    let mut r: Vec<String> = Vec::new();
    for i in 0..list.len()
        invariant
            all == list.deep_view(),
            r@.len() == i,
            forall|j: int| 0 <= j < i ==> (#[trigger] r@[j])@ == trimmed_item()(all[j]),
    {
        assert(all[i as int] == list@[i as int].deep_view());
        let x = &list[i];
        let name = short_partition(x.partition.as_str());
        let text = if x.waiting_with_backlog {
            cat2(name.as_str(), "!")
        } else {
            cat2(name.as_str(), "")
        };
        r.push(text);
    }
    assert(r.deep_view() =~= all.map_values(trimmed_item()));
    r
}

/// The partitions at the edge.
fn edge_items(list: &Vec<crate::health::AtEdgePartition>) -> (r: Vec<String>)
    ensures
        r.deep_view() == list.deep_view().map_values(edge_item()),
{
    let ghost all = list.deep_view();
    let mut r: Vec<String> = Vec::new();
    for i in 0..list.len()
        invariant
            all == list.deep_view(),
            r@.len() == i,
            forall|j: int| 0 <= j < i ==> (#[trigger] r@[j])@ == edge_item()(all[j]),
    {
        assert(all[i as int] == list@[i as int].deep_view());
        let x = &list[i];
        let name = short_partition(x.partition.as_str());
        let text = match x.headroom {
            Some(h) => cat4(name.as_str(), "(~", decimal_text(h).as_str(), ")"),
            None => name,
        };
        r.push(text);
    }
    assert(r.deep_view() =~= all.map_values(edge_item()));
    r
}

/// The hot partitions.
fn hot_items(list: &Vec<crate::health::HotPartition>) -> (r: Vec<String>)
    ensures
        r.deep_view() == list.deep_view().map_values(hot_item()),
{
    let ghost all = list.deep_view();
    let mut r: Vec<String> = Vec::new();
    for i in 0..list.len()
        invariant
            all == list.deep_view(),
            r@.len() == i,
            forall|j: int| 0 <= j < i ==> (#[trigger] r@[j])@ == hot_item()(all[j]),
    {
        assert(all[i as int] == list@[i as int].deep_view());
        let x = &list[i];
        let name = short_partition(x.partition.as_str());
        let backlog = decimal_text(x.backlog);
        let text = if x.backlog_bytes > 0 {
            let size = format_bytes(x.backlog_bytes);
            cat6(name.as_str(), "=", backlog.as_str(), " (", size.as_str(), ")")
        } else {
            cat3(name.as_str(), "=", backlog.as_str())
        };
        r.push(text);
    }
    assert(r.deep_view() =~= all.map_values(hot_item()));
    r
}

/// The partitions with a gap.
fn gap_items(list: &Vec<crate::health::PartitionGap>) -> (r: Vec<String>)
    ensures
        r.deep_view() == list.deep_view().map_values(gap_item()),
{
    let ghost all = list.deep_view();
    let mut r: Vec<String> = Vec::new();
    for i in 0..list.len()
        invariant
            all == list.deep_view(),
            r@.len() == i,
            forall|j: int| 0 <= j < i ==> (#[trigger] r@[j])@ == gap_item()(all[j]),
    {
        assert(all[i as int] == list@[i as int].deep_view());
        let x = &list[i];
        let name = short_partition(x.partition.as_str());
        let reason = if same(x.reason, "subscription_missing") {
            "no-sub"
        } else if same(x.reason, "no_consumers") {
            "no-consumers"
        } else {
            x.reason
        };
        let text = cat4(name.as_str(), " (", reason, ")");
        r.push(text);
    }
    assert(r.deep_view() =~= all.map_values(gap_item()));
    r
}

/// Add a list under a label, unless it is empty.
fn add_section(parts: &mut Vec<String>, label: &str, items: &Vec<String>)
    ensures
        final(parts).deep_view() == old(parts).deep_view() + section(label@, items.deep_view()),
{
    let ghost before = parts.deep_view();
    if items.len() > 0 {
        parts.push(cat2(label, join(items, ", ").as_str()));
    }
    assert(parts.deep_view() =~= before + section(label@, items.deep_view()));
}

/// What is said of a topic: hot partitions with their backlog, gaps, and what is
/// more urgent in front of them.
pub fn detail(health: &TopicHealth) -> (r: String)
    ensures
        r@ == detail_text(health.deep_view()),
{
    if let Some(e) = &health.error {
        return copy_of(e.as_str());
    }
    let mut parts: Vec<String> = Vec::new();
    let ghost h = health.deep_view();
    let ghost a = section("TRIMMED: "@, h.trimmed_partitions.map_values(trimmed_item()));
    assert(parts.deep_view() =~= Seq::empty());
    add_section(&mut parts, "TRIMMED: ", &trimmed_items(&health.trimmed_partitions));
    assert(parts.deep_view() =~= a);
    add_section(&mut parts, "edge: ", &edge_items(&health.at_edge_partitions));
    add_section(&mut parts, "hot: ", &hot_items(&health.hot_partitions));
    add_section(&mut parts, "gaps: ", &gap_items(&health.partition_gaps));
    let ghost before = parts.deep_view();
    if let Some(hint) = &health.kube_hint {
        parts.push(copy_of(hint.as_str()));
    }
    assert(parts.deep_view() =~= detail_parts(h));
    join(&parts, "; ")
}

// ── Cells ────────────────────────────────────────────────────────────────────

/// A figure coloured by its thresholds.
pub open spec fn level_look(text: Seq<char>, level: ThresholdLevel) -> Look {
    let cell = Look::plain(text).right();
    match level {
        ThresholdLevel::Unset => cell,
        ThresholdLevel::Good => cell.fg(Paint::Green),
        ThresholdLevel::Warn => cell.fg(Paint::Yellow),
        ThresholdLevel::Crit => cell.fg(Paint::Red).bold(),
    }
}

/// A figure that may not have been measured.
pub open spec fn figure_look(
    n: Option<int>,
    text: Seq<char>,
    warn: Option<i64>,
    crit: Option<i64>,
) -> Look {
    match n {
        Some(v) => level_look(text, threshold_level(v, warn, crit)),
        None => Look::plain("—"@).right(),
    }
}

/// A number, or `—`.
pub open spec fn number_or_dash(n: Option<int>) -> Seq<char> {
    match n {
        Some(v) => decimal(v),
        None => "—"@,
    }
}

/// A size, or `—`.
pub open spec fn size_or_dash(n: Option<int>) -> Seq<char> {
    match n {
        Some(v) => size_text(v),
        None => "—"@,
    }
}

/// The headroom of a topic: red where data is lost, yellow where it is about to
/// be.
pub open spec fn headroom_look(h: HealthView) -> Look {
    match h.min_headroom {
        None => Look::plain("—"@).right(),
        Some(n) => {
            let cell = Look::plain(decimal(n)).right();
            if h.trimmed_partitions.len() > 0 || n <= 0 {
                cell.fg(Paint::Red).bold()
            } else if h.at_edge_partitions.len() > 0 {
                cell.fg(Paint::Yellow)
            } else {
                cell.fg(Paint::Green)
            }
        },
    }
}

/// The status of a topic.
pub open spec fn status_look(status: Status) -> Look {
    let cell = Look::plain(status_label(status));
    match status {
        Status::Healthy => cell.fg(Paint::Green),
        Status::Backlog => cell.fg(Paint::Yellow),
        Status::PartitionGap => cell.fg(Paint::Red),
        Status::NoConsumers => cell.fg(Paint::Red),
        Status::MissingSub => cell.fg(Paint::Red),
        Status::Trimmed => cell.fg(Paint::White).bg(Paint::Red).bold(),
        Status::Error => cell.fg(Paint::Red).bold(),
    }
}

/// The trend of a topic.
pub open spec fn trend_look(trend: Trend) -> Look {
    let cell = Look::plain(trend_label(trend));
    match trend {
        Trend::Draining => cell.fg(Paint::Green),
        Trend::Growing => cell.fg(Paint::Red).bold(),
        Trend::Stable => cell.fg(Paint::Yellow),
        Trend::Empty => cell.fg(Paint::DarkGrey),
    }
}

/// The net rate of a topic, with its sign.
pub open spec fn net_text(drain: Option<DrainStats>) -> Seq<char> {
    match drain {
        Some(d) => signed_tenth_text(d.net_per_sec),
        None => "—"@,
    }
}

/// When the backlog is cleared.
pub open spec fn clear_text(drain: Option<DrainStats>) -> Seq<char> {
    match drain {
        Some(d) => match d.eta_secs {
            Some(e) => eta_text(e),
            None => "—"@,
        },
        None => "—"@,
    }
}

/// Trend, net rate and time to clear.
pub open spec fn drain_looks(drain: Option<DrainStats>) -> Seq<Look> {
    seq![
        match drain {
            Some(d) => trend_look(d.trend),
            None => Look::plain("—"@).right(),
        },
        Look::plain(net_text(drain)).right(),
        Look::plain(clear_text(drain)).right(),
    ]
}

/// How long a topic has held its state.
pub open spec fn held_text(since: Option<Seq<char>>, run_at: Seq<char>) -> Seq<char> {
    match since {
        Some(s) => match (instant(s), instant(run_at)) {
            (Some(a), Some(b)) => if a <= b {
                duration_text(b - a)
            } else {
                "—"@
            },
            _ => "—"@,
        },
        None => "—"@,
    }
}

/// One topic.
pub open spec fn topic_row(
    h: HealthView,
    colors: ColorThresholds,
    run_at: Seq<char>,
    time: bool,
    drain: bool,
) -> Seq<Look> {
    seq![Look::plain(h.topic), status_look(h.status)] + (if time {
        seq![Look::plain(held_text(h.state_since, run_at)).right()]
    } else {
        Seq::empty()
    }) + seq![
        figure_look(
            h.total_backlog,
            number_or_dash(h.total_backlog),
            colors.backlog_warn,
            colors.backlog_crit,
        ),
        figure_look(
            h.backlog_bytes,
            size_or_dash(h.backlog_bytes),
            colors.size_warn,
            colors.size_crit,
        ),
        Look::plain(number_or_dash(h.consumers)).right(),
        figure_look(
            h.unacked_messages,
            number_or_dash(h.unacked_messages),
            colors.unacked_warn,
            colors.unacked_crit,
        ),
        Look::plain(tenth_text(h.msg_rate_out)).right(),
        headroom_look(h),
    ] + (if drain {
        drain_looks(h.drain)
    } else {
        Seq::empty()
    }) + seq![Look::plain(detail_text(h))]
}

/// The titles of the columns.
pub open spec fn topic_titles(time: bool, drain: bool) -> Seq<Seq<char>> {
    seq!["TOPIC"@, "STATUS"@] + (if time {
        seq!["TIME"@]
    } else {
        Seq::empty()
    }) + seq![
        "BACKLOG"@,
        "SIZE"@,
        "CONSUMERS"@,
        "UNACKED"@,
        "RATE OUT"@,
        "HEADROOM"@,
    ] + (if drain {
        seq!["TREND"@, "NET/s"@, "ETA"@]
    } else {
        Seq::empty()
    }) + seq!["DETAIL"@]
}

/// A text in bold type.
pub open spec fn bold_title() -> spec_fn(Seq<char>) -> Look {
    |s: Seq<char>| Look::plain(s).bold()
}

/// A topic was measured twice.
pub open spec fn any_drain(list: Seq<TopicHealth>) -> bool {
    exists|i: int| 0 <= i < list.len() && (#[trigger] list[i]).drain is Some
}

/// It is known since when a topic holds its state.
pub open spec fn any_since(list: Seq<TopicHealth>) -> bool {
    exists|i: int| 0 <= i < list.len() && (#[trigger] list[i]).state_since is Some
}

/// A figure coloured by its thresholds.
fn level_cell(text: &str, level: ThresholdLevel) -> (r: Cell)
    ensures
        cell_look(r) == level_look(text@, level),
{
    let cell = set_right(new_cell(text));
    match level {
        ThresholdLevel::Unset => cell,
        ThresholdLevel::Good => set_fg(cell, Paint::Green),
        ThresholdLevel::Warn => set_fg(cell, Paint::Yellow),
        ThresholdLevel::Crit => set_bold(set_fg(cell, Paint::Red)),
    }
}

/// A figure, or `—`.
pub fn opt_num(n: Option<i64>) -> (r: String)
    ensures
        r@ == number_or_dash(int_view(n)),
{
    match n {
        Some(v) => decimal_text(v),
        None => copy_of("—"),
    }
}

/// A size, or `—`.
pub fn opt_bytes(n: Option<i64>) -> (r: String)
    ensures
        r@ == size_or_dash(int_view(n)),
{
    match n {
        Some(v) => format_bytes(v),
        None => copy_of("—"),
    }
}

/// The headroom of a topic.
fn headroom_cell(health: &TopicHealth) -> (r: Cell)
    ensures
        cell_look(r) == headroom_look(health.deep_view()),
{
    match health.min_headroom {
        None => set_right(new_cell("—")),
        Some(n) => {
            let cell = set_right(new_cell(decimal_text(n).as_str()));
            if health.trimmed_partitions.len() > 0 || n <= 0 {
                set_bold(set_fg(cell, Paint::Red))
            } else if health.at_edge_partitions.len() > 0 {
                set_fg(cell, Paint::Yellow)
            } else {
                set_fg(cell, Paint::Green)
            }
        },
    }
}

/// The status of a topic.
fn status_cell(status: Status) -> (r: Cell)
    ensures
        cell_look(r) == status_look(status),
{
    let cell = new_cell(status.label());
    match status {
        Status::Healthy => set_fg(cell, Paint::Green),
        Status::Backlog => set_fg(cell, Paint::Yellow),
        Status::PartitionGap => set_fg(cell, Paint::Red),
        Status::NoConsumers => set_fg(cell, Paint::Red),
        Status::MissingSub => set_fg(cell, Paint::Red),
        Status::Trimmed => set_bold(set_bg(set_fg(cell, Paint::White), Paint::Red)),
        Status::Error => set_bold(set_fg(cell, Paint::Red)),
    }
}

/// The trend of a topic.
fn trend_cell(trend: Trend) -> (r: Cell)
    ensures
        cell_look(r) == trend_look(trend),
{
    let cell = new_cell(trend.label());
    match trend {
        Trend::Draining => set_fg(cell, Paint::Green),
        Trend::Growing => set_bold(set_fg(cell, Paint::Red)),
        Trend::Stable => set_fg(cell, Paint::Yellow),
        Trend::Empty => set_fg(cell, Paint::DarkGrey),
    }
}

/// The net rate of a topic, with its sign.
pub fn net_str(drain: &Option<DrainStats>) -> (r: String)
    ensures
        r@ == net_text(*drain),
{
    match drain {
        Some(d) => d.net_per_sec.signed_tenth(),
        None => copy_of("—"),
    }
}

/// When the backlog of a topic is cleared.
pub fn eta_str(drain: &Option<DrainStats>) -> (r: String)
    ensures
        r@ == clear_text(*drain),
{
    match drain {
        Some(d) => match d.eta_secs {
            Some(e) => format_eta(e),
            None => copy_of("—"),
        },
        None => copy_of("—"),
    }
}

/// Trend, net rate and time to clear.
fn drain_cells(drain: &Option<DrainStats>) -> (r: Vec<Cell>)
    ensures
        looks(r@) == drain_looks(*drain),
{
    let mut r: Vec<Cell> = Vec::new();
    r.push(
        match drain {
            Some(d) => trend_cell(d.trend),
            None => set_right(new_cell("—")),
        },
    );
    r.push(set_right(new_cell(net_str(drain).as_str())));
    r.push(set_right(new_cell(eta_str(drain).as_str())));
    assert(looks(r@) =~= drain_looks(*drain));
    r
}

/// How long a topic has held its state.
fn time_in_state(since: &Option<String>, run_at: &str) -> (r: String)
    ensures
        r@ == held_text(since.deep_view(), run_at@),
{
    match since {
        Some(s) => match format_duration_between(s.as_str(), run_at) {
            Some(t) => t,
            None => copy_of("—"),
        },
        None => copy_of("—"),
    }
}

/// The figures of a topic between its status and its trend.
fn figure_cells(health: &TopicHealth, colors: &ColorThresholds) -> (r: Vec<Cell>)
    ensures
        ({
            let h = health.deep_view();
            looks(r@) == seq![
                figure_look(
                    h.total_backlog,
                    number_or_dash(h.total_backlog),
                    colors.backlog_warn,
                    colors.backlog_crit,
                ),
                figure_look(
                    h.backlog_bytes,
                    size_or_dash(h.backlog_bytes),
                    colors.size_warn,
                    colors.size_crit,
                ),
                Look::plain(number_or_dash(h.consumers)).right(),
                figure_look(
                    h.unacked_messages,
                    number_or_dash(h.unacked_messages),
                    colors.unacked_warn,
                    colors.unacked_crit,
                ),
                Look::plain(tenth_text(h.msg_rate_out)).right(),
                headroom_look(h),
            ]
        }),
{
    let mut r: Vec<Cell> = Vec::new();
    let backlog = opt_num(health.total_backlog);
    r.push(
        match health.total_backlog {
            Some(n) => level_cell(backlog.as_str(), colors.backlog_level(n)),
            None => set_right(new_cell("—")),
        },
    );
    let size = opt_bytes(health.backlog_bytes);
    r.push(
        match health.backlog_bytes {
            Some(n) => level_cell(size.as_str(), colors.size_level(n)),
            None => set_right(new_cell("—")),
        },
    );
    r.push(set_right(new_cell(opt_num(health.consumers).as_str())));
    let unacked = opt_num(health.unacked_messages);
    r.push(
        match health.unacked_messages {
            Some(n) => level_cell(unacked.as_str(), colors.unacked_level(n)),
            None => set_right(new_cell("—")),
        },
    );
    r.push(set_right(new_cell(health.msg_rate_out.tenth().as_str())));
    r.push(headroom_cell(health));
    proof {
        let h = health.deep_view();
        assert(cell_look(r@[0]) == figure_look(
            h.total_backlog,
            number_or_dash(h.total_backlog),
            colors.backlog_warn,
            colors.backlog_crit,
        ));
    }
    r
}

/// One topic.
fn topic_cells(
    health: &TopicHealth,
    colors: &ColorThresholds,
    run_at: &str,
    time: bool,
    drain: bool,
) -> (r: Vec<Cell>)
    ensures
        looks(r@) == topic_row(health.deep_view(), *colors, run_at@, time, drain),
{
    let ghost h = health.deep_view();
    let mut r: Vec<Cell> = Vec::new();
    r.push(new_cell(health.topic.as_str()));
    r.push(status_cell(health.status));
    if time {
        r.push(set_right(new_cell(time_in_state(&health.state_since, run_at).as_str())));
    }
    let ghost head = r@;
    let mut figures = figure_cells(health, colors);
    let ghost middle = figures@;
    r.append(&mut figures);
    let ghost mut tail: Seq<Cell> = Seq::empty();
    if drain {
        let mut more = drain_cells(&health.drain);
        proof {
            tail = more@;
        }
        r.append(&mut more);
    }
    let last_cell = new_cell(detail(health).as_str());
    let ghost end = last_cell;
    r.push(last_cell);
    proof {
        assert(r@ =~= head + middle + tail + seq![end]);
        assert(looks(r@) =~= looks(head) + looks(middle) + looks(tail) + looks(seq![end]));
        assert(looks(head) =~= seq![Look::plain(h.topic), status_look(h.status)] + (if time {
            seq![Look::plain(held_text(h.state_since, run_at@)).right()]
        } else {
            Seq::empty()
        }));
        assert(looks(seq![end]) =~= seq![Look::plain(detail_text(h))]);
        assert(looks(tail) =~= (if drain {
            drain_looks(h.drain)
        } else {
            Seq::empty()
        }));
    }
    r
}

/// The titles of the columns.
fn titles(time: bool, drain: bool) -> (r: Vec<&'static str>)
    ensures
        Seq::new(r@.len(), |i: int| r@[i]@) == topic_titles(time, drain),
{
    let mut r: Vec<&'static str> = Vec::new();
    r.push("TOPIC");
    r.push("STATUS");
    if time {
        r.push("TIME");
    }
    r.push("BACKLOG");
    r.push("SIZE");
    r.push("CONSUMERS");
    r.push("UNACKED");
    r.push("RATE OUT");
    r.push("HEADROOM");
    if drain {
        r.push("TREND");
        r.push("NET/s");
        r.push("ETA");
    }
    r.push("DETAIL");
    assert(Seq::new(r@.len(), |i: int| r@[i]@) =~= topic_titles(time, drain));
    r
}

/// Whether a topic was measured twice.
pub fn shows_drain(results: &Vec<TopicHealth>) -> (r: bool)
    ensures
        r == any_drain(results@),
{
    for i in 0..results.len()
        invariant
            forall|j: int| 0 <= j < i ==> (#[trigger] results@[j]).drain is None,
    {
        if results[i].drain.is_some() {
            assert(results@[i as int].drain is Some);
            return true;
        }
    }
    false
}

/// Whether it is known since when a topic holds its state.
fn shows_time(results: &Vec<TopicHealth>) -> (r: bool)
    ensures
        r == any_since(results@),
{
    for i in 0..results.len()
        invariant
            forall|j: int| 0 <= j < i ==> (#[trigger] results@[j]).state_since is None,
    {
        if results[i].state_since.is_some() {
            assert(results@[i as int].state_since is Some);
            return true;
        }
    }
    false
}

/// The table of topics: one row for each, in their order. The columns on time
/// and drain are there only where there is something to show in them.
pub fn render_table(results: &Vec<TopicHealth>, colors: &ColorThresholds, run_at: &str) -> (r: Table)
    ensures
        table_header(r) == Some(
            topic_titles(any_since(results@), any_drain(results@)).map_values(bold_title()),
        ),
        table_layout(r) == for_terminal(),
        table_rows(r).len() == results@.len(),
        forall|i: int|
            0 <= i < results@.len() ==> #[trigger] table_rows(r)[i] == topic_row(
                results@[i].deep_view(),
                *colors,
                run_at@,
                any_since(results@),
                any_drain(results@),
            ),
{
    let drain = shows_drain(results);
    let time = shows_time(results);
    let names = titles(time, drain);
    let mut table = titled(names.as_slice());
    assert(Seq::new(names@.len(), |i: int| Look::plain(names@[i]@).bold()) =~= topic_titles(
        time,
        drain,
    ).map_values(bold_title())) by {
        let all = topic_titles(time, drain);
        assert forall|i: int| 0 <= i < names@.len() implies Look::plain(
            #[trigger] names@[i]@,
        ).bold() == all.map_values(bold_title())[i] by {
            assert(all[i] == names@[i]@);
        }
    }
    for i in 0..results.len()
        invariant
            drain == any_drain(results@),
            time == any_since(results@),
            table_header(table) == Some(topic_titles(time, drain).map_values(bold_title())),
            table_layout(table) == for_terminal(),
            table_rows(table).len() == i,
            forall|j: int|
                0 <= j < i ==> #[trigger] table_rows(table)[j] == topic_row(
                    results@[j].deep_view(),
                    *colors,
                    run_at@,
                    time,
                    drain,
                ),
    {
        add_row(&mut table, topic_cells(&results[i], colors, run_at, time, drain));
    }
    table
}

// ── Laws ─────────────────────────────────────────────────────────────────────

/// The more urgent comes first: where a cursor is stranded, the details of a
/// topic start with it.
pub proof fn lemma_trimmed_first(h: HealthView)
    requires
        h.error is None,
        h.trimmed_partitions.len() > 0,
    ensures
        detail_parts(h).len() > 0,
        detail_parts(h)[0] == "TRIMMED: "@ + joined(
            h.trimmed_partitions.map_values(trimmed_item()),
            ", "@,
        ),
{
}

/// A figure that was not measured is never coloured.
pub proof fn lemma_unmeasured_uncoloured(text: Seq<char>, warn: Option<i64>, crit: Option<i64>)
    ensures
        figure_look(None, text, warn, crit) == Look::plain("—"@).right(),
{
}

/// Sizes in bytes up to 1023, and whole numbers of the larger binary units.
pub proof fn lemma_size_units(n: int)
    requires
        1 <= n < 1024,
    ensures
        size_text(n) == decimal(n) + " B"@,
        size_text(n * 1024) == decimal(n) + seq!['.', '0', '0'] + " KiB"@,
        size_text(n * 1_048_576) == decimal(n) + seq!['.', '0', '0'] + " MiB"@,
        size_text(n * 1_073_741_824) == decimal(n) + seq!['.', '0', '0'] + " GiB"@,
        size_text(n * 1_099_511_627_776) == decimal(n) + seq!['.', '0', '0'] + " TiB"@,
        size_text(0) == "—"@,
{
    lemma_integer_text(n);
    lemma_integer_order(n, 1024);
    let k = n * 1024;
    let m = n * 1_048_576;
    let g = n * 1_073_741_824;
    let t = n * 1_099_511_627_776;
    lemma_integer_quotient(n, 1024);
    lemma_integer_quotient(k, 1024);
    lemma_integer_quotient(m, 1024);
    lemma_integer_quotient(g, 1024);
    assert(k * 1024 == m && m * 1024 == g && g * 1024 == t);
    lemma_integer_order(k, 1024);
    lemma_integer_order(m, 1024);
    lemma_integer_order(g, 1024);
    lemma_integer_order(t, 1024);
}

/// A size from one kibibyte on and below one mebibyte is told in kibibytes, with
/// two decimal places.
pub proof fn lemma_size_in_kibibytes(bytes: int)
    requires
        1024 <= bytes < 1_048_576,
    ensures
        size_text(bytes) == hundredth_text(quotient(of_integer(bytes), of_integer(1024)))
            + " KiB"@,
{
    lemma_integer_order(bytes, 1024);
    lemma_quotient_less(bytes, 1024, 1024);
}

/// Ages are told in the largest unit that fits: full minutes below an hour, full
/// hours below a day, and full days from there on.
pub proof fn lemma_short_durations(n: int, rest: int)
    ensures
        n < 60 ==> short_duration(n) == decimal(n) + "s"@,
        1 <= n < 60 && 0 <= rest < 60 ==> short_duration(60 * n + rest) == decimal(n) + "m"@,
        1 <= n < 24 && 0 <= rest < 3600 ==> short_duration(3600 * n + rest) == decimal(n) + "h"@,
        1 <= n && 0 <= rest < 86_400 ==> short_duration(86_400 * n + rest) == decimal(n) + "d"@,
{
}

/// The short form of a name is what stands behind its last slash, and the whole of
/// a name without one.
pub proof fn lemma_local_name(front: Seq<char>, name: Seq<char>)
    requires
        forall|i: int| 0 <= i < name.len() ==> #[trigger] name[i] != '/',
    ensures
        local_name(front + "/"@ + name) == name,
        local_name(name) == name,
{
    reveal_strlit("/");
    let pat = "/"@;
    assert(pat.len() == 1 && pat[0] == '/');
    let s = front + pat + name;
    let k = front.len() as int;
    lemma_rfind_upto(s, pat, s.len() as int);
    lemma_rfind_upto(name, pat, name.len() as int);
    assert(s.subrange(k, k + 1) =~= pat);
    assert(occurs_at(s, pat, k));
    let i = last(s, pat)->0;
    if i > k {
        assert(s.subrange(i, i + 1)[0] == s[i]);
        assert(s[i] == name[i - k - 1]);
    }
    assert(s.skip(k + 1) =~= name);
    if last(name, pat) is Some {
        let j = last(name, pat)->0;
        assert(name.subrange(j, j + 1)[0] == name[j]);
    }
}

/// A pattern that ends in a dash does not stand where a text without dashes ends.
proof fn lemma_no_dash_behind(front: Seq<char>, pat: Seq<char>, tail: Seq<char>, i: int)
    requires
        pat.len() > 0,
        pat.last() == '-',
        forall|k: int| 0 <= k < tail.len() ==> #[trigger] tail[k] != '-',
        i > front.len(),
    ensures
        !occurs_at(front + pat + tail, pat, i),
{
    let s = front + pat + tail;
    let n = pat.len() as int;
    if occurs_at(s, pat, i) {
        let at = i + n - 1;
        assert(s.subrange(i, i + n)[n - 1] == s[at]);
        assert(s[at] == tail[at - front.len() - n]);
    }
}

/// The place behind which the pattern does not stand is its last.
proof fn lemma_last_at(s: Seq<char>, pat: Seq<char>, k: int)
    requires
        occurs_at(s, pat, k),
        forall|i: int| i > k ==> !#[trigger] occurs_at(s, pat, i),
    ensures
        last(s, pat) == Some(k),
{
    lemma_rfind_upto(s, pat, s.len() as int);
}

/// A partition is called by its number.
pub proof fn lemma_partition_called(topic: Seq<char>, number: Seq<char>)
    requires
        forall|i: int| 0 <= i < number.len() ==> #[trigger] number[i] != '-',
    ensures
        partition_name(topic + "-partition-"@ + number) == "p"@ + number,
{
    let pat = "-partition-"@;
    let s = topic + pat + number;
    let k = topic.len() as int;
    assert(pat.len() == 11 && pat.last() == '-') by {
        reveal_strlit("-partition-");
    }
    assert(occurs_at(s, pat, k)) by {
        assert(s.subrange(k, k + 11) =~= pat);
    }
    assert forall|i: int| i > k implies !#[trigger] occurs_at(s, pat, i) by {
        lemma_no_dash_behind(topic, pat, number, i);
    }
    lemma_last_at(s, pat, k);
    assert(s.skip(k + 11) =~= number);
}

/// What the details of a topic list: partitions whose data is lost, partitions at
/// the edge, hot partitions, gaps and the hint, each where there is one, in this
/// order and nothing else.
pub proof fn lemma_detail_lists(h: HealthView)
    ensures
        ({
            let trimmed = h.trimmed_partitions.map_values(
                |t: TrimmedView|
                    partition_name(t.partition) + (if t.waiting_with_backlog {
                        "!"@
                    } else {
                        ""@
                    }),
            );
            let edge = h.at_edge_partitions.map_values(
                |e: AtEdgeView|
                    match e.headroom {
                        Some(n) => partition_name(e.partition) + "(~"@ + decimal(n) + ")"@,
                        None => partition_name(e.partition),
                    },
            );
            let hot = h.hot_partitions.map_values(
                |p: HotView|
                    if p.backlog_bytes > 0 {
                        partition_name(p.partition) + "="@ + decimal(p.backlog) + " ("@ + size_text(
                            p.backlog_bytes,
                        ) + ")"@
                    } else {
                        partition_name(p.partition) + "="@ + decimal(p.backlog)
                    },
            );
            let a = if trimmed.len() > 0 {
                seq!["TRIMMED: "@ + joined(trimmed, ", "@)]
            } else {
                Seq::empty()
            };
            let b = if edge.len() > 0 {
                seq!["edge: "@ + joined(edge, ", "@)]
            } else {
                Seq::empty()
            };
            let c = if hot.len() > 0 {
                seq!["hot: "@ + joined(hot, ", "@)]
            } else {
                Seq::empty()
            };
            let d = if h.partition_gaps.len() > 0 {
                seq!["gaps: "@ + joined(h.partition_gaps.map_values(gap_item()), ", "@)]
            } else {
                Seq::empty()
            };
            let e = if h.kube_hint is Some {
                seq![h.kube_hint->0]
            } else {
                Seq::empty()
            };
            &&& h.error is None ==> detail_text(h) == joined(a + b + c + d + e, "; "@)
            &&& h.error matches Some(m) ==> detail_text(h) == m
        }),
{
    let f = |t: TrimmedView|
        partition_name(t.partition) + (if t.waiting_with_backlog {
            "!"@
        } else {
            ""@
        });
    let g = |e: AtEdgeView|
        match e.headroom {
            Some(n) => partition_name(e.partition) + "(~"@ + decimal(n) + ")"@,
            None => partition_name(e.partition),
        };
    let k = |p: HotView|
        if p.backlog_bytes > 0 {
            partition_name(p.partition) + "="@ + decimal(p.backlog) + " ("@ + size_text(
                p.backlog_bytes,
            ) + ")"@
        } else {
            partition_name(p.partition) + "="@ + decimal(p.backlog)
        };
    assert(trimmed_item() =~= f);
    assert(edge_item() =~= g);
    assert(hot_item() =~= k);
}

/// A gap is told with its reason in short.
pub proof fn lemma_gap_told(partition: Seq<char>)
    ensures
        gap_item()(GapView { partition, reason: "subscription_missing"@ }) == partition_name(
            partition,
        ) + " ("@ + "no-sub"@ + ")"@,
        gap_item()(GapView { partition, reason: "no_consumers"@ }) == partition_name(partition)
            + " ("@ + "no-consumers"@ + ")"@,
{
    reveal_strlit("subscription_missing");
    reveal_strlit("no_consumers");
    assert("subscription_missing"@.len() == 20 && "no_consumers"@.len() == 12);
}

/// The colours of figures: red and bold from the critical threshold on, yellow from
/// the warning threshold on, green below, and none without thresholds.
pub proof fn lemma_figure_colours(v: int, text: Seq<char>, warn: Option<i64>, crit: Option<i64>)
    ensures
        ({
            let look = figure_look(Some(v), text, warn, crit);
            let over = |t: Option<i64>| t is Some && t->0 <= v;
            &&& look.text == text && look.right && look.bg is None
            &&& over(crit) <==> look.fg == Some(Paint::Red)
            &&& look.bold <==> over(crit)
            &&& over(warn) && !over(crit) <==> look.fg == Some(Paint::Yellow)
            &&& look.fg is None <==> warn is None && crit is None
            &&& look.fg is Some ==> look.fg == Some(Paint::Red) || look.fg == Some(Paint::Yellow)
                || look.fg == Some(Paint::Green)
        }),
{
}

/// The colour of the headroom: red where data is lost or no room is left, else
/// yellow where a partition is at the edge, else green.
pub proof fn lemma_headroom_colours(h: HealthView)
    ensures
        h.min_headroom is None ==> headroom_look(h).text == "—"@ && headroom_look(h).fg is None,
        h.min_headroom matches Some(n) ==> {
            let look = headroom_look(h);
            &&& look.text == decimal(n) && look.right
            &&& look.fg == Some(Paint::Red) <==> h.trimmed_partitions.len() > 0 || n <= 0
            &&& look.fg == Some(Paint::Yellow) <==> h.trimmed_partitions.len() == 0 && n > 0
                && h.at_edge_partitions.len() > 0
            &&& look.fg == Some(Paint::Green) <==> h.trimmed_partitions.len() == 0 && n > 0
                && h.at_edge_partitions.len() == 0
            &&& look.bold <==> look.fg == Some(Paint::Red)
        },
{
}

/// The colours of statuses and trends.
pub proof fn lemma_status_colours(status: Status, trend: Trend)
    ensures
        status_look(status).fg == Some(Paint::Green) <==> status == Status::Healthy,
        status_look(status).fg == Some(Paint::Yellow) <==> status == Status::Backlog,
        status_look(status).bg == Some(Paint::Red) <==> status == Status::Trimmed,
        status_look(status).bold <==> status == Status::Trimmed || status == Status::Error,
        status == Status::PartitionGap || status == Status::NoConsumers || status
            == Status::MissingSub || status == Status::Error ==> status_look(status).fg == Some(
            Paint::Red,
        ),
        status == Status::Trimmed ==> status_look(status).fg == Some(Paint::White),
        trend_look(trend).fg == Some(Paint::Green) <==> trend == Trend::Draining,
        trend_look(trend).fg == Some(Paint::Red) <==> trend == Trend::Growing,
        trend_look(trend).bold <==> trend == Trend::Growing,
        trend_look(trend).fg == Some(Paint::Yellow) <==> trend == Trend::Stable,
        trend_look(trend).fg == Some(Paint::DarkGrey) <==> trend == Trend::Empty,
{
}

/// The time in a state runs from its start to the run, where both are known and in
/// order.
pub proof fn lemma_time_held(a: int, b: int)
    requires
        0 <= date_of(a / 86_400).0 <= 9999,
        0 <= date_of(b / 86_400).0 <= 9999,
    ensures
        a <= b ==> held_text(Some(rfc3339(a)), rfc3339(b)) == duration_text(b - a),
        a > b ==> held_text(Some(rfc3339(a)), rfc3339(b)) == "—"@,
        held_text(None, rfc3339(b)) == "—"@,
{
    lemma_parse_of_format(a);
    lemma_parse_of_format(b);
}

/// Every cell stands under its title.
pub proof fn lemma_columns(
    h: HealthView,
    colors: ColorThresholds,
    run_at: Seq<char>,
    time: bool,
    drain: bool,
)
    ensures
        ({
            let titles = topic_titles(time, drain);
            let row = topic_row(h, colors, run_at, time, drain);
            let k: int = if time {
                3
            } else {
                2
            };
            let n = titles.len() as int;
            &&& row.len() == n
            &&& titles[0] == "TOPIC"@ && row[0].text == h.topic
            &&& titles[1] == "STATUS"@ && row[1] == status_look(h.status)
            &&& time ==> titles[2] == "TIME"@ && row[2].text == held_text(h.state_since, run_at)
            &&& titles[k] == "BACKLOG"@ && row[k] == figure_look(
                h.total_backlog,
                number_or_dash(h.total_backlog),
                colors.backlog_warn,
                colors.backlog_crit,
            )
            &&& titles[k + 1] == "SIZE"@ && row[k + 1] == figure_look(
                h.backlog_bytes,
                size_or_dash(h.backlog_bytes),
                colors.size_warn,
                colors.size_crit,
            )
            &&& titles[k + 2] == "CONSUMERS"@ && row[k + 2].text == number_or_dash(h.consumers)
            &&& titles[k + 3] == "UNACKED"@ && row[k + 3] == figure_look(
                h.unacked_messages,
                number_or_dash(h.unacked_messages),
                colors.unacked_warn,
                colors.unacked_crit,
            )
            &&& titles[k + 4] == "RATE OUT"@ && row[k + 4].text == tenth_text(h.msg_rate_out)
            &&& titles[k + 5] == "HEADROOM"@ && row[k + 5] == headroom_look(h)
            &&& drain ==> titles[k + 6] == "TREND"@ && titles[k + 7] == "NET/s"@ && titles[k + 8]
                == "ETA"@
            &&& drain && h.drain is Some ==> row[k + 6] == trend_look(h.drain->0.trend) && row[k
                + 7].text == signed_tenth_text(h.drain->0.net_per_sec)
            &&& drain && h.drain is Some && h.drain->0.eta_secs is Some ==> row[k + 8].text
                == eta_text(h.drain->0.eta_secs->0)
            &&& titles[n - 1] == "DETAIL"@ && row[n - 1].text == detail_text(h)
            &&& n == k + 7 + (if drain {
                3int
            } else {
                0
            })
        }),
{
}

/// A figure is shown as it is, and one that was not measured as a dash.
pub proof fn lemma_figures_shown(n: int)
    ensures
        number_or_dash(Some(n)) == decimal(n),
        number_or_dash(None) == "—"@,
        size_or_dash(Some(n)) == size_text(n),
        size_or_dash(None) == "—"@,
{
}

/// The columns on time and on the trend are there exactly where a topic has
/// something to show in them.
pub proof fn lemma_optional_columns(list: Seq<TopicHealth>)
    ensures
        topic_titles(any_since(list), any_drain(list)).contains("TIME"@) <==> exists|i: int|
            0 <= i < list.len() && (#[trigger] list[i]).state_since is Some,
        topic_titles(any_since(list), any_drain(list)).contains("TREND"@) <==> exists|i: int|
            0 <= i < list.len() && (#[trigger] list[i]).drain is Some,
{
    reveal_strlit("TOPIC");
    reveal_strlit("STATUS");
    reveal_strlit("TIME");
    reveal_strlit("BACKLOG");
    reveal_strlit("SIZE");
    reveal_strlit("CONSUMERS");
    reveal_strlit("UNACKED");
    reveal_strlit("RATE OUT");
    reveal_strlit("HEADROOM");
    reveal_strlit("TREND");
    reveal_strlit("NET/s");
    reveal_strlit("ETA");
    reveal_strlit("DETAIL");
    assert("TIME"@[1] == 'I' && "TREND"@[1] == 'R' && "TOPIC"@[1] == 'O' && "STATUS"@[0] == 'S');
    assert("BACKLOG"@[0] == 'B' && "SIZE"@[0] == 'S' && "CONSUMERS"@[0] == 'C');
    assert("UNACKED"@[0] == 'U' && "RATE OUT"@[0] == 'R' && "HEADROOM"@[0] == 'H');
    assert("NET/s"@[0] == 'N' && "ETA"@[0] == 'E' && "DETAIL"@[0] == 'D');
    assert("TIME"@[0] == 'T' && "TREND"@[0] == 'T' && "TOPIC"@[0] == 'T');
    let t = topic_titles(any_since(list), any_drain(list));
    if any_since(list) {
        assert(t[2] == "TIME"@);
    }
    if any_drain(list) {
        assert(t[if any_since(list) {
            9
        } else {
            8
        }] == "TREND"@);
    }
}

} // verus!
