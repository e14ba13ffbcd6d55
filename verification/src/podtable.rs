//! The section on the consumer deployment: a table of its pods, and what else is
//! worth a line.

use crate::decimal::{count_text, decimal, decimal_text, unsigned_text};
use crate::float::{lemma_quotient_less, ratio, ratio_of};
use crate::kube::labels::{discovery_text, format_discovery};
use crate::kube::quantity::{cpu_text, format_cpu};
use crate::kube::signals::{is_reconnect_storm, STORM};
use crate::kube::{fraction, lemma_fraction, ConfigAssertion, KubeEvent, KubeReport, LogSignal, LogStats, NodeInfo, PodSummary};
use crate::number::{Double, EXACT};
use crate::output::{format_bytes, format_short_duration, short_duration, size_text};
use crate::table::{
    add_row, cell_look, draw, looks, new_cell, set_bg, set_bold, set_fg, set_right, table_header, table_layout, table_rows,
    drawn_as, for_terminal, titled,
    Look, Paint,
};
use crate::text::{cat2, cat3, cat4, cat5, cat6, cat8, copy_of, glued, join, joined, lemma_glued_push, same};
use comfy_table::{Cell, Table};
use vstd::prelude::*;

verus! {

// ── Pods ─────────────────────────────────────────────────────────────────────

/// A quantity, or a dot where it is not known.
pub open spec fn cpu_or_dot(n: Option<i64>) -> Seq<char> {
    match n {
        Some(v) => cpu_text(v as int),
        None => "·"@,
    }
}

/// A size, or a dot where it is not known.
pub open spec fn size_or_dot(n: Option<i64>) -> Seq<char> {
    match n {
        Some(v) => size_text(v as int),
        None => "·"@,
    }
}

/// CPU in use and its limit.
pub open spec fn cpu_usage(p: PodSummary) -> Seq<char> {
    cpu_or_dot(p.cpu_used_milli) + "/"@ + cpu_or_dot(p.cpu_limit_milli)
}

/// Memory in use and its limit.
pub open spec fn mem_usage(p: PodSummary) -> Seq<char> {
    size_or_dot(p.mem_used_bytes) + "/"@ + size_or_dot(p.mem_limit_bytes)
}

/// `a` is a number that is not less than the number `b`.
pub open spec fn at_least(a: Double, b: Double) -> bool {
    b.less(a) || b.equals(a)
}

/// A use coloured by how much of its limit it is.
pub open spec fn resource_look(text: Seq<char>, part: Option<Double>) -> Look {
    let cell = Look::plain(text).right();
    match part {
        None => cell,
        Some(f) => if at_least(f, ratio(9, 10)) {
            cell.fg(Paint::Red).bold()
        } else if at_least(f, ratio(7, 10)) {
            cell.fg(Paint::Yellow)
        } else {
            cell.fg(Paint::Green)
        },
    }
}

/// The state of a pod in a word: lost rows come first, then memory running out,
/// which can still be helped, then a kill that has happened.
pub open spec fn state_text(p: PodSummary) -> Seq<char> {
    if p.transform_error {
        "DLQ-ERROR"@
    } else if p.memory_pressure {
        "MEM-CRITICAL"@
    } else if p.oom_killed {
        "OOMKilled"@
    } else {
        match p.reason {
            Some(r) => r@,
            None => "Running"@,
        }
    }
}

/// The state of a pod.
pub open spec fn state_look(p: PodSummary) -> Look {
    let cell = Look::plain(state_text(p));
    if p.transform_error || p.memory_pressure || p.oom_killed {
        cell.fg(Paint::White).bg(Paint::Red).bold()
    } else if state_text(p) == "Running"@ {
        cell.fg(Paint::Green)
    } else {
        cell.fg(Paint::Yellow)
    }
}

/// How many containers are ready.
pub open spec fn ready_text(p: PodSummary) -> Seq<char> {
    decimal(p.ready as int) + "/"@ + decimal(p.total_containers as int)
}

/// An age, or `—` where it is not known.
pub open spec fn age_or_dash(n: Option<i64>) -> Seq<char> {
    match n {
        Some(v) => short_duration(v as int),
        None => "—"@,
    }
}

/// One pod.
pub open spec fn pod_row(p: PodSummary) -> Seq<Look> {
    seq![
        Look::plain(p.name@),
        if p.is_ready() {
            Look::plain(ready_text(p)).fg(Paint::Green)
        } else {
            Look::plain(ready_text(p)).fg(Paint::Red).bold()
        },
        Look::plain(decimal(p.restarts as int)).right(),
        Look::plain(age_or_dash(p.age_secs)).right(),
        resource_look(cpu_usage(p), fraction(p.cpu_used_milli, p.cpu_limit_milli)),
        resource_look(mem_usage(p), fraction(p.mem_used_bytes, p.mem_limit_bytes)),
        state_look(p),
    ]
}

/// The titles of the columns.
pub open spec fn pod_titles() -> Seq<Look> {
    seq![
        Look::plain("POD"@).bold(),
        Look::plain("READY"@).bold(),
        Look::plain("RESTARTS"@).bold(),
        Look::plain("AGE"@).bold(),
        Look::plain("CPU"@).bold(),
        Look::plain("MEM"@).bold(),
        Look::plain("STATE"@).bold(),
    ]
}

/// CPU in use and its limit: `120m/2`, with a dot for what is not known.
pub fn cpu_usage_text(p: &PodSummary) -> (r: String)
    ensures
        r@ == cpu_usage(*p),
{
    let used = match p.cpu_used_milli {
        Some(n) => format_cpu(n),
        None => copy_of("·"),
    };
    let limit = match p.cpu_limit_milli {
        Some(n) => format_cpu(n),
        None => copy_of("·"),
    };
    cat3(used.as_str(), "/", limit.as_str())
}

/// Memory in use and its limit.
pub fn mem_usage_text(p: &PodSummary) -> (r: String)
    ensures
        r@ == mem_usage(*p),
{
    let used = match p.mem_used_bytes {
        Some(n) => format_bytes(n),
        None => copy_of("·"),
    };
    let limit = match p.mem_limit_bytes {
        Some(n) => format_bytes(n),
        None => copy_of("·"),
    };
    cat3(used.as_str(), "/", limit.as_str())
}

/// Whether `a` is a number that is not less than the number `b`.
fn reaches(a: Double, b: Double) -> (r: bool)
    ensures
        r == at_least(a, b),
{
    b.is_less(a) || b.is_equal(a)
}

/// A use coloured by how much of its limit it is: green below 70 per cent,
/// yellow below 90, then red.
fn resource_cell(text: &str, part: Option<Double>) -> (r: Cell)
    ensures
        cell_look(r) == resource_look(text@, part),
{
    let cell = set_right(new_cell(text));
    match part {
        None => cell,
        Some(f) => if reaches(f, ratio_of(9, 10)) {
            set_bold(set_fg(cell, Paint::Red))
        } else if reaches(f, ratio_of(7, 10)) {
            set_fg(cell, Paint::Yellow)
        } else {
            set_fg(cell, Paint::Green)
        },
    }
}

/// The state of a pod in a word.
pub fn pod_state(p: &PodSummary) -> (r: String)
    ensures
        r@ == state_text(*p),
{
    if p.transform_error {
        copy_of("DLQ-ERROR")
    } else if p.memory_pressure {
        copy_of("MEM-CRITICAL")
    } else if p.oom_killed {
        copy_of("OOMKilled")
    } else {
        match &p.reason {
            Some(r) => copy_of(r.as_str()),
            None => copy_of("Running"),
        }
    }
}

/// The state of a pod.
fn state_cell(p: &PodSummary) -> (r: Cell)
    ensures
        cell_look(r) == state_look(*p),
{
    let text = pod_state(p);
    let cell = new_cell(text.as_str());
    if p.transform_error || p.memory_pressure || p.oom_killed {
        set_bold(set_bg(set_fg(cell, Paint::White), Paint::Red))
    } else if same(text.as_str(), "Running") {
        set_fg(cell, Paint::Green)
    } else {
        set_fg(cell, Paint::Yellow)
    }
}

/// How many containers are ready.
pub fn pod_ready_text(p: &PodSummary) -> (r: String)
    ensures
        r@ == ready_text(*p),
{
    cat3(
        unsigned_text(p.ready as u64).as_str(),
        "/",
        unsigned_text(p.total_containers as u64).as_str(),
    )
}

/// An age, or `—` where it is not known.
pub fn age_text(n: Option<i64>) -> (r: String)
    ensures
        r@ == age_or_dash(n),
{
    match n {
        Some(v) => format_short_duration(v),
        None => copy_of("—"),
    }
}

/// One pod.
fn pod_cells(p: &PodSummary) -> (r: Vec<Cell>)
    ensures
        looks(r@) == pod_row(*p),
{
    let mut r: Vec<Cell> = Vec::new();
    r.push(new_cell(p.name.as_str()));
    let ready = new_cell(pod_ready_text(p).as_str());
    r.push(
        if p.all_ready() {
            set_fg(ready, Paint::Green)
        } else {
            set_bold(set_fg(ready, Paint::Red))
        },
    );
    r.push(set_right(new_cell(decimal_text(p.restarts as i64).as_str())));
    r.push(set_right(new_cell(age_text(p.age_secs).as_str())));
    r.push(resource_cell(cpu_usage_text(p).as_str(), p.cpu_fraction()));
    r.push(resource_cell(mem_usage_text(p).as_str(), p.mem_fraction()));
    r.push(state_cell(p));
    assert(looks(r@) =~= pod_row(*p));
    r
}

/// The table shows the pods: a row for each, below the titles.
pub open spec fn shows_pods(t: Table, pods: Seq<PodSummary>) -> bool {
    &&& table_header(t) == Some(pod_titles())
    &&& table_layout(t) == for_terminal()
    &&& table_rows(t).len() == pods.len()
    &&& forall|i: int| 0 <= i < pods.len() ==> #[trigger] table_rows(t)[i] == pod_row(pods[i])
}

/// The table of pods: one row for each, in their order.
pub fn pod_table(pods: &Vec<PodSummary>) -> (r: Table)
    ensures
        shows_pods(r, pods@),
{
    let names = ["POD", "READY", "RESTARTS", "AGE", "CPU", "MEM", "STATE"];
    let mut table = titled(&names);
    assert(table_header(table)->0 =~= pod_titles());
    for i in 0..pods.len()
        invariant
            table_header(table) == Some(pod_titles()),
            table_layout(table) == for_terminal(),
            table_rows(table).len() == i,
            forall|j: int| 0 <= j < i ==> #[trigger] table_rows(table)[j] == pod_row(pods@[j]),
    {
        add_row(&mut table, pod_cells(&pods[i]));
    }
    table
}

// ── Alerts ───────────────────────────────────────────────────────────────────

/// A line, where the condition holds.
pub open spec fn line_if(on: bool, text: Seq<char>) -> Seq<Seq<char>> {
    if on {
        seq![text]
    } else {
        Seq::empty()
    }
}

/// What the logs of the pods warn of.
pub open spec fn alerts(s: LogStats) -> Seq<Seq<char>> {
    line_if(
        s.transform_errors > 0,
        "⚠ TRANSFORM/DLQ ERRORS: "@ + decimal(s.transform_errors as int)
            + " — rows dropped to DLQ (silent data loss)"@,
    ) + line_if(
        s.oom_warnings > 0,
        "⚠ MEMORY PRESSURE: "@ + decimal(s.oom_warnings as int)
            + " pre-OOM warning(s) — OOM kill imminent"@,
    ) + line_if(
        s.throughput_collapsed,
        "⚠ THROUGHPUT COLLAPSE: a pod was processing, now at 0 rps"@,
    ) + line_if(
        s.reconnects >= STORM,
        "⚠ RECONNECT STORM: "@ + decimal(s.reconnects as int) + " reconnects"@,
    ) + line_if(
        s.backpressure > 0,
        "⚠ BACKPRESSURE: "@ + decimal(s.backpressure as int)
            + " throttle/channel-full signal(s)"@,
    )
}

/// Add a line, where the condition holds.
fn add_if(out: &mut Vec<String>, on: bool, text: String)
    ensures
        final(out).deep_view() == old(out).deep_view() + line_if(on, text@),
{
    let ghost before = out.deep_view();
    if on {
        out.push(text);
    }
    assert(out.deep_view() =~= before + line_if(on, text@));
}

/// What the logs of the pods warn of.
pub fn alert_texts(s: &LogStats) -> (r: Vec<String>)
    ensures
        r.deep_view() == alerts(*s),
{
    let mut r: Vec<String> = Vec::new();
    let lost = cat3(
        "⚠ TRANSFORM/DLQ ERRORS: ",
        count_text(s.transform_errors).as_str(),
        " — rows dropped to DLQ (silent data loss)",
    );
    assert(r.deep_view() + line_if(s.transform_errors > 0, lost@) =~= line_if(
        s.transform_errors > 0,
        lost@,
    ));
    add_if(&mut r, s.transform_errors > 0, lost);
    let memory = cat3(
        "⚠ MEMORY PRESSURE: ",
        count_text(s.oom_warnings).as_str(),
        " pre-OOM warning(s) — OOM kill imminent",
    );
    add_if(&mut r, s.oom_warnings > 0, memory);
    let collapse = copy_of("⚠ THROUGHPUT COLLAPSE: a pod was processing, now at 0 rps");
    add_if(&mut r, s.throughput_collapsed, collapse);
    let storm = cat3("⚠ RECONNECT STORM: ", count_text(s.reconnects).as_str(), " reconnects");
    add_if(&mut r, is_reconnect_storm(s.reconnects), storm);
    let pressure = cat3(
        "⚠ BACKPRESSURE: ",
        count_text(s.backpressure).as_str(),
        " throttle/channel-full signal(s)",
    );
    add_if(&mut r, s.backpressure > 0, pressure);
    r
}

// ── Lines below the table ────────────────────────────────────────────────────

/// The names of the pods that have the property.
pub open spec fn names_where(pods: Seq<PodSummary>, p: spec_fn(PodSummary) -> bool) -> Seq<
    Seq<char>,
>
    decreases pods.len(),
{
    if pods.len() == 0 {
        Seq::empty()
    } else if p(pods.last()) {
        names_where(pods.drop_last(), p).push(pods.last().name@)
    } else {
        names_where(pods.drop_last(), p)
    }
}

/// The logs of the pod tell of lost rows.
pub open spec fn losing() -> spec_fn(PodSummary) -> bool {
    |p: PodSummary| p.transform_error
}

/// The logs of the pod warn of memory running out.
pub open spec fn pressed() -> spec_fn(PodSummary) -> bool {
    |p: PodSummary| p.memory_pressure
}

/// The pods behind a label, where there are any.
pub open spec fn pods_line(label: Seq<char>, names: Seq<Seq<char>>) -> Seq<Seq<char>> {
    line_if(names.len() > 0, label + joined(names, ", "@))
}

/// A text set in from the edge.
pub open spec fn indented() -> spec_fn(Seq<char>) -> Seq<char> {
    |s: Seq<char>| "  "@ + s
}

/// What the logs warn of, and which pods it is about.
pub open spec fn banners(report: KubeReport) -> Seq<Seq<char>> {
    (match report.log_stats {
        Some(s) => alerts(s),
        None => Seq::empty(),
    }) + pods_line("DLQ-ERROR on: "@, names_where(report.pods@, losing())) + pods_line(
        "MEM-CRITICAL on: "@,
        names_where(report.pods@, pressed()),
    )
}

/// What a node can allocate.
pub open spec fn node_line() -> spec_fn(NodeInfo) -> Seq<char> {
    |n: NodeInfo|
        "  node "@ + n.name@ + (match n.instance_type {
            Some(t) => " ["@ + t@ + "]"@,
            None => ""@,
        }) + ": "@ + (match n.alloc_cpu_milli {
            Some(v) => cpu_text(v as int),
            None => "?"@,
        }) + " CPU / "@ + (match n.alloc_mem_bytes {
            Some(v) => size_text(v as int),
            None => "?"@,
        }) + " allocatable"@
}

/// A setting that is not as expected.
pub open spec fn assertion_line(a: ConfigAssertion) -> Seq<char> {
    "  ✗ config "@ + a.key@ + ": expected "@ + a.expected@ + ", got "@ + (match a.actual {
        Some(v) => v@,
        None => "(absent)"@,
    })
}

/// The settings that are not as expected.
pub open spec fn assertion_lines(list: Seq<ConfigAssertion>) -> Seq<Seq<char>>
    decreases list.len(),
{
    if list.len() == 0 {
        Seq::empty()
    } else if list.last().pass {
        assertion_lines(list.drop_last())
    } else {
        assertion_lines(list.drop_last()).push(assertion_line(list.last()))
    }
}

/// An event.
pub open spec fn event_line() -> spec_fn(KubeEvent) -> Seq<char> {
    |e: KubeEvent|
        "    "@ + e.reason@ + " "@ + e.involved@ + (match e.age_secs {
            Some(n) => " ("@ + short_duration(n as int) + " ago)"@,
            None => ""@,
        })
}

/// A signal in a log.
pub open spec fn signal_line() -> spec_fn(LogSignal) -> Seq<char> {
    |s: LogSignal| "    ["@ + s.kind@ + "] "@ + s.pod@ + ": "@ + s.line@
}

/// The first `n` items, or all where there are fewer.
pub open spec fn up_to<T>(list: Seq<T>, n: int) -> Seq<T> {
    if list.len() > n {
        list.take(n)
    } else {
        list
    }
}

/// The most events that are shown.
pub const EVENTS: usize = 10;

/// The most log signals that are shown.
pub const SIGNALS: usize = 15;

/// From how many seconds on a rollout skew is worth a line.
pub const SKEWED: i64 = 300;

/// The lines below the table of pods.
pub open spec fn section_lines(report: KubeReport) -> Seq<Seq<char>> {
    banners(report).map_values(indented()) + report.nodes@.map_values(node_line()) + line_if(
        report.images@.len() > 1,
        "  ⚠ split rollout: "@ + decimal(report.images@.len() as int) + " distinct images ("@
            + joined(report.images.deep_view(), ", "@) + ")"@,
    ) + (match report.rollout_skew_secs {
        Some(n) => line_if(
            n > SKEWED,
            "  ⚠ rollout skew "@ + short_duration(n as int) + " — pods not restarted together"@,
        ),
        None => Seq::empty(),
    }) + assertion_lines(report.config_assertions@) + line_if(
        report.events@.len() > 0,
        "  events:"@,
    ) + up_to(report.events@, EVENTS as int).map_values(event_line()) + line_if(
        report.log_signals@.len() > 0,
        "  log signals:"@,
    ) + up_to(report.log_signals@, SIGNALS as int).map_values(signal_line())
}

/// A text on a line of its own.
pub open spec fn on_line() -> spec_fn(Seq<char>) -> Seq<char> {
    |s: Seq<char>| s + "\n"@
}

/// The section on the consumer deployment, given its table of pods as text.
pub open spec fn section_text(report: KubeReport, drawn: Seq<char>) -> Seq<char> {
    "kubernetes: namespace "@ + report.namespace@ + "\n"@ + (match report.error {
        Some(e) => "  unreachable: "@ + e@ + "\n"@,
        None => if report.pods@.len() == 0 {
            match report.discovery {
                Some(d) => discovery_text(d),
                None => "  no pods matched the selector\n"@,
            }
        } else {
            drawn + "\n"@ + glued(section_lines(report).map_values(on_line()))
        },
    })
}

/// What the nodes can allocate.
fn node_lines(list: &Vec<NodeInfo>) -> (r: Vec<String>)
    ensures
        r.deep_view() == list@.map_values(node_line()),
{
    let mut r: Vec<String> = Vec::new();
    for i in 0..list.len()
        invariant
            r@.len() == i,
            forall|j: int| 0 <= j < i ==> (#[trigger] r@[j])@ == node_line()(list@[j]),
    {
        let x = &list[i];
        let kind = match &x.instance_type {
            Some(t) => cat3(" [", t.as_str(), "]"),
            None => copy_of(""),
        };
        let cpu = match x.alloc_cpu_milli {
            Some(v) => format_cpu(v),
            None => copy_of("?"),
        };
        let mem = match x.alloc_mem_bytes {
            Some(v) => format_bytes(v),
            None => copy_of("?"),
        };
        let text = cat8(
            "  node ",
            x.name.as_str(),
            kind.as_str(),
            ": ",
            cpu.as_str(),
            " CPU / ",
            mem.as_str(),
            " allocatable",
        );
        r.push(text);
    }
    assert(r.deep_view() =~= list@.map_values(node_line()));
    r
}

/// The first events.
fn event_lines(list: &Vec<KubeEvent>) -> (r: Vec<String>)
    ensures
        r.deep_view() == up_to(list@, EVENTS as int).map_values(event_line()),
{
    let mut r: Vec<String> = Vec::new();
    let n: usize = if list.len() > EVENTS { EVENTS } else { list.len() };
    for i in 0..n
        invariant
            n <= list@.len(),
            r@.len() == i,
            forall|j: int| 0 <= j < i ==> (#[trigger] r@[j])@ == event_line()(list@[j]),
    {
        let x = &list[i];
        let age = match x.age_secs {
            Some(n) => cat3(" (", format_short_duration(n).as_str(), " ago)"),
            None => copy_of(""),
        };
        let text = cat5("    ", x.reason.as_str(), " ", x.involved.as_str(), age.as_str());
        r.push(text);
    }
    assert(r.deep_view() =~= up_to(list@, EVENTS as int).map_values(event_line()));
    r
}

/// The first signals.
fn signal_lines(list: &Vec<LogSignal>) -> (r: Vec<String>)
    ensures
        r.deep_view() == up_to(list@, SIGNALS as int).map_values(signal_line()),
{
    let mut r: Vec<String> = Vec::new();
    let n: usize = if list.len() > SIGNALS { SIGNALS } else { list.len() };
    for i in 0..n
        invariant
            n <= list@.len(),
            r@.len() == i,
            forall|j: int| 0 <= j < i ==> (#[trigger] r@[j])@ == signal_line()(list@[j]),
    {
        let x = &list[i];
        let text = cat6("    [", x.kind.as_str(), "] ", x.pod.as_str(), ": ", x.line.as_str());
        r.push(text);
    }
    assert(r.deep_view() =~= up_to(list@, SIGNALS as int).map_values(signal_line()));
    r
}

/// The settings that are not as expected.
fn failed_assertions(list: &Vec<ConfigAssertion>) -> (r: Vec<String>)
    ensures
        r.deep_view() == assertion_lines(list@),
{
    let mut r: Vec<String> = Vec::new();
    assert(r.deep_view() =~= Seq::empty());
    for i in 0..list.len()
        invariant
            r.deep_view() == assertion_lines(list@.take(i as int)),
    {
        let ghost before = r.deep_view();
        assert(list@.take(i + 1).drop_last() =~= list@.take(i as int));
        assert(list@.take(i + 1).last() == list@[i as int]);
        let a = &list[i];
        if !a.pass {
            let actual = match &a.actual {
                Some(v) => copy_of(v.as_str()),
                None => copy_of("(absent)"),
            };
            let text = cat6(
                "  ✗ config ",
                a.key.as_str(),
                ": expected ",
                a.expected.as_str(),
                ", got ",
                actual.as_str(),
            );
            r.push(text);
            assert(r.deep_view() =~= before.push(text@));
        }
    }
    assert(list@.take(list@.len() as int) =~= list@);
    r
}

/// The names of the pods whose logs tell of lost rows, and of those whose logs
/// warn of memory running out.
fn affected(pods: &Vec<PodSummary>) -> (r: (Vec<String>, Vec<String>))
    ensures
        r.0.deep_view() == names_where(pods@, losing()),
        r.1.deep_view() == names_where(pods@, pressed()),
{
    let mut lost: Vec<String> = Vec::new();
    let mut tight: Vec<String> = Vec::new();
    assert(lost.deep_view() =~= Seq::empty());
    assert(tight.deep_view() =~= Seq::empty());
    for i in 0..pods.len()
        invariant
            lost.deep_view() == names_where(pods@.take(i as int), losing()),
            tight.deep_view() == names_where(pods@.take(i as int), pressed()),
    {
        let ghost (a, b) = (lost.deep_view(), tight.deep_view());
        assert(pods@.take(i + 1).drop_last() =~= pods@.take(i as int));
        assert(pods@.take(i + 1).last() == pods@[i as int]);
        let p = &pods[i];
        if p.transform_error {
            lost.push(copy_of(p.name.as_str()));
            assert(lost.deep_view() =~= a.push(p.name@));
        }
        if p.memory_pressure {
            tight.push(copy_of(p.name.as_str()));
            assert(tight.deep_view() =~= b.push(p.name@));
        }
    }
    assert(pods@.take(pods@.len() as int) =~= pods@);
    (lost, tight)
}

/// What the logs warn of, and which pods it is about.
pub fn banner_texts(report: &KubeReport) -> (r: Vec<String>)
    ensures
        r.deep_view() == banners(*report),
{
    let mut r: Vec<String> = match &report.log_stats {
        Some(s) => alert_texts(s),
        None => Vec::new(),
    };
    assert(r.deep_view() =~= match report.log_stats {
        Some(s) => alerts(s),
        None => Seq::empty(),
    });
    let (lost, tight) = affected(&report.pods);
    let lost_text = cat2("DLQ-ERROR on: ", join(&lost, ", ").as_str());
    add_if(&mut r, lost.len() > 0, lost_text);
    let tight_text = cat2("MEM-CRITICAL on: ", join(&tight, ", ").as_str());
    add_if(&mut r, tight.len() > 0, tight_text);
    r
}

/// The texts, set in from the edge.
fn indent(texts: &Vec<String>) -> (r: Vec<String>)
    ensures
        r.deep_view() == texts.deep_view().map_values(indented()),
{
    let ghost all = texts.deep_view();
    let mut r: Vec<String> = Vec::new();
    for i in 0..texts.len()
        invariant
            all == texts.deep_view(),
            r@.len() == i,
            forall|j: int| 0 <= j < i ==> (#[trigger] r@[j])@ == indented()(all[j]),
    {
        assert(all[i as int] == texts@[i as int]@);
        r.push(cat2("  ", texts[i].as_str()));
    }
    assert(r.deep_view() =~= all.map_values(indented()));
    r
}

/// Add lines behind the others.
fn add_all(out: &mut Vec<String>, more: Vec<String>)
    ensures
        final(out).deep_view() == old(out).deep_view() + more.deep_view(),
{
    let ghost before = out.deep_view();
    let ghost added = more.deep_view();
    let mut more = more;
    out.append(&mut more);
    assert(out.deep_view() =~= before + added);
}

/// The lines below the table of pods.
pub fn kube_lines(report: &KubeReport) -> (r: Vec<String>)
    ensures
        r.deep_view() == section_lines(*report),
{
    let mut r = indent(&banner_texts(report));
    add_all(&mut r, node_lines(&report.nodes));
    let split = cat5(
        "  ⚠ split rollout: ",
        count_text(report.images.len()).as_str(),
        " distinct images (",
        join(&report.images, ", ").as_str(),
        ")",
    );
    add_if(&mut r, report.images.len() > 1, split);
    let ghost before = r.deep_view();
    if let Some(n) = report.rollout_skew_secs {
        let skewed = cat3(
            "  ⚠ rollout skew ",
            format_short_duration(n).as_str(),
            " — pods not restarted together",
        );
        add_if(&mut r, n > SKEWED, skewed);
    }
    assert(r.deep_view() =~= before + (match report.rollout_skew_secs {
        Some(n) => line_if(
            n > SKEWED,
            "  ⚠ rollout skew "@ + short_duration(n as int) + " — pods not restarted together"@,
        ),
        None => Seq::empty(),
    }));
    add_all(&mut r, failed_assertions(&report.config_assertions));
    add_if(&mut r, report.events.len() > 0, copy_of("  events:"));
    add_all(&mut r, event_lines(&report.events));
    add_if(&mut r, report.log_signals.len() > 0, copy_of("  log signals:"));
    add_all(&mut r, signal_lines(&report.log_signals));
    r
}

/// The texts, each on a line of its own.
pub fn lines_text(list: &Vec<String>) -> (r: String)
    ensures
        r@ == glued(list.deep_view().map_values(on_line())),
{
    let mut r = String::new();
    let ghost all = list.deep_view().map_values(on_line());
    assert(all.take(0) =~= Seq::empty());
    for i in 0..list.len()
        invariant
            all == list.deep_view().map_values(on_line()),
            r@ == glued(all.take(i as int)),
    {
        proof {
            lemma_glued_push(all.take(i as int), all[i as int]);
            assert(all.take(i as int).push(all[i as int]) =~= all.take(i + 1));
            assert(list.deep_view()[i as int] == list@[i as int]@);
        }
        r.append(cat2(list[i].as_str(), "\n").as_str());
    }
    assert(all.take(all.len() as int) =~= all);
    r
}

/// The section on the consumer deployment, given its table of pods as text.
pub fn kube_section(report: &KubeReport, drawn: &str) -> (r: String)
    ensures
        r@ == section_text(*report, drawn@),
{
    let body = if let Some(e) = &report.error {
        cat3("  unreachable: ", e.as_str(), "\n")
    } else if report.pods.len() == 0 {
        match &report.discovery {
            Some(d) => format_discovery(d),
            None => copy_of("  no pods matched the selector\n"),
        }
    } else {
        cat3(drawn, "\n", lines_text(&kube_lines(report)).as_str())
    };
    cat4("kubernetes: namespace ", report.namespace.as_str(), "\n", body.as_str())
}

/// The section on the consumer deployment that stands above the table of topics.
/// The table of pods in it is laid out for the terminal.
pub fn render_kube_section(report: &KubeReport) -> (r: String)
    ensures
        exists|t: Table, drawn: Seq<char>| #[trigger]
            drawn_as(t, drawn) && shows_pods(t, report.pods@) && r@ == section_text(*report, drawn),
{
    let table = pod_table(&report.pods);
    let drawn = draw(&table);
    kube_section(report, drawn.as_str())
}

// ── Laws ─────────────────────────────────────────────────────────────────────

/// Lost rows are shown whatever else is wrong with a pod, and memory running out
/// before a kill that has happened.
pub proof fn lemma_state_priority(p: PodSummary)
    ensures
        p.transform_error ==> state_text(p) == "DLQ-ERROR"@,
        !p.transform_error && p.memory_pressure ==> state_text(p) == "MEM-CRITICAL"@,
        !p.transform_error && !p.memory_pressure && p.oom_killed ==> state_text(p) == "OOMKilled"@,
        p.transform_error || p.memory_pressure || p.oom_killed ==> state_look(p).bg == Some(
            Paint::Red,
        ),
{
}

/// A cluster that could not be asked is said to be unreachable, whatever else
/// the report holds.
pub proof fn lemma_unreachable_notice(report: KubeReport, drawn: Seq<char>)
    requires
        report.error is Some,
    ensures
        section_text(report, drawn) == "kubernetes: namespace "@ + report.namespace@ + "\n"@ + (
        "  unreachable: "@ + report.error->0@ + "\n"@),
{
}

/// Every cell of a pod stands under its title, and shows what the title says.
pub proof fn lemma_pod_columns(p: PodSummary)
    ensures
        ({
            let titles = pod_titles();
            let row = pod_row(p);
            &&& titles.len() == 7 && row.len() == 7
            &&& titles[0].text == "POD"@ && row[0].text == p.name@
            &&& titles[1].text == "READY"@ && row[1].text == decimal(p.ready as int) + "/"@
                + decimal(p.total_containers as int)
            &&& row[1].fg == Some(Paint::Green) <==> p.total_containers > 0 && p.ready
                == p.total_containers
            &&& row[1].fg == Some(Paint::Red) <==> !(p.total_containers > 0 && p.ready
                == p.total_containers)
            &&& titles[2].text == "RESTARTS"@ && row[2].text == decimal(p.restarts as int)
            &&& titles[3].text == "AGE"@ && (p.age_secs is Some ==> row[3].text == short_duration(
                p.age_secs->0 as int,
            ))
            &&& titles[4].text == "CPU"@ && row[4] == resource_look(
                cpu_usage(p),
                fraction(p.cpu_used_milli, p.cpu_limit_milli),
            )
            &&& titles[5].text == "MEM"@ && row[5] == resource_look(
                mem_usage(p),
                fraction(p.mem_used_bytes, p.mem_limit_bytes),
            )
            &&& titles[6].text == "STATE"@ && row[6] == state_look(p)
            &&& forall|i: int| 0 <= i < 7 ==> (#[trigger] titles[i]).bold
        }),
{
}

/// A use is shown in front of its limit.
pub proof fn lemma_usage_texts(p: PodSummary, used: i64, limit: i64)
    ensures
        p.cpu_used_milli == Some(used) && p.cpu_limit_milli == Some(limit) ==> cpu_usage(p)
            == cpu_text(used as int) + "/"@ + cpu_text(limit as int),
        p.mem_used_bytes == Some(used) && p.mem_limit_bytes == Some(limit) ==> mem_usage(p)
            == size_text(used as int) + "/"@ + size_text(limit as int),
        p.cpu_used_milli == Some(used) && p.cpu_limit_milli is None ==> cpu_usage(p) == cpu_text(
            used as int,
        ) + "/"@ + "·"@,
        p.mem_used_bytes == Some(used) && p.mem_limit_bytes is None ==> mem_usage(p) == size_text(
            used as int,
        ) + "/"@ + "·"@,
{
}

/// The colour of a use: red from nine tenths of the limit on, yellow from seven
/// tenths on, green below, and none without a limit. A use of the whole limit is
/// red.
pub proof fn lemma_usage_colours(text: Seq<char>, f: Double, limit: i64)
    requires
        !f.nan(),
        0 < limit < EXACT,
    ensures
        resource_look(text, None).fg is None,
        ({
            let nine = ratio(9, 10);
            let seven = ratio(7, 10);
            let look = resource_look(text, Some(f));
            &&& look.text == text && look.right
            &&& look.fg == Some(Paint::Red) <==> nine.less(f) || nine.equals(f)
            &&& look.fg == Some(Paint::Yellow) <==> !(nine.less(f) || nine.equals(f)) && (
            seven.less(f) || seven.equals(f))
            &&& look.fg == Some(Paint::Green) <==> !(nine.less(f) || nine.equals(f)) && !(
            seven.less(f) || seven.equals(f))
            &&& look.bold <==> look.fg == Some(Paint::Red)
        }),
        resource_look(text, fraction(Some(limit), Some(limit))).fg == Some(Paint::Red),
{
    lemma_quotient_less(9, 10, 1);
    lemma_fraction(limit, limit, 1);
}

/// What is alarming about a pod: its logs tell of lost rows or of memory running
/// out, or it was killed. Only a pod that runs is green.
pub proof fn lemma_state_colours(p: PodSummary)
    ensures
        ({
            let look = state_look(p);
            let alarming = p.transform_error || p.memory_pressure || p.oom_killed;
            &&& look.bg == Some(Paint::Red) <==> alarming
            &&& look.bold <==> alarming
            &&& !alarming && p.reason is None ==> look.text == "Running"@
            &&& !alarming && p.reason is Some ==> look.text == p.reason->0@
            &&& look.fg == Some(Paint::Green) <==> !alarming && look.text == "Running"@
            &&& look.fg == Some(Paint::Yellow) <==> !alarming && look.text != "Running"@
        }),
{
}

/// What the logs warn of: every alert comes exactly where its figure says so, in a
/// fixed order.
pub proof fn lemma_alert_lines(s: LogStats)
    ensures
        ({
            let a = if s.transform_errors > 0 {
                seq![
                    "⚠ TRANSFORM/DLQ ERRORS: "@ + decimal(s.transform_errors as int)
                        + " — rows dropped to DLQ (silent data loss)"@,
                ]
            } else {
                Seq::empty()
            };
            let b = if s.oom_warnings > 0 {
                seq![
                    "⚠ MEMORY PRESSURE: "@ + decimal(s.oom_warnings as int)
                        + " pre-OOM warning(s) — OOM kill imminent"@,
                ]
            } else {
                Seq::empty()
            };
            let c = if s.throughput_collapsed {
                seq!["⚠ THROUGHPUT COLLAPSE: a pod was processing, now at 0 rps"@]
            } else {
                Seq::empty()
            };
            let d = if s.reconnects >= 10 {
                seq!["⚠ RECONNECT STORM: "@ + decimal(s.reconnects as int) + " reconnects"@]
            } else {
                Seq::empty()
            };
            let e = if s.backpressure > 0 {
                seq![
                    "⚠ BACKPRESSURE: "@ + decimal(s.backpressure as int)
                        + " throttle/channel-full signal(s)"@,
                ]
            } else {
                Seq::empty()
            };
            alerts(s) == a + b + c + d + e
        }),
{
}

/// A pod is named behind its others where it has the property.
pub proof fn lemma_names_where(
    pods: Seq<PodSummary>,
    p: PodSummary,
    has_it: spec_fn(PodSummary) -> bool,
)
    ensures
        names_where(Seq::empty(), has_it).len() == 0,
        has_it(p) ==> names_where(pods.push(p), has_it) == names_where(pods, has_it).push(p.name@),
        !has_it(p) ==> names_where(pods.push(p), has_it) == names_where(pods, has_it),
{
    assert(pods.push(p).drop_last() =~= pods);
}

/// The banners name the pods that lose rows and those whose memory runs out.
pub proof fn lemma_banners(report: KubeReport)
    ensures
        ({
            let lost = names_where(report.pods@, |p: PodSummary| p.transform_error);
            let short = names_where(report.pods@, |p: PodSummary| p.memory_pressure);
            let warned = match report.log_stats {
                Some(s) => alerts(s),
                None => Seq::empty(),
            };
            banners(report) == warned + (if lost.len() > 0 {
                seq!["DLQ-ERROR on: "@ + joined(lost, ", "@)]
            } else {
                Seq::empty()
            }) + (if short.len() > 0 {
                seq!["MEM-CRITICAL on: "@ + joined(short, ", "@)]
            } else {
                Seq::empty()
            })
        }),
{
    let a = |p: PodSummary| p.transform_error;
    let b = |p: PodSummary| p.memory_pressure;
    assert(losing() =~= a);
    assert(pressed() =~= b);
}

/// A setting gets a line exactly where it is not as expected.
pub proof fn lemma_failed_settings(list: Seq<ConfigAssertion>, a: ConfigAssertion)
    ensures
        assertion_lines(Seq::empty()).len() == 0,
        a.pass ==> assertion_lines(list.push(a)) == assertion_lines(list),
        !a.pass && a.actual is Some ==> assertion_lines(list.push(a)) == assertion_lines(list).push(
            "  ✗ config "@ + a.key@ + ": expected "@ + a.expected@ + ", got "@ + a.actual->0@,
        ),
        !a.pass && a.actual is None ==> assertion_lines(list.push(a)) == assertion_lines(list).push(
            "  ✗ config "@ + a.key@ + ": expected "@ + a.expected@ + ", got "@ + "(absent)"@,
        ),
{
    assert(list.push(a).drop_last() =~= list);
}

/// The lines below the table: the banners and the nodes, a line on a split rollout
/// and one on a skew of more than five minutes, the settings that failed, and under
/// a title each the first ten events and the first fifteen signals.
pub proof fn lemma_section_lines(report: KubeReport)
    ensures
        ({
            let split = if report.images@.len() > 1 {
                seq![
                    "  ⚠ split rollout: "@ + decimal(report.images@.len() as int)
                        + " distinct images ("@ + joined(report.images.deep_view(), ", "@) + ")"@,
                ]
            } else {
                Seq::empty()
            };
            let skewed = if report.rollout_skew_secs is Some && report.rollout_skew_secs->0 > 300 {
                seq![
                    "  ⚠ rollout skew "@ + short_duration(report.rollout_skew_secs->0 as int)
                        + " — pods not restarted together"@,
                ]
            } else {
                Seq::empty()
            };
            let events = if report.events@.len() > 10 {
                report.events@.take(10)
            } else {
                report.events@
            };
            let signals = if report.log_signals@.len() > 15 {
                report.log_signals@.take(15)
            } else {
                report.log_signals@
            };
            section_lines(report) == banners(report).map_values(|s: Seq<char>| "  "@ + s)
                + report.nodes@.map_values(node_line()) + split + skewed + assertion_lines(
                report.config_assertions@,
            ) + (if events.len() > 0 {
                seq!["  events:"@]
            } else {
                Seq::empty()
            }) + events.map_values(event_line()) + (if signals.len() > 0 {
                seq!["  log signals:"@]
            } else {
                Seq::empty()
            }) + signals.map_values(signal_line())
        }),
{
    let f = |s: Seq<char>| "  "@ + s;
    assert(indented() =~= f);
}

/// What is told of a node, of an event and of a signal.
pub proof fn lemma_line_texts(n: NodeInfo, e: KubeEvent, s: LogSignal)
    ensures
        n.instance_type is Some && n.alloc_cpu_milli is Some && n.alloc_mem_bytes is Some
            ==> node_line()(n) == "  node "@ + n.name@ + (" ["@ + n.instance_type->0@ + "]"@)
            + ": "@ + cpu_text(n.alloc_cpu_milli->0 as int) + " CPU / "@ + size_text(
            n.alloc_mem_bytes->0 as int,
        ) + " allocatable"@,
        e.age_secs is Some ==> event_line()(e) == "    "@ + e.reason@ + " "@ + e.involved@ + (" ("@
            + short_duration(e.age_secs->0 as int) + " ago)"@),
        signal_line()(s) == "    ["@ + s.kind@ + "] "@ + s.pod@ + ": "@ + s.line@,
{
}

/// Without pods the section tells what could have been selected, where it is known.
pub proof fn lemma_nothing_selected(report: KubeReport, drawn: Seq<char>)
    requires
        report.error is None,
        report.pods@.len() == 0,
    ensures
        report.discovery is None ==> section_text(report, drawn) == "kubernetes: namespace "@
            + report.namespace@ + "\n"@ + "  no pods matched the selector\n"@,
        report.discovery is Some ==> section_text(report, drawn) == "kubernetes: namespace "@
            + report.namespace@ + "\n"@ + discovery_text(report.discovery->0),
{
}

} // verus!
