//! The panels of the interactive screen that are about the consumer deployment.

use crate::decimal::{count_text, decimal, decimal_text};
use crate::kube::json::document;
use crate::kube::labels::{discovery_text, format_discovery};
use crate::kube::logs::{log_line_summary, pretty_log_line, short_line, long_lines};
use crate::kube::{KubeReport, LogStats, NodeInfo, PodSummary};
use crate::podtable::{
    banner_texts, banners, cpu_usage, cpu_usage_text, mem_usage, mem_usage_text, pod_ready_text, ready_text, up_to,
};
use crate::screen::{
    alarm, bold, coloured, in_colour, node_cpu, node_mem, one, one_line, plain, push_line,
    push_lines, Line, LineView, Style,
};
use crate::table::Paint;
use crate::text::{cat2, cat3, cat4, cat6, copy_of, join, joined, last, same};
use vstd::prelude::*;

verus! {

// ── Log statistics ───────────────────────────────────────────────────────────

/// A name and how often it occurs.
pub open spec fn level_item() -> spec_fn((Seq<char>, usize)) -> Seq<char> {
    |e: (Seq<char>, usize)| e.0 + " "@ + decimal(e.1 as int)
}

/// An operational event.
pub open spec fn event_item() -> spec_fn((Seq<char>, usize)) -> LineView {
    |e: (Seq<char>, usize)| one(e.0 + ": "@ + decimal(e.1 as int), plain())
}

/// A frequent message.
pub open spec fn message_item() -> spec_fn((Seq<char>, usize)) -> LineView {
    |e: (Seq<char>, usize)| one(decimal(e.1 as int) + "× "@ + e.0, plain())
}

/// An alert.
pub open spec fn alert_line() -> spec_fn(Seq<char>) -> LineView {
    |s: Seq<char>| one(s, alarm())
}

/// The most frequent messages that are shown.
pub const MESSAGES: usize = 4;

/// How severe a level is: the most severe one is the least.
pub open spec fn severity(level: Seq<char>) -> int {
    if level == "ERROR"@ {
        0
    } else if level == "WARN"@ {
        1
    } else if level == "INFO"@ {
        2
    } else if level == "DEBUG"@ {
        3
    } else if level == "TRACE"@ {
        4
    } else {
        5
    }
}

/// The levels that are so severe, in their order.
pub open spec fn of_severity(list: Seq<(Seq<char>, usize)>, k: int) -> Seq<(Seq<char>, usize)>
    decreases list.len(),
{
    if list.len() == 0 {
        Seq::empty()
    } else if severity(list.last().0) == k {
        of_severity(list.drop_last(), k).push(list.last())
    } else {
        of_severity(list.drop_last(), k)
    }
}

/// The levels, the most severe first.
pub open spec fn by_severity(list: Seq<(Seq<char>, usize)>) -> Seq<(Seq<char>, usize)> {
    of_severity(list, 0) + of_severity(list, 1) + of_severity(list, 2) + of_severity(list, 3)
        + of_severity(list, 4) + of_severity(list, 5)
}

/// The course of the memory.
pub open spec fn memory_line(s: LogStats) -> Seq<LineView> {
    match (s.rss_first_mb, s.rss_last_mb) {
        (Some(a), Some(b)) => seq![
            one(
                "rss: "@ + decimal(a as int) + " MB "@ + (if b > a {
                    "↑"@
                } else if b < a {
                    "↓"@
                } else {
                    "→"@
                }) + " "@ + decimal(b as int) + " MB"@,
                if b > a {
                    coloured(Paint::Red)
                } else {
                    plain()
                },
            ),
        ],
        _ => Seq::empty(),
    }
}

/// What the logs add up to, below what they warn of and the pods that it is about.
pub open spec fn stats_lines(report: KubeReport) -> Seq<LineView> {
    match report.log_stats {
        None => seq![one("no logs scanned (set --kube-log-tail > 0)"@, plain())],
        Some(s) => banners(report).map_values(alert_line()) + (if s.by_level@.len() > 0 {
            seq![
                one(
                    "levels: "@ + joined(
                        by_severity(s.by_level.deep_view()).map_values(level_item()),
                        "  "@,
                    ),
                    plain(),
                ),
            ]
        } else {
            Seq::empty()
        }) + memory_line(s) + (match s.last_throughput_rps {
            Some(n) => seq![one("throughput: "@ + decimal(n as int) + " rps"@, plain())],
            None => Seq::empty(),
        }) + s.operational.deep_view().map_values(event_item()) + up_to(
            s.top_messages.deep_view(),
            MESSAGES as int,
        ).map_values(message_item()),
    }
}

/// What the logs warn of, each on a line.
fn alert_lines(report: &KubeReport) -> (r: Vec<Line>)
    ensures
        r.deep_view() == banners(*report).map_values(alert_line()),
{
    let texts = banner_texts(report);
    let ghost all = texts.deep_view();
    let mut r: Vec<Line> = Vec::new();
    for i in 0..texts.len()
        invariant
            all == texts.deep_view(),
            r@.len() == i,
            forall|j: int| 0 <= j < i ==> (#[trigger] r@[j]).deep_view() == alert_line()(all[j]),
    {
        assert(all[i as int] == texts@[i as int]@);
        r.push(one_line(copy_of(texts[i].as_str()), alarm()));
    }
    assert(r.deep_view() =~= all.map_values(alert_line()));
    r
}

/// How severe a level is.
fn severity_of(level: &str) -> (r: u8)
    ensures
        r == severity(level@),
{
    if same(level, "ERROR") {
        0
    } else if same(level, "WARN") {
        1
    } else if same(level, "INFO") {
        2
    } else if same(level, "DEBUG") {
        3
    } else if same(level, "TRACE") {
        4
    } else {
        5
    }
}

/// Add the levels that are so severe, with how often they occur.
fn add_levels(out: &mut Vec<String>, list: &Vec<(String, usize)>, k: u8)
    ensures
        final(out).deep_view() == old(out).deep_view() + of_severity(
            list.deep_view(),
            k as int,
        ).map_values(level_item()),
{
    let ghost all = list.deep_view();
    let ghost start = out.deep_view();
    assert(all.take(0) =~= Seq::empty());
    assert(start =~= start + of_severity(all.take(0), k as int).map_values(level_item()));
    for i in 0..list.len()
        invariant
            all == list.deep_view(),
            out.deep_view() == start + of_severity(all.take(i as int), k as int).map_values(
                level_item(),
            ),
    {
        let ghost before = of_severity(all.take(i as int), k as int);
        let ghost shown = out.deep_view();
        assert(all.take(i + 1).drop_last() =~= all.take(i as int));
        assert(all[i as int] == (list@[i as int].0@, list@[i as int].1));
        if severity_of(list[i].0.as_str()) == k {
            let text = cat3(list[i].0.as_str(), " ", count_text(list[i].1).as_str());
            let ghost added = text@;
            out.push(text);
            assert(out.deep_view() =~= shown.push(added));
            assert(before.push(all[i as int]).map_values(level_item()) =~= before.map_values(
                level_item(),
            ).push(added));
        }
    }
    assert(all.take(all.len() as int) =~= all);
}

/// The levels with how often they occur, the most severe first.
fn level_items(list: &Vec<(String, usize)>) -> (r: Vec<String>)
    ensures
        r.deep_view() == by_severity(list.deep_view()).map_values(level_item()),
{
    let mut r: Vec<String> = Vec::new();
    add_levels(&mut r, list, 0);
    add_levels(&mut r, list, 1);
    add_levels(&mut r, list, 2);
    add_levels(&mut r, list, 3);
    add_levels(&mut r, list, 4);
    add_levels(&mut r, list, 5);
    assert(r.deep_view() =~= by_severity(list.deep_view()).map_values(level_item()));
    r
}

/// The operational events, each on a line.
fn event_items(list: &Vec<(String, usize)>) -> (r: Vec<Line>)
    ensures
        r.deep_view() == list.deep_view().map_values(event_item()),
{
    let ghost all = list.deep_view();
    let mut r: Vec<Line> = Vec::new();
    for i in 0..list.len()
        invariant
            all == list.deep_view(),
            r@.len() == i,
            forall|j: int| 0 <= j < i ==> (#[trigger] r@[j]).deep_view() == event_item()(all[j]),
    {
        assert(all[i as int] == (list@[i as int].0@, list@[i as int].1));
        r.push(
            one_line(cat3(list[i].0.as_str(), ": ", count_text(list[i].1).as_str()), plain()),
        );
    }
    assert(r.deep_view() =~= all.map_values(event_item()));
    r
}

/// The most frequent messages, each on a line.
fn message_items(list: &Vec<(String, usize)>) -> (r: Vec<Line>)
    ensures
        r.deep_view() == up_to(list.deep_view(), MESSAGES as int).map_values(message_item()),
{
    let ghost all = list.deep_view();
    let n: usize = if list.len() > MESSAGES { MESSAGES } else { list.len() };
    let mut r: Vec<Line> = Vec::new();
    for i in 0..n
        invariant
            all == list.deep_view(),
            n <= all.len(),
            r@.len() == i,
            forall|j: int| 0 <= j < i ==> (#[trigger] r@[j]).deep_view() == message_item()(all[j]),
    {
        assert(all[i as int] == (list@[i as int].0@, list@[i as int].1));
        r.push(
            one_line(cat3(count_text(list[i].1).as_str(), "× ", list[i].0.as_str()), plain()),
        );
    }
    assert(r.deep_view() =~= up_to(all, MESSAGES as int).map_values(message_item()));
    r
}

/// The course of the memory.
fn memory_lines(s: &LogStats) -> (r: Vec<Line>)
    ensures
        r.deep_view() == memory_line(*s),
{
    let mut r: Vec<Line> = Vec::new();
    if let (Some(a), Some(b)) = (s.rss_first_mb, s.rss_last_mb) {
        let arrow = if b > a {
            "↑"
        } else if b < a {
            "↓"
        } else {
            "→"
        };
        let style = if b > a {
            in_colour(Paint::Red)
        } else {
            plain()
        };
        let start = decimal_text(a);
        let end = decimal_text(b);
        let text = crate::text::cat7(
            "rss: ",
            start.as_str(),
            " MB ",
            arrow,
            " ",
            end.as_str(),
            " MB",
        );
        r.push(one_line(text, style));
    }
    assert(r.deep_view() =~= memory_line(*s));
    r
}

/// What the logs add up to.
pub fn log_stats_lines(report: &KubeReport) -> (r: Vec<Line>)
    ensures
        r.deep_view() == stats_lines(*report),
{
    let s = match &report.log_stats {
        None => {
            let mut r: Vec<Line> = Vec::new();
            r.push(one_line(copy_of("no logs scanned (set --kube-log-tail > 0)"), plain()));
            assert(r.deep_view() =~= stats_lines(*report));
            return r;
        },
        Some(s) => s,
    };
    let mut r = alert_lines(report);
    let ghost a = r.deep_view();
    if s.by_level.len() > 0 {
        let levels = join(&level_items(&s.by_level), "  ");
        push_line(&mut r, cat2("levels: ", levels.as_str()), plain());
    }
    let ghost b = r.deep_view();
    push_lines(&mut r, memory_lines(s));
    let ghost c = r.deep_view();
    if let Some(n) = s.last_throughput_rps {
        push_line(&mut r, cat3("throughput: ", decimal_text(n).as_str(), " rps"), plain());
    }
    let ghost d = r.deep_view();
    push_lines(&mut r, event_items(&s.operational));
    push_lines(&mut r, message_items(&s.top_messages));
    proof {
        assert(b =~= a + (if s.by_level@.len() > 0 {
            seq![
                one(
                    "levels: "@ + joined(
                        by_severity(s.by_level.deep_view()).map_values(level_item()),
                        "  "@,
                    ),
                    plain(),
                ),
            ]
        } else {
            Seq::empty()
        }));
        assert(d =~= c + (match s.last_throughput_rps {
            Some(n) => seq![one("throughput: "@ + decimal(n as int) + " rps"@, plain())],
            None => Seq::empty(),
        }));
    }
    r
}

// ── One pod ──────────────────────────────────────────────────────────────────

/// What is known of a pod.
pub open spec fn pod_info(p: PodSummary) -> Seq<LineView> {
    seq![
        one("pod:   "@ + p.name@, plain()),
        one(
            "node:  "@ + (match p.node {
                Some(n) => n@,
                None => "—"@,
            }),
            plain(),
        ),
        one(
            "ready: "@ + ready_text(p) + "   restarts: "@ + decimal(p.restarts as int),
            plain(),
        ),
        one("cpu:   "@ + cpu_usage(p), plain()),
        one("mem:   "@ + mem_usage(p), plain()),
    ] + (if p.oom_killed {
        seq![one("OOMKilled"@, Style { bold: true, ..coloured(Paint::Red) })]
    } else {
        Seq::empty()
    })
}

/// What is known of a pod.
pub fn pod_info_lines(p: &PodSummary) -> (r: Vec<Line>)
    ensures
        r.deep_view() == pod_info(*p),
{
    let mut r: Vec<Line> = Vec::new();
    let node = match &p.node {
        Some(n) => copy_of(n.as_str()),
        None => copy_of("—"),
    };
    r.push(one_line(cat2("pod:   ", p.name.as_str()), plain()));
    r.push(one_line(cat2("node:  ", node.as_str()), plain()));
    let ready = cat4(
        "ready: ",
        pod_ready_text(p).as_str(),
        "   restarts: ",
        decimal_text(p.restarts as i64).as_str(),
    );
    r.push(one_line(ready, plain()));
    r.push(one_line(cat2("cpu:   ", cpu_usage_text(p).as_str()), plain()));
    r.push(one_line(cat2("mem:   ", mem_usage_text(p).as_str()), plain()));
    if p.oom_killed {
        let mut style = in_colour(Paint::Red);
        style.bold = true;
        r.push(one_line(copy_of("OOMKilled"), style));
    }
    assert(r.deep_view() =~= pod_info(*p));
    r
}

/// A log line in short, the one under the cursor reversed.
pub open spec fn log_row(line: Seq<char>, width: int, on: bool) -> LineView {
    one(
        short_line(document(line), line, width),
        if on {
            Style { reversed: true, ..plain() }
        } else {
            plain()
        },
    )
}

/// The log lines of a pod in short.
pub fn log_rows(lines: &Vec<String>, cursor: usize, width: usize) -> (r: Vec<Line>)
    ensures
        r@.len() == lines@.len(),
        forall|i: int|
            0 <= i < r@.len() ==> (#[trigger] r@[i]).deep_view() == log_row(
                lines@[i]@,
                width as int,
                i == cursor,
            ),
{
    let mut r: Vec<Line> = Vec::new();
    for i in 0..lines.len()
        invariant
            r@.len() == i,
            forall|j: int|
                0 <= j < i ==> (#[trigger] r@[j]).deep_view() == log_row(
                    lines@[j]@,
                    width as int,
                    j == cursor,
                ),
    {
        let mut style = plain();
        style.reversed = i == cursor;
        r.push(one_line(log_line_summary(lines[i].as_str(), width), style));
    }
    r
}

/// The first of the log lines that is shown, so that the one under the cursor
/// stays near the middle.
pub fn log_scroll(cursor: usize, visible: usize) -> (r: usize)
    ensures
        r == (if cursor > visible / 2 {
            cursor - visible / 2
        } else {
            0
        }),
{
    if cursor > visible / 2 {
        cursor - visible / 2
    } else {
        0
    }
}

/// A log line in full, given as its lines.
pub fn expanded_log(line: &str) -> (r: Vec<Line>)
    ensures
        r.deep_view() == long_lines(document(line@), line@).map_values(
            |s: Seq<char>| one(s, plain()),
        ),
{
    let texts = pretty_log_line(line);
    let ghost all = texts.deep_view();
    let ghost f = |s: Seq<char>| one(s, plain());
    let mut r: Vec<Line> = Vec::new();
    for i in 0..texts.len()
        invariant
            all == texts.deep_view(),
            f == (|s: Seq<char>| one(s, plain())),
            r@.len() == i,
            forall|j: int| 0 <= j < i ==> (#[trigger] r@[j]).deep_view() == f(all[j]),
    {
        assert(all[i as int] == texts@[i as int]@);
        r.push(one_line(copy_of(texts[i].as_str()), plain()));
    }
    assert(r.deep_view() =~= all.map_values(f));
    r
}

// ── One node ─────────────────────────────────────────────────────────────────

/// What is known of a node.
pub open spec fn node_head(n: NodeInfo) -> Seq<LineView> {
    seq![one("node:  "@ + n.name@, plain())] + (match n.instance_type {
        Some(t) => seq![one("type:  "@ + t@, plain())],
        None => Seq::empty(),
    }) + seq![one("alloc: "@ + node_cpu(n) + " CPU / "@ + node_mem(n), plain())]
}

/// The pods on a node.
pub open spec fn pods_on(pods: Seq<PodSummary>, node: Seq<char>) -> Seq<LineView>
    decreases pods.len(),
{
    if pods.len() == 0 {
        Seq::empty()
    } else {
        let rest = pods_on(pods.drop_last(), node);
        let p = pods.last();
        if p.node.deep_view() == Some(node) {
            rest.push(
                one(
                    "  "@ + p.name@ + "   "@ + cpu_usage(p) + "   mem "@ + mem_usage(p),
                    plain(),
                ),
            )
        } else {
            rest
        }
    }
}

/// The first node of that name.
pub open spec fn node_named(nodes: Seq<NodeInfo>, name: Seq<char>) -> Option<NodeInfo>
    decreases nodes.len(),
{
    if nodes.len() == 0 {
        None
    } else if nodes[0].name@ == name {
        Some(nodes[0])
    } else {
        node_named(nodes.drop_first(), name)
    }
}

/// A node and the pods on it.
pub open spec fn node_detail(report: KubeReport, name: Seq<char>) -> Seq<LineView> {
    (match node_named(report.nodes@, name) {
        Some(n) => node_head(n),
        None => Seq::empty(),
    }) + seq![one(""@, plain()), one("pods on this node:"@, bold())] + pods_on(report.pods@, name)
}

/// What is known of a node.
fn node_head_lines(n: &NodeInfo) -> (r: Vec<Line>)
    ensures
        r.deep_view() == node_head(*n),
{
    let mut r: Vec<Line> = Vec::new();
    r.push(one_line(cat2("node:  ", n.name.as_str()), plain()));
    if let Some(t) = &n.instance_type {
        r.push(one_line(cat2("type:  ", t.as_str()), plain()));
    }
    let cpu = match n.alloc_cpu_milli {
        Some(v) => crate::kube::quantity::format_cpu(v),
        None => copy_of("?"),
    };
    let mem = match n.alloc_mem_bytes {
        Some(v) => crate::output::format_bytes(v),
        None => copy_of("?"),
    };
    r.push(one_line(cat4("alloc: ", cpu.as_str(), " CPU / ", mem.as_str()), plain()));
    assert(r.deep_view() =~= node_head(*n));
    r
}

/// The pods on a node.
fn pods_on_lines(pods: &Vec<PodSummary>, node: &str) -> (r: Vec<Line>)
    ensures
        r.deep_view() == pods_on(pods@, node@),
{
    let mut r: Vec<Line> = Vec::new();
    assert(r.deep_view() =~= Seq::empty());
    for i in 0..pods.len()
        invariant
            r.deep_view() == pods_on(pods@.take(i as int), node@),
    {
        assert(pods@.take(i + 1).drop_last() =~= pods@.take(i as int));
        assert(pods@.take(i + 1).last() == pods@[i as int]);
        let p = &pods[i];
        if let Some(n) = &p.node {
            if same(n.as_str(), node) {
                let text = cat6(
                    "  ",
                    p.name.as_str(),
                    "   ",
                    cpu_usage_text(p).as_str(),
                    "   mem ",
                    mem_usage_text(p).as_str(),
                );
                push_line(&mut r, text, plain());
            }
        }
    }
    assert(pods@.take(pods@.len() as int) =~= pods@);
    r
}

/// A node and the pods on it.
pub fn node_detail_lines(report: &KubeReport, name: &str) -> (r: Vec<Line>)
    ensures
        r.deep_view() == node_detail(*report, name@),
{
    let mut r: Vec<Line> = Vec::new();
    let mut i: usize = 0;
    let n: usize = report.nodes.len();
    assert(report.nodes@.skip(0) =~= report.nodes@);
    while i < n && !same(report.nodes[i].name.as_str(), name)
        invariant
            n == report.nodes@.len(),
            i <= n,
            node_named(report.nodes@, name@) == node_named(report.nodes@.skip(i as int), name@),
        decreases n - i,
    {
        assert(report.nodes@.skip(i as int)[0] == report.nodes@[i as int]);
        assert(report.nodes@.skip(i as int).drop_first() =~= report.nodes@.skip(i + 1));
        i = i + 1;
    }
    if i < n {
        assert(report.nodes@.skip(i as int)[0] == report.nodes@[i as int]);
        r = node_head_lines(&report.nodes[i]);
    }
    let ghost head = r.deep_view();
    assert(head =~= match node_named(report.nodes@, name@) {
        Some(n) => node_head(n),
        None => Seq::empty(),
    });
    push_line(&mut r, copy_of(""), plain());
    push_line(&mut r, copy_of("pods on this node:"), bold());
    assert(r.deep_view() =~= head + seq![one(""@, plain()), one("pods on this node:"@, bold())]);
    push_lines(&mut r, pods_on_lines(&report.pods, name));
    r
}

/// What the panel says where no pods matched.
pub open spec fn no_match(report: KubeReport) -> Seq<char> {
    match report.discovery {
        Some(d) => "namespace "@ + report.namespace@ + "\n"@ + discovery_text(d),
        None => "no pods matched in namespace "@ + report.namespace@,
    }
}

/// What the panel says where no pods matched.
pub fn no_match_text(report: &KubeReport) -> (r: String)
    ensures
        r@ == no_match(*report),
{
    match &report.discovery {
        Some(d) => cat4(
            "namespace ",
            report.namespace.as_str(),
            "\n",
            format_discovery(d).as_str(),
        ),
        None => cat2("no pods matched in namespace ", report.namespace.as_str()),
    }
}

// ── Laws ─────────────────────────────────────────────────────────────────────

/// The levels that are so severe are picked out in their order.
proof fn lemma_of_severity(list: Seq<(Seq<char>, usize)>, k: int)
    ensures
        of_severity(list, k) == list.filter(|e: (Seq<char>, usize)| severity(e.0) == k),
    decreases list.len(),
{
    let p = |e: (Seq<char>, usize)| severity(e.0) == k;
    reveal(Seq::filter);
    if list.len() > 0 {
        lemma_of_severity(list.drop_last(), k);
    }
}

/// The levels of the log lines come in the order error, warning, information,
/// debugging and tracing, and then the others.
pub proof fn lemma_levels_by_severity(list: Seq<(Seq<char>, usize)>)
    ensures
        ({
            let level = |name: Seq<char>| list.filter(|e: (Seq<char>, usize)| e.0 == name);
            let others = list.filter(
                |e: (Seq<char>, usize)|
                    e.0 != "ERROR"@ && e.0 != "WARN"@ && e.0 != "INFO"@ && e.0 != "DEBUG"@ && e.0
                        != "TRACE"@,
            );
            by_severity(list) == level("ERROR"@) + level("WARN"@) + level("INFO"@) + level(
                "DEBUG"@,
            ) + level("TRACE"@) + others
        }),
{
    reveal_strlit("ERROR");
    reveal_strlit("WARN");
    reveal_strlit("INFO");
    reveal_strlit("DEBUG");
    reveal_strlit("TRACE");
    assert("ERROR"@[0] == 'E' && "WARN"@[0] == 'W' && "INFO"@[0] == 'I' && "DEBUG"@[0] == 'D'
        && "TRACE"@[0] == 'T');
    lemma_of_severity(list, 0);
    lemma_of_severity(list, 1);
    lemma_of_severity(list, 2);
    lemma_of_severity(list, 3);
    lemma_of_severity(list, 4);
    lemma_of_severity(list, 5);
    let is = |k: int| |e: (Seq<char>, usize)| severity(e.0) == k;
    let named = |name: Seq<char>| |e: (Seq<char>, usize)| e.0 == name;
    assert(is(0) =~= named("ERROR"@));
    assert(is(1) =~= named("WARN"@));
    assert(is(2) =~= named("INFO"@));
    assert(is(3) =~= named("DEBUG"@));
    assert(is(4) =~= named("TRACE"@));
    let rest = |e: (Seq<char>, usize)|
        e.0 != "ERROR"@ && e.0 != "WARN"@ && e.0 != "INFO"@ && e.0 != "DEBUG"@ && e.0 != "TRACE"@;
    assert(is(5) =~= rest);
}

/// The course of the memory goes from the first reading to the last: an arrow tells
/// whether it grew, and growth is red.
pub proof fn lemma_memory_course(s: LogStats, a: i64, b: i64)
    ensures
        s.rss_first_mb == Some(a) && s.rss_last_mb == Some(b) && b > a ==> memory_line(s) == seq![
            one(
                "rss: "@ + decimal(a as int) + " MB "@ + "↑"@ + " "@ + decimal(b as int) + " MB"@,
                coloured(Paint::Red),
            ),
        ],
        s.rss_first_mb == Some(a) && s.rss_last_mb == Some(b) && b < a ==> memory_line(s) == seq![
            one(
                "rss: "@ + decimal(a as int) + " MB "@ + "↓"@ + " "@ + decimal(b as int) + " MB"@,
                plain(),
            ),
        ],
        s.rss_first_mb == Some(a) && s.rss_last_mb == Some(a) ==> memory_line(s) == seq![
            one(
                "rss: "@ + decimal(a as int) + " MB "@ + "→"@ + " "@ + decimal(a as int) + " MB"@,
                plain(),
            ),
        ],
        s.rss_first_mb is None || s.rss_last_mb is None ==> memory_line(s).len() == 0,
{
}

/// What the panel on the logs says, in its order: the banners, the levels, the
/// memory, the throughput, the operational events and up to four messages.
pub proof fn lemma_stats_panel(report: KubeReport, s: LogStats)
    requires
        report.log_stats == Some(s),
    ensures
        ({
            let messages = s.top_messages.deep_view();
            let shown = if messages.len() > 4 {
                messages.take(4)
            } else {
                messages
            };
            let levels = if s.by_level@.len() > 0 {
                seq![
                    one(
                        "levels: "@ + joined(
                            by_severity(s.by_level.deep_view()).map_values(
                                |e: (Seq<char>, usize)| e.0 + " "@ + decimal(e.1 as int),
                            ),
                            "  "@,
                        ),
                        plain(),
                    ),
                ]
            } else {
                Seq::empty()
            };
            let rate = if s.last_throughput_rps is Some {
                seq![
                    one(
                        "throughput: "@ + decimal(s.last_throughput_rps->0 as int) + " rps"@,
                        plain(),
                    ),
                ]
            } else {
                Seq::empty()
            };
            stats_lines(report) == banners(report).map_values(|t: Seq<char>| one(t, alarm()))
                + levels + memory_line(s) + rate + s.operational.deep_view().map_values(
                |e: (Seq<char>, usize)| one(e.0 + ": "@ + decimal(e.1 as int), plain()),
            ) + shown.map_values(
                |e: (Seq<char>, usize)| one(decimal(e.1 as int) + "× "@ + e.0, plain()),
            )
        }),
{
    let a = |e: (Seq<char>, usize)| e.0 + " "@ + decimal(e.1 as int);
    let b = |t: Seq<char>| one(t, alarm());
    let c = |e: (Seq<char>, usize)| one(e.0 + ": "@ + decimal(e.1 as int), plain());
    let d = |e: (Seq<char>, usize)| one(decimal(e.1 as int) + "× "@ + e.0, plain());
    assert(level_item() =~= a);
    assert(alert_line() =~= b);
    assert(event_item() =~= c);
    assert(message_item() =~= d);
}

/// A pod gets a line under its node and under no other.
pub proof fn lemma_pods_on(pods: Seq<PodSummary>, p: PodSummary, node: Seq<char>)
    ensures
        pods_on(Seq::empty(), node).len() == 0,
        p.node is Some && p.node->0@ == node ==> pods_on(pods.push(p), node) == pods_on(
            pods,
            node,
        ).push(one("  "@ + p.name@ + "   "@ + cpu_usage(p) + "   mem "@ + mem_usage(p), plain())),
        !(p.node is Some && p.node->0@ == node) ==> pods_on(pods.push(p), node) == pods_on(
            pods,
            node,
        ),
{
    assert(pods.push(p).drop_last() =~= pods);
}

/// The node of a detail is the first one of its name.
pub proof fn lemma_node_named(nodes: Seq<NodeInfo>, i: int)
    requires
        0 <= i < nodes.len(),
        forall|j: int| 0 <= j < i ==> (#[trigger] nodes[j]).name@ != nodes[i].name@,
    ensures
        node_named(nodes, nodes[i].name@) == Some(nodes[i]),
    decreases i,
{
    if i > 0 {
        let rest = nodes.drop_first();
        assert(nodes[0].name@ != nodes[i].name@);
        assert(rest[i - 1] == nodes[i]);
        assert forall|j: int| 0 <= j < i - 1 implies (#[trigger] rest[j]).name@ != rest[i
            - 1].name@ by {
            assert(rest[j] == nodes[j + 1]);
        }
        lemma_node_named(rest, i - 1);
    }
}

/// What is told of a pod.
pub proof fn lemma_pod_info(p: PodSummary)
    ensures
        ({
            let lines = pod_info(p);
            &&& lines.len() == (if p.oom_killed {
                6int
            } else {
                5
            })
            &&& lines[0] == one("pod:   "@ + p.name@, plain())
            &&& p.node is Some ==> lines[1] == one("node:  "@ + p.node->0@, plain())
            &&& lines[2] == one(
                "ready: "@ + ready_text(p) + "   restarts: "@ + decimal(p.restarts as int),
                plain(),
            )
            &&& lines[3] == one("cpu:   "@ + cpu_usage(p), plain())
            &&& lines[4] == one("mem:   "@ + mem_usage(p), plain())
            &&& p.oom_killed ==> lines[5] == one(
                "OOMKilled"@,
                Style { bold: true, ..coloured(Paint::Red) },
            )
        }),
{
}

/// The detail of a node: what it can allocate, and the pods on it.
pub proof fn lemma_node_detail(report: KubeReport, n: NodeInfo)
    requires
        node_named(report.nodes@, n.name@) == Some(n),
    ensures
        ({
            let kind = if n.instance_type is Some {
                seq![one("type:  "@ + n.instance_type->0@, plain())]
            } else {
                Seq::empty()
            };
            node_detail(report, n.name@) == seq![one("node:  "@ + n.name@, plain())] + kind + seq![
                one("alloc: "@ + node_cpu(n) + " CPU / "@ + node_mem(n), plain()),
            ] + seq![one(""@, plain()), one("pods on this node:"@, bold())] + pods_on(
                report.pods@,
                n.name@,
            )
        }),
{
}

/// What is said where no pods matched.
pub proof fn lemma_no_match(report: KubeReport)
    ensures
        report.discovery is None ==> no_match(report) == "no pods matched in namespace "@
            + report.namespace@,
        report.discovery is Some ==> no_match(report) == "namespace "@ + report.namespace@ + "\n"@
            + discovery_text(report.discovery->0),
{
}

/// Only the log line under the cursor is reversed.
pub proof fn lemma_log_row(line: Seq<char>, width: int, on: bool)
    ensures
        log_row(line, width, on).len() == 1,
        log_row(line, width, on)[0].0 == short_line(document(line), line, width),
        log_row(line, width, on)[0].1.reversed <==> on,
{
}

} // verus!
