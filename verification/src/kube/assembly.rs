//! The report on the deployment, put together from what the cluster told.

use crate::kube::assertions::{outcome, setting};
use crate::kube::client::{
    age_fits, config_outcomes, declared, declared_fits, declared_total, discover,
    event_countable, event_moment, lists, mark_pods, missing, node_info, pod_countable, pod_fits,
    pod_summary, recent_events, relevant_events, report_on, summarised, usage_countable,
    with_usage, lemma_pod_figures, ContainerFacts, EventFacts, KubeQuery, NodeFacts, PodFacts,
};
use crate::kube::flags::{
    lemma_pods_telling, message_in, pods_telling, pods_with_memory_warnings,
    pods_with_transform_errors,
};
use crate::kube::json::document;
use crate::kube::labels::{harvest, preferred, selector, Labels};
use crate::kube::quantity::{as_integer, cpu_quantity, memory_quantity};
use crate::kube::signals::{
    has_any, memory_needles, scan_log_signals, signals_in, transform_needles, SignalView,
};
use crate::kube::stats::{
    aggregate_log_stats, at_most, facts_told, has_collapsed, ranking, shapes, summed, tells_collapse,
    FactView,
};
use crate::kube::{
    oldest, pod_images, skew, youngest, ConfigAssertion, Discovery,
    KubeReport, LogSignal, LogStats, NodeInfo, PodLogs, PodMetrics, PodSummary,
};
use crate::names::names_of;
use crate::text::{chars_of, copy_of, lines, lowercase, same, split_lines};
use vstd::prelude::*;

verus! {

/// What the containers of a pod use: CPU and memory, each as it is written.
#[derive(Debug, Clone)]
pub struct Usage {
    pub cpu: Vec<Option<String>>,
    pub memory: Vec<Option<String>>,
}

/// The recent log of a pod.
#[derive(Debug, Clone)]
pub struct LogText {
    pub pod: String,
    pub text: String,
}

/// Everything that the cluster told.
#[derive(Debug)]
pub struct ClusterFacts {
    /// When it was asked, in seconds since 1970.
    pub now: i64,
    /// The pods that were selected.
    pub pods: Vec<PodFacts>,
    /// What each of them uses, where that is measured.
    pub usage: Vec<Option<Usage>>,
    pub logs: Vec<LogText>,
    pub nodes: Vec<NodeFacts>,
    pub events: Vec<EventFacts>,
    /// The config map, where one was read, and the configuration in it.
    pub config: Option<Option<String>>,
    pub metrics: Vec<PodMetrics>,
    pub namespaces: Vec<String>,
    /// The labels of all pods of the namespace.
    pub labels: Vec<Labels>,
}

/// How many of the most frequent log messages are kept.
pub const TOP_MESSAGES: usize = 5;

/// The figures of the facts can be told in the widths that they have.
pub open spec fn facts_fit(f: ClusterFacts) -> bool {
    &&& f.usage@.len() == f.pods@.len()
    &&& forall|i: int| 0 <= i < f.pods@.len() ==> pod_fits(#[trigger] f.pods@[i], f.now as int)
    &&& forall|i: int|
        0 <= i < f.usage@.len() ==> ((#[trigger] f.usage@[i]) matches Some(u) ==> declared_fits(
            u.cpu.deep_view(),
            false,
        ) && declared_fits(u.memory.deep_view(), true))
    &&& forall|i: int|
        0 <= i < f.events@.len() ==> age_fits(f.now as int, event_moment(#[trigger] f.events@[i]))
}

/// Whether the figures of the facts can be told in the widths that they have.
pub fn facts_countable(f: &ClusterFacts) -> (r: bool)
    ensures
        r == facts_fit(*f),
{
    if f.usage.len() != f.pods.len() {
        return false;
    }
    for i in 0..f.pods.len()
        invariant
            forall|j: int| 0 <= j < i ==> pod_fits(#[trigger] f.pods@[j], f.now as int),
    {
        if !pod_countable(&f.pods[i], f.now) {
            assert(!pod_fits(f.pods@[i as int], f.now as int));
            return false;
        }
    }
    for i in 0..f.usage.len()
        invariant
            forall|j: int|
                0 <= j < i ==> ((#[trigger] f.usage@[j]) matches Some(u) ==> declared_fits(
                    u.cpu.deep_view(),
                    false,
                ) && declared_fits(u.memory.deep_view(), true)),
    {
        if let Some(u) = &f.usage[i] {
            if !usage_countable(&u.cpu, &u.memory) {
                assert(f.usage@[i as int] == Some(*u));
                return false;
            }
        }
    }
    for i in 0..f.events.len()
        invariant
            forall|j: int|
                0 <= j < i ==> age_fits(f.now as int, event_moment(#[trigger] f.events@[j])),
    {
        if !event_countable(&f.events[i], f.now) {
            assert(!age_fits(f.now as int, event_moment(f.events@[i as int])));
            return false;
        }
    }
    true
}

/// What a pod uses in all.
pub open spec fn used(usage: Option<Usage>, memory: bool) -> Option<int> {
    match usage {
        Some(u) => if memory {
            declared_total(u.memory.deep_view(), true)
        } else {
            declared_total(u.cpu.deep_view(), false)
        },
        None => None,
    }
}

/// The pod without what its logs and the metrics API tell.
pub open spec fn unmarked(p: PodSummary) -> PodSummary {
    PodSummary {
        transform_error: false,
        memory_pressure: false,
        cpu_used_milli: None,
        mem_used_bytes: None,
        ..p
    }
}

/// `p` is the pod that the facts tell of.
pub open spec fn told_pod(
    p: PodSummary,
    f: PodFacts,
    usage: Option<Usage>,
    logs: Seq<PodLogs>,
    now: int,
) -> bool {
    &&& summarised(unmarked(p), f, now)
    &&& p.transform_error == pods_telling(logs, transform_needles()).contains(p.name@)
    &&& p.memory_pressure == pods_telling(logs, memory_needles()).contains(p.name@)
    &&& as_integer(p.cpu_used_milli) == used(usage, false)
    &&& as_integer(p.mem_used_bytes) == used(usage, true)
}

/// `l` holds the lines of the log.
pub open spec fn holds_lines(l: PodLogs, t: LogText) -> bool {
    l.pod@ == t.pod@ && l.lines.deep_view() == lines(t.text@)
}

/// `list` holds the lines of the logs.
pub open spec fn hold_lines(list: Seq<PodLogs>, texts: Seq<LogText>) -> bool {
    list.len() == texts.len() && forall|i: int|
        0 <= i < list.len() ==> holds_lines(#[trigger] list[i], texts[i])
}

/// The lines of all logs.
pub open spec fn all_lines(texts: Seq<LogText>) -> Seq<Seq<char>>
    decreases texts.len(),
{
    if texts.len() == 0 {
        Seq::empty()
    } else {
        all_lines(texts.drop_last()) + lines(texts.last().text@)
    }
}

/// The signals in all logs.
pub open spec fn all_signals(texts: Seq<LogText>) -> Seq<SignalView>
    decreases texts.len(),
{
    if texts.len() == 0 {
        Seq::empty()
    } else {
        all_signals(texts.drop_last()) + signals_in(
            texts.last().pod@,
            lines(texts.last().text@),
        )
    }
}

/// One of the pods runs on the node.
pub open spec fn hosts(pods: Seq<PodSummary>, node: Seq<char>) -> bool {
    exists|i: int| 0 <= i < pods.len() && (#[trigger] pods[i]).node.deep_view() == Some(node)
}

/// The nodes that the pods run on.
pub open spec fn hosting(nodes: Seq<NodeFacts>, pods: Seq<PodSummary>) -> Seq<NodeFacts> {
    nodes.filter(|n: NodeFacts| hosts(pods, n.name@))
}

/// `n` is the node that the facts tell of.
pub open spec fn told_node(n: NodeInfo, f: NodeFacts) -> bool {
    &&& n.name@ == f.name@
    &&& as_integer(n.alloc_cpu_milli) == declared(f.cpu.deep_view(), false)
    &&& as_integer(n.alloc_mem_bytes) == declared(f.memory.deep_view(), true)
    &&& n.instance_type.deep_view() == f.instance_type.deep_view()
}

/// The outcomes of the expected settings.
pub open spec fn told_config(
    list: Seq<ConfigAssertion>,
    config: Option<Option<String>>,
    expected: Seq<(String, String)>,
) -> bool {
    match config {
        None => list.len() == 0,
        Some(body) => list.len() == expected.len() && forall|i: int|
            0 <= i < list.len() ==> match body {
                Some(b) => outcome(b@, expected[i].0@, expected[i].1@, #[trigger] list[i]),
                None => missing(expected[i].0@, expected[i].1@, list[i]),
            },
    }
}

/// What could have been selected.
pub open spec fn told_choices(
    d: Discovery,
    namespace: Seq<char>,
    namespaces: Vec<String>,
    labels: Seq<Labels>,
) -> bool {
    match d {
        Discovery::Namespaces(names) => names == namespaces && !lists(namespaces@, namespace),
        Discovery::Labels { namespace: n, keys, suggestion } => {
            &&& lists(namespaces@, namespace)
            &&& n@ == namespace
            &&& harvest(keys.deep_view(), labels)
            &&& suggestion.deep_view() == selector(keys.deep_view(), preferred())
        },
    }
}

/// The log of one of the pods tells that its throughput has collapsed.
pub open spec fn any_collapse(texts: Seq<LogText>) -> bool {
    exists|i: int| 0 <= i < texts.len() && tells_collapse(lines((#[trigger] texts[i]).text@))
}

/// What the logs add up to. Each pod's throughput is judged by its own log.
pub open spec fn told_stats(s: LogStats, texts: Seq<LogText>) -> bool {
    let list = all_lines(texts);
    &&& exists|facts: Seq<FactView>| #[trigger]
        facts_told(facts, list) && summed(s, facts, list.len() as int, TOP_MESSAGES as int)
    &&& s.throughput_collapsed == any_collapse(texts)
}

/// The pods before their logs are read.
fn read_pods(facts: &ClusterFacts) -> (r: Vec<PodSummary>)
    requires
        facts_fit(*facts),
    ensures
        r@.len() == facts.pods@.len(),
        forall|i: int|
            0 <= i < r@.len() ==> {
                &&& summarised(unmarked(#[trigger] r@[i]), facts.pods@[i], facts.now as int)
                &&& as_integer(r@[i].cpu_used_milli) == used(facts.usage@[i], false)
                &&& as_integer(r@[i].mem_used_bytes) == used(facts.usage@[i], true)
            },
{
    let mut r: Vec<PodSummary> = Vec::new();
    for i in 0..facts.pods.len()
        invariant
            facts_fit(*facts),
            r@.len() == i,
            forall|j: int|
                0 <= j < i ==> {
                    &&& summarised(unmarked(#[trigger] r@[j]), facts.pods@[j], facts.now as int)
                    &&& as_integer(r@[j].cpu_used_milli) == used(facts.usage@[j], false)
                    &&& as_integer(r@[j].mem_used_bytes) == used(facts.usage@[j], true)
                },
    {
        assert(pod_fits(facts.pods@[i as int], facts.now as int));
        let plain = pod_summary(&facts.pods[i], facts.now);
        let ghost base = plain;
        let p = match &facts.usage[i] {
            Some(u) => {
                assert(facts.usage@[i as int] is Some);
                with_usage(plain, &u.cpu, &u.memory)
            },
            None => plain,
        };
        assert(unmarked(p) == unmarked(base));
        assert(unmarked(base) == base);
        r.push(p);
    }
    r
}

/// The lines of the logs.
fn read_logs(texts: &Vec<LogText>) -> (r: Vec<PodLogs>)
    ensures
        hold_lines(r@, texts@),
{
    let mut r: Vec<PodLogs> = Vec::new();
    for i in 0..texts.len()
        invariant
            r@.len() == i,
            forall|j: int| 0 <= j < i ==> holds_lines(#[trigger] r@[j], texts@[j]),
    {
        let t = &texts[i];
        r.push(
            PodLogs {
                pod: copy_of(t.pod.as_str()),
                lines: split_lines(chars_of(t.text.as_str()).as_slice()),
            },
        );
    }
    r
}

/// The lines of all logs, one after the other.
fn gather_lines(texts: &Vec<LogText>) -> (r: Vec<String>)
    ensures
        r.deep_view() == all_lines(texts@),
{
    let mut r: Vec<String> = Vec::new();
    assert(r.deep_view() =~= all_lines(texts@.take(0)));
    for i in 0..texts.len()
        invariant
            r.deep_view() == all_lines(texts@.take(i as int)),
    {
        let mut more = split_lines(chars_of(texts[i].text.as_str()).as_slice());
        let ghost a = r.deep_view();
        let ghost b = more.deep_view();
        r.append(&mut more);
        assert(r.deep_view() =~= a + b);
        assert(texts@.take(i + 1).drop_last() =~= texts@.take(i as int));
    }
    assert(texts@.take(texts@.len() as int) =~= texts@);
    r
}

/// The signals in all logs.
fn gather_signals(texts: &Vec<LogText>) -> (r: Vec<LogSignal>)
    ensures
        r.deep_view() == all_signals(texts@),
{
    let mut r: Vec<LogSignal> = Vec::new();
    assert(r.deep_view() =~= all_signals(texts@.take(0)));
    for i in 0..texts.len()
        invariant
            r.deep_view() == all_signals(texts@.take(i as int)),
    {
        let mut more = scan_log_signals(texts[i].pod.as_str(), texts[i].text.as_str());
        let ghost a = r.deep_view();
        let ghost b = more.deep_view();
        r.append(&mut more);
        assert(r.deep_view() =~= a + b);
        assert(texts@.take(i + 1).drop_last() =~= texts@.take(i as int));
    }
    assert(texts@.take(texts@.len() as int) =~= texts@);
    r
}

/// Whether the log of one of the pods tells that its throughput has collapsed.
fn find_collapse(texts: &Vec<LogText>) -> (r: bool)
    ensures
        r == any_collapse(texts@),
{
    for i in 0..texts.len()
        invariant
            forall|j: int| 0 <= j < i ==> !tells_collapse(lines((#[trigger] texts@[j]).text@)),
    {
        if has_collapsed(&split_lines(chars_of(texts[i].text.as_str()).as_slice())) {
            assert(tells_collapse(lines(texts@[i as int].text@)));
            return true;
        }
    }
    false
}

/// What the logs add up to.
fn add_up(texts: &Vec<LogText>) -> (r: LogStats)
    ensures
        told_stats(r, texts@),
{
    let list = gather_lines(texts);
    assert(list.deep_view().len() == list@.len());
    let mut s = aggregate_log_stats(&list, TOP_MESSAGES);
    let ghost joined = s;
    s.throughput_collapsed = find_collapse(texts);
    proof {
        let facts = choose|facts: Seq<FactView>| #[trigger]
            facts_told(facts, all_lines(texts@)) && summed(
                joined,
                facts,
                list@.len() as int,
                TOP_MESSAGES as int,
            );
        assert(facts_told(facts, all_lines(texts@)) && summed(
            s,
            facts,
            list@.len() as int,
            TOP_MESSAGES as int,
        ));
    }
    s
}

/// Whether one of the pods runs on the node.
fn is_host(pods: &Vec<PodSummary>, node: &str) -> (r: bool)
    ensures
        r == hosts(pods@, node@),
{
    for i in 0..pods.len()
        invariant
            forall|j: int| 0 <= j < i ==> (#[trigger] pods@[j]).node.deep_view() != Some(node@),
    {
        if let Some(n) = &pods[i].node {
            if same(n.as_str(), node) {
                assert(pods@[i as int].node.deep_view() == Some(node@));
                return true;
            }
        }
    }
    false
}

/// The nodes that the pods run on.
fn read_nodes(nodes: &Vec<NodeFacts>, pods: &Vec<PodSummary>) -> (r: Vec<NodeInfo>)
    ensures
        r@.len() == hosting(nodes@, pods@).len(),
        forall|i: int|
            0 <= i < r@.len() ==> told_node(#[trigger] r@[i], hosting(nodes@, pods@)[i]),
{
    let ghost p = |n: NodeFacts| hosts(pods@, n.name@);
    let mut r: Vec<NodeInfo> = Vec::new();
    assert(nodes@.take(0).filter(p) =~= Seq::empty()) by {
        reveal(Seq::filter);
    }
    for i in 0..nodes.len()
        invariant
            p == (|n: NodeFacts| hosts(pods@, n.name@)),
            r@.len() == nodes@.take(i as int).filter(p).len(),
            forall|j: int|
                0 <= j < r@.len() ==> told_node(
                    #[trigger] r@[j],
                    nodes@.take(i as int).filter(p)[j],
                ),
    {
        let n = &nodes[i];
        proof {
            nodes@.take(i as int).lemma_filter_push(*n, p);
            assert(nodes@.take(i + 1) =~= nodes@.take(i as int).push(*n));
        }
        if is_host(pods, n.name.as_str()) {
            r.push(node_info(n));
        }
    }
    assert(nodes@.take(nodes@.len() as int) =~= nodes@);
    r
}

/// Ages that are not negative are never further apart than 64 bits hold.
proof fn lemma_skew_fits(pods: Seq<PodSummary>)
    requires
        forall|i: int|
            0 <= i < pods.len() ==> ((#[trigger] pods[i]).age_secs matches Some(n) ==> n >= 0),
    ensures
        skew(pods) matches Some(n) ==> n <= i64::MAX,
{
    lemma_age_bounds(pods);
}

/// The greatest and the least age are ages of pods.
proof fn lemma_age_bounds(pods: Seq<PodSummary>)
    requires
        forall|i: int|
            0 <= i < pods.len() ==> ((#[trigger] pods[i]).age_secs matches Some(n) ==> n >= 0),
    ensures
        oldest(pods) matches Some(a) ==> 0 <= a <= i64::MAX,
        youngest(pods) matches Some(b) ==> 0 <= b <= i64::MAX,
    decreases pods.len(),
{
    if pods.len() > 0 {
        let rest = pods.drop_last();
        assert forall|i: int| 0 <= i < rest.len() implies ((
        #[trigger] rest[i]).age_secs matches Some(n) ==> n >= 0) by {
            assert(rest[i] == pods[i]);
        }
        lemma_age_bounds(rest);
        assert(pods[pods.len() - 1].age_secs matches Some(n) ==> n >= 0);
    }
}

/// Put the report together. Where no pod was selected it tells what could have
/// been.
pub fn assemble(query: &KubeQuery, facts: ClusterFacts) -> (r: KubeReport)
    requires
        facts_fit(facts),
    ensures
        r.namespace@ == query.namespace@,
        r.error is None,
        hold_lines(r.pod_logs@, facts.logs@),
        r.pods@.len() == facts.pods@.len(),
        forall|i: int|
            0 <= i < r.pods@.len() ==> told_pod(
                #[trigger] r.pods@[i],
                facts.pods@[i],
                facts.usage@[i],
                r.pod_logs@,
                facts.now as int,
            ),
        names_of(r.images.deep_view(), pod_images(r.pods@)),
        as_integer(r.rollout_skew_secs) == skew(r.pods@),
        r.discovery is Some == (facts.pods@.len() == 0),
        r.discovery matches Some(d) ==> told_choices(
            d,
            query.namespace@,
            facts.namespaces,
            facts.labels@,
        ),
        r.nodes@.len() == hosting(facts.nodes@, r.pods@).len(),
        forall|i: int|
            0 <= i < r.nodes@.len() ==> told_node(
                #[trigger] r.nodes@[i],
                hosting(facts.nodes@, r.pods@)[i],
            ),
        r.events.deep_view() == relevant_events(
            facts.events@,
            facts.now as int,
            query.event_window_secs as int,
        ),
        told_config(r.config_assertions@, facts.config, query.expected_config@),
        r.log_signals.deep_view() == all_signals(facts.logs@),
        r.log_stats is Some == query.log_tail is Some,
        r.log_stats matches Some(s) ==> told_stats(s, facts.logs@),
        r.pod_metrics == facts.metrics,
        r.pod_metric_summaries@.len() == 0,
        r.pod_stability@.len() == 0,
{
    let plain = read_pods(&facts);
    let logs = read_logs(&facts.logs);
    let lost = pods_with_transform_errors(&logs);
    let pressed = pods_with_memory_warnings(&logs);
    let ghost base = plain@;
    let pods = mark_pods(plain, &lost, &pressed);
    proof {
        assert(lost.deep_view() =~= lost@.map_values(|s: String| s@));
        assert(pressed.deep_view() =~= pressed@.map_values(|s: String| s@));
        assert forall|i: int| 0 <= i < pods@.len() implies told_pod(
            #[trigger] pods@[i],
            facts.pods@[i],
            facts.usage@[i],
            logs@,
            facts.now as int,
        ) by {
            assert(unmarked(pods@[i]) == unmarked(base[i]));
            lemma_lists(lost@, pods@[i].name@);
            lemma_lists(pressed@, pods@[i].name@);
        }
        assert forall|i: int| 0 <= i < pods@.len() implies ((
        #[trigger] pods@[i]).age_secs matches Some(n) ==> n >= 0) by {
            assert(told_pod(
                pods@[i],
                facts.pods@[i],
                facts.usage@[i],
                logs@,
                facts.now as int,
            ));
        }
        lemma_skew_fits(pods@);
    }
    let none = pods.len() == 0;
    let mut r = report_on(query.namespace.as_str(), pods);
    r.nodes = read_nodes(&facts.nodes, &r.pods);
    r.events = recent_events(&facts.events, facts.now, query.event_window_secs);
    if let Some(body) = &facts.config {
        r.config_assertions = config_outcomes(body, &query.expected_config);
    }
    r.log_signals = gather_signals(&facts.logs);
    if query.log_tail.is_some() {
        r.log_stats = Some(add_up(&facts.logs));
    }
    r.pod_logs = logs;
    r.pod_metrics = facts.metrics;
    if none {
        r.discovery = Some(
            discover(query.namespace.as_str(), facts.namespaces, &facts.labels),
        );
    }
    r
}

/// A list has a name where its view does.
proof fn lemma_lists(list: Seq<String>, name: Seq<char>)
    ensures
        lists(list, name) == list.map_values(|s: String| s@).contains(name),
{
    let views = list.map_values(|s: String| s@);
    if lists(list, name) {
        let i = choose|i: int| 0 <= i < list.len() && (#[trigger] list[i])@ == name;
        assert(views[i] == name);
    }
    if views.contains(name) {
        let i = choose|i: int| 0 <= i < views.len() && views[i] == name;
        assert(list[i]@ == name);
    }
}

// ── Laws ─────────────────────────────────────────────────────────────────────

/// A pod is marked where one of the lines of a log under its name tells of lost
/// rows or of memory running out.
pub proof fn lemma_pods_marked(
    p: PodSummary,
    f: PodFacts,
    usage: Option<Usage>,
    logs: Seq<PodLogs>,
    now: int,
)
    requires
        told_pod(p, f, usage, logs, now),
    ensures
        p.transform_error <==> exists|i: int, j: int|
            0 <= i < logs.len() && 0 <= j < logs[i].lines@.len() && logs[i].pod@ == p.name@
                && has_any(
                lowercase(
                    message_in(document(logs[i].lines@[j]@), (#[trigger] logs[i].lines@[j])@),
                ),
                transform_needles(),
            ),
        p.memory_pressure <==> exists|i: int, j: int|
            0 <= i < logs.len() && 0 <= j < logs[i].lines@.len() && logs[i].pod@ == p.name@
                && has_any(
                lowercase(
                    message_in(document(logs[i].lines@[j]@), (#[trigger] logs[i].lines@[j])@),
                ),
                memory_needles(),
            ),
        usage is None ==> p.cpu_used_milli is None && p.mem_used_bytes is None,
        usage matches Some(u) ==> as_integer(p.cpu_used_milli) == declared_total(
            u.cpu.deep_view(),
            false,
        ) && as_integer(p.mem_used_bytes) == declared_total(u.memory.deep_view(), true),
        p.ready == f.statuses@.filter(|c: ContainerFacts| c.ready).len(),
        p.total_containers == f.containers@.len(),
{
    lemma_pods_telling(logs, transform_needles(), p.name@);
    lemma_pods_telling(logs, memory_needles(), p.name@);
    lemma_pod_figures(unmarked(p), f, now);
}

/// One more log adds its lines and its signals behind the others.
pub proof fn lemma_logs_add_up(texts: Seq<LogText>, t: LogText)
    ensures
        all_lines(Seq::empty()).len() == 0,
        all_lines(texts.push(t)) == all_lines(texts) + lines(t.text@),
        all_signals(Seq::empty()).len() == 0,
        all_signals(texts.push(t)) == all_signals(texts) + signals_in(t.pod@, lines(t.text@)),
{
    assert(texts.push(t).drop_last() =~= texts);
}

/// A node is told of exactly where one of the pods runs on it.
pub proof fn lemma_hosting_nodes(nodes: Seq<NodeFacts>, pods: Seq<PodSummary>, n: NodeFacts)
    ensures
        hosting(nodes, pods).contains(n) <==> nodes.contains(n) && exists|i: int|
            0 <= i < pods.len() && (#[trigger] pods[i]).node is Some && pods[i].node->0@ == n.name@,
{
    let p = |x: NodeFacts| hosts(pods, x.name@);
    let kept = hosting(nodes, pods);
    if kept.contains(n) {
        let k = choose|k: int| 0 <= k < kept.len() && kept[k] == n;
        nodes.lemma_filter_pred(p, k);
        nodes.lemma_filter_contains_rev(p, n);
        let i = choose|i: int|
            0 <= i < pods.len() && (#[trigger] pods[i]).node.deep_view() == Some(n.name@);
        assert(pods[i].node is Some && pods[i].node->0@ == n.name@);
    }
    if nodes.contains(n) && exists|i: int|
        0 <= i < pods.len() && (#[trigger] pods[i]).node is Some && pods[i].node->0@ == n.name@ {
        let i = choose|i: int|
            0 <= i < pods.len() && (#[trigger] pods[i]).node is Some && pods[i].node->0@
                == n.name@;
        assert(pods[i].node.deep_view() == Some(n.name@));
        assert(p(n));
        let k = choose|k: int| 0 <= k < nodes.len() && nodes[k] == n;
        nodes.lemma_filter_contains(p, k);
    }
}

/// What a node can allocate is read from what the API tells of it.
pub proof fn lemma_node_told(n: NodeInfo, f: NodeFacts)
    requires
        told_node(n, f),
    ensures
        n.name@ == f.name@,
        f.cpu matches Some(q) ==> as_integer(n.alloc_cpu_milli) == cpu_quantity(q@),
        f.cpu is None ==> n.alloc_cpu_milli is None,
        f.memory matches Some(q) ==> as_integer(n.alloc_mem_bytes) == memory_quantity(q@),
        f.memory is None ==> n.alloc_mem_bytes is None,
        n.instance_type.deep_view() == f.instance_type.deep_view(),
{
}

/// An expected setting passes exactly where there is a configuration that has it,
/// with the value that is expected.
pub proof fn lemma_config_told(
    list: Seq<ConfigAssertion>,
    config: Option<Option<String>>,
    expected: Seq<(String, String)>,
    i: int,
)
    requires
        told_config(list, config, expected),
        0 <= i < list.len(),
    ensures
        config is Some,
        list.len() == expected.len(),
        list[i].key@ == expected[i].0@,
        list[i].expected@ == expected[i].1@,
        config->0 is None ==> !list[i].pass && list[i].actual is None,
        config->0 matches Some(b) ==> {
            &&& list[i].actual.deep_view() == setting(lines(b@), expected[i].0@)
            &&& list[i].pass <==> setting(lines(b@), expected[i].0@) == Some(expected[i].1@)
        },
{
    let a = list[i];
}

/// The five most frequent messages are kept.
pub proof fn lemma_top_kept(s: LogStats, texts: Seq<LogText>)
    requires
        told_stats(s, texts),
    ensures
        s.top_messages@.len() <= 5,
        s.throughput_collapsed <==> exists|i: int|
            0 <= i < texts.len() && tells_collapse(lines((#[trigger] texts[i]).text@)),
{
    let list = all_lines(texts);
    let facts = choose|facts: Seq<FactView>| #[trigger]
        facts_told(facts, list) && summed(s, facts, list.len() as int, TOP_MESSAGES as int);
    let all = choose|all: Seq<(Seq<char>, usize)>|
        ranking(all, shapes(facts)) && s.top_messages.deep_view() == #[trigger] at_most(all, 5);
    assert(s.top_messages.deep_view().len() == s.top_messages@.len());
}

} // verus!
