//! Kubernetes correlation: the health of the consumer deployment, so that a
//! symptom on the broker can be tied to its cause.

use crate::decimal::{count_text, decimal};
use crate::float::{lemma_integer_quotient, of_integer, quotient, ratio};
use crate::names::{insert_name, names_of};
use crate::number::{Double, EXACT};
use crate::order::{lemma_precedes_irreflexive, precedes};
use crate::tally::{count, lemma_count_bound, lemma_count_is_filter, lemma_count_positive, lemma_count_step};
use crate::text::{cat2, cat3, cat4, copy_of, join, joined};
use vstd::prelude::*;

pub mod actions;
pub mod assembly;
pub mod assertions;
pub mod client;
pub mod flags;
pub mod json;
pub mod labels;
pub mod logs;
pub mod normalise;
pub mod quantity;
pub mod signals;
pub mod stats;

verus! {

// ── Data model ───────────────────────────────────────────────────────────────

/// The health of one pod, distilled from the statuses of its containers.
#[derive(Debug, Clone)]
pub struct PodSummary {
    pub name: String,
    /// How many containers are ready, and how many there are.
    pub ready: u32,
    pub total_containers: u32,
    pub restarts: i32,
    /// Seconds since the pod was created.
    pub age_secs: Option<i64>,
    /// The image of the first container.
    pub image: Option<String>,
    /// Why the pod waits or was terminated, or its phase where it does not run.
    pub reason: Option<String>,
    /// A container of the pod was killed for lack of memory.
    pub oom_killed: bool,
    /// The logs show a transform error: rows are lost.
    pub transform_error: bool,
    /// The logs warn that memory is running out.
    pub memory_pressure: bool,
    pub node: Option<String>,
    pub cpu_used_milli: Option<i64>,
    pub mem_used_bytes: Option<i64>,
    pub cpu_request_milli: Option<i64>,
    pub cpu_limit_milli: Option<i64>,
    pub mem_request_bytes: Option<i64>,
    pub mem_limit_bytes: Option<i64>,
}

/// What a node can allocate to pods.
#[derive(Debug, Clone)]
pub struct NodeInfo {
    pub name: String,
    pub alloc_cpu_milli: Option<i64>,
    pub alloc_mem_bytes: Option<i64>,
    /// The label that names the instance type.
    pub instance_type: Option<String>,
}

/// An event in the namespace.
#[derive(Debug, Clone)]
pub struct KubeEvent {
    pub reason: String,
    pub message: String,
    /// The object that the event is about.
    pub involved: String,
    /// Seconds since the event.
    pub age_secs: Option<i64>,
}

/// The outcome of holding one expected setting against a configuration.
#[derive(Debug, Clone)]
pub struct ConfigAssertion {
    pub key: String,
    pub expected: String,
    pub actual: Option<String>,
    pub pass: bool,
}

/// A signal found in a line of a pod's log.
#[derive(Debug, Clone)]
pub struct LogSignal {
    pub pod: String,
    /// Which kind of signal.
    pub kind: String,
    /// The line, without the whitespace around it.
    pub line: String,
}

/// What a number of log lines add up to.
#[derive(Debug, Clone)]
pub struct LogStats {
    /// How many lines there were.
    pub total: usize,
    /// Lines per level.
    pub by_level: Vec<(String, usize)>,
    /// The most frequent messages.
    pub top_messages: Vec<(String, usize)>,
    /// Operational events.
    pub operational: Vec<(String, usize)>,
    /// The first and the last reading of resident memory, in megabytes.
    pub rss_first_mb: Option<i64>,
    pub rss_last_mb: Option<i64>,
    /// The last reading of the throughput.
    pub last_throughput_rps: Option<i64>,
    /// Messages that tell of rows lost to a dead-letter queue.
    pub transform_errors: usize,
    /// Warnings that memory is running out.
    pub oom_warnings: usize,
    /// Signs that rows back up faster than they drain.
    pub backpressure: usize,
    /// Reconnects of a consumer.
    pub reconnects: usize,
    /// There was throughput, and now there is none.
    pub throughput_collapsed: bool,
}

/// One metric of a pod as it is shown.
#[derive(Debug, Clone)]
pub struct MetricLine {
    pub label: String,
    pub value: Double,
    pub arrow: String,
    pub breached: bool,
    pub worsening: bool,
    pub improving: bool,
    /// The group that the metric belongs to.
    pub category: String,
    /// The value moved since the last scrape.
    pub changed: bool,
    /// The metric should be high and is zero.
    pub stalled: bool,
    /// The value is a rate.
    pub is_rate: bool,
    /// The scrape had a sample of the metric.
    pub present: bool,
}

/// How stable the connections of one pod are.
#[derive(Debug, Clone)]
pub struct PodStabilityLine {
    pub pod: String,
    pub reconnect_rate: Double,
    pub throttle_transition_rate: Double,
    pub active_parts_churn: Double,
    pub active_parts: Double,
    pub idle_cull_rate: Double,
    pub idle_cull_threshold_secs: Double,
    pub flapping_rate: bool,
    pub flapping_rebalance: bool,
    pub idle_cull_loop: bool,
}

/// The metrics of one pod as they are shown.
#[derive(Debug, Clone)]
pub struct PodMetricSummary {
    pub pod: String,
    pub lines: Vec<MetricLine>,
    pub health: Option<String>,
}

/// What one pod served when it was scraped.
#[derive(Debug, Clone)]
pub struct PodMetrics {
    pub pod: String,
    pub metrics_text: String,
    pub health: Option<String>,
}

/// Recent log lines of one pod.
#[derive(Debug, Clone)]
pub struct PodLogs {
    pub pod: String,
    pub lines: Vec<String>,
}

/// What could have been selected where nothing was.
#[derive(Debug, Clone)]
pub enum Discovery {
    /// The namespaces there are.
    Namespaces(Vec<String>),
    /// The labels on the pods of the namespace, each with its values, and a
    /// selector to try.
    Labels { namespace: String, keys: Vec<(String, Vec<String>)>, suggestion: Option<String> },
}

/// The state of the consumer deployment.
#[derive(Debug, Clone)]
pub struct KubeReport {
    pub namespace: String,
    pub pods: Vec<PodSummary>,
    pub events: Vec<KubeEvent>,
    pub config_assertions: Vec<ConfigAssertion>,
    pub log_signals: Vec<LogSignal>,
    /// What the logs of all pods add up to.
    pub log_stats: Option<LogStats>,
    pub pod_logs: Vec<PodLogs>,
    pub pod_metrics: Vec<PodMetrics>,
    pub pod_metric_summaries: Vec<PodMetricSummary>,
    pub pod_stability: Vec<PodStabilityLine>,
    /// The images that the pods run.
    pub images: Vec<String>,
    pub nodes: Vec<NodeInfo>,
    /// Seconds between the creation of the oldest and of the newest pod.
    pub rollout_skew_secs: Option<i64>,
    /// Why the cluster could not be asked.
    pub error: Option<String>,
    pub discovery: Option<Discovery>,
}

// ── Pods ─────────────────────────────────────────────────────────────────────

/// A use as a fraction of its limit.
pub open spec fn fraction(used: Option<i64>, limit: Option<i64>) -> Option<Double> {
    match (used, limit) {
        (Some(u), Some(l)) if l > 0 => Some(quotient(of_integer(u as int), of_integer(l as int))),
        _ => None,
    }
}

/// A use as a fraction of its limit.
fn fraction_of(used: Option<i64>, limit: Option<i64>) -> (r: Option<Double>)
    ensures
        r == fraction(used, limit),
{
    match (used, limit) {
        (Some(u), Some(l)) => if l > 0 {
            Some(Double::from_i64(u).over(Double::from_i64(l)))
        } else {
            None
        },
        _ => None,
    }
}

impl PodSummary {
    /// The pod has containers, and every one of them is ready.
    pub open spec fn is_ready(self) -> bool {
        self.total_containers > 0 && self.ready == self.total_containers
    }

    /// Whether the pod has containers and every one of them is ready.
    pub fn all_ready(&self) -> (r: bool)
        ensures
            r == self.is_ready(),
    {
        self.total_containers > 0 && self.ready == self.total_containers
    }

    /// Memory in use as a fraction of the limit, where both are known.
    pub fn mem_fraction(&self) -> (r: Option<Double>)
        ensures
            r == fraction(self.mem_used_bytes, self.mem_limit_bytes),
    {
        fraction_of(self.mem_used_bytes, self.mem_limit_bytes)
    }

    /// CPU in use as a fraction of the limit, where both are known.
    pub fn cpu_fraction(&self) -> (r: Option<Double>)
        ensures
            r == fraction(self.cpu_used_milli, self.cpu_limit_milli),
    {
        fraction_of(self.cpu_used_milli, self.cpu_limit_milli)
    }
}

/// Every container of the pod is ready.
pub open spec fn ready_pod() -> spec_fn(PodSummary) -> bool {
    |p: PodSummary| p.is_ready()
}

/// Not every container of the pod is ready.
pub open spec fn unready_pod() -> spec_fn(PodSummary) -> bool {
    |p: PodSummary| !p.is_ready()
}

/// The pod was killed for lack of memory.
pub open spec fn killed_pod() -> spec_fn(PodSummary) -> bool {
    |p: PodSummary| p.oom_killed
}

/// The setting is not as expected.
pub open spec fn failed_assertion() -> spec_fn(ConfigAssertion) -> bool {
    |a: ConfigAssertion| !a.pass
}

/// How many pods are ready.
fn count_ready(pods: &Vec<PodSummary>) -> (r: usize)
    ensures
        r == count(pods@, ready_pod()),
{
    let mut n: usize = 0;
    for i in 0..pods.len()
        invariant
            n == count(pods@.take(i as int), ready_pod()),
            n <= i,
    {
        proof {
            lemma_count_step(pods@, ready_pod(), i as int);
        }
        if pods[i].all_ready() {
            n = n + 1;
        }
    }
    assert(pods@.take(pods@.len() as int) =~= pods@);
    n
}

/// How many pods are not ready.
fn count_unready(pods: &Vec<PodSummary>) -> (r: usize)
    ensures
        r == count(pods@, unready_pod()),
{
    let mut n: usize = 0;
    for i in 0..pods.len()
        invariant
            n == count(pods@.take(i as int), unready_pod()),
            n <= i,
    {
        proof {
            lemma_count_step(pods@, unready_pod(), i as int);
        }
        if !pods[i].all_ready() {
            n = n + 1;
        }
    }
    assert(pods@.take(pods@.len() as int) =~= pods@);
    n
}

/// How many pods were killed for lack of memory.
fn count_killed(pods: &Vec<PodSummary>) -> (r: usize)
    ensures
        r == count(pods@, killed_pod()),
{
    let mut n: usize = 0;
    for i in 0..pods.len()
        invariant
            n == count(pods@.take(i as int), killed_pod()),
            n <= i,
    {
        proof {
            lemma_count_step(pods@, killed_pod(), i as int);
        }
        if pods[i].oom_killed {
            n = n + 1;
        }
    }
    assert(pods@.take(pods@.len() as int) =~= pods@);
    n
}

/// How many settings are not as expected.
fn count_failed(list: &Vec<ConfigAssertion>) -> (r: usize)
    ensures
        r == count(list@, failed_assertion()),
{
    let mut n: usize = 0;
    for i in 0..list.len()
        invariant
            n == count(list@.take(i as int), failed_assertion()),
            n <= i,
    {
        proof {
            lemma_count_step(list@, failed_assertion(), i as int);
        }
        if !list[i].pass {
            n = n + 1;
        }
    }
    assert(list@.take(list@.len() as int) =~= list@);
    n
}

/// The images of the pods, in the order of the pods.
pub open spec fn pod_images(pods: Seq<PodSummary>) -> Seq<Seq<char>>
    decreases pods.len(),
{
    if pods.len() == 0 {
        Seq::empty()
    } else {
        match pods.last().image {
            Some(image) => pod_images(pods.drop_last()).push(image@),
            None => pod_images(pods.drop_last()),
        }
    }
}

/// The images that the pods run, each once, in ascending order. More than one
/// means that a rollout is split.
pub fn distinct_images(pods: &Vec<PodSummary>) -> (r: Vec<String>)
    ensures
        names_of(r.deep_view(), pod_images(pods@)),
{
    let mut r: Vec<String> = Vec::new();
    assert(r.deep_view() =~= Seq::empty());
    for i in 0..pods.len()
        invariant
            names_of(r.deep_view(), pod_images(pods@.take(i as int))),
    {
        assert(pods@.take(i + 1).drop_last() =~= pods@.take(i as int));
        if let Some(image) = &pods[i].image {
            let ghost seen = pod_images(pods@.take(i as int));
            let ghost before = r.deep_view();
            insert_name(&mut r, image.as_str());
            assert forall|x: Seq<char>| #[trigger] r.deep_view().contains(x) <==> seen.push(
                image@,
            ).contains(x) by {
                assert(before.contains(x) <==> seen.contains(x));
                lemma_push_contains(before, image@, x);
                lemma_push_contains(seen, image@, x);
            }
        }
    }
    assert(pods@.take(pods@.len() as int) =~= pods@);
    r
}

/// What a sequence holds with one more item.
pub proof fn lemma_push_contains<T>(s: Seq<T>, x: T, y: T)
    ensures
        s.push(x).contains(y) <==> s.contains(y) || x == y,
{
    if s.contains(y) {
        let j = choose|j: int| 0 <= j < s.len() && s[j] == y;
        assert(s.push(x)[j] == y);
    }
    assert(s.push(x)[s.len() as int] == x);
    if s.push(x).contains(y) && x != y {
        let j = choose|j: int| 0 <= j < s.push(x).len() && s.push(x)[j] == y;
        assert(s[j] == y);
    }
}

/// The greatest age of a pod, where one is known.
pub open spec fn oldest(pods: Seq<PodSummary>) -> Option<int>
    decreases pods.len(),
{
    if pods.len() == 0 {
        None
    } else {
        match (oldest(pods.drop_last()), pods.last().age_secs) {
            (Some(a), Some(b)) => Some(if b > a { b as int } else { a }),
            (None, Some(b)) => Some(b as int),
            (known, None) => known,
        }
    }
}

/// The least age of a pod, where one is known.
pub open spec fn youngest(pods: Seq<PodSummary>) -> Option<int>
    decreases pods.len(),
{
    if pods.len() == 0 {
        None
    } else {
        match (youngest(pods.drop_last()), pods.last().age_secs) {
            (Some(a), Some(b)) => Some(if b < a { b as int } else { a }),
            (None, Some(b)) => Some(b as int),
            (known, None) => known,
        }
    }
}

/// Seconds between the creation of the oldest and of the youngest pod.
pub open spec fn skew(pods: Seq<PodSummary>) -> Option<int> {
    match (oldest(pods), youngest(pods)) {
        (Some(a), Some(b)) => Some(a - b),
        _ => None,
    }
}

/// The greatest and the least age of the pods.
fn age_range(pods: &Vec<PodSummary>) -> (r: Option<(i64, i64)>)
    ensures
        match r {
            Some((a, b)) => oldest(pods@) == Some(a as int) && youngest(pods@) == Some(b as int),
            None => oldest(pods@) == None::<int> && youngest(pods@) == None::<int>,
        },
{
    let mut r: Option<(i64, i64)> = None;
    for i in 0..pods.len()
        invariant
            match r {
                Some((a, b)) => oldest(pods@.take(i as int)) == Some(a as int) && youngest(
                    pods@.take(i as int),
                ) == Some(b as int),
                None => oldest(pods@.take(i as int)) == None::<int> && youngest(
                    pods@.take(i as int),
                ) == None::<int>,
            },
    {
        assert(pods@.take(i + 1).drop_last() =~= pods@.take(i as int));
        if let Some(age) = pods[i].age_secs {
            r = match r {
                Some((a, b)) => Some((if age > a { age } else { a }, if age < b { age } else { b })),
                None => Some((age, age)),
            };
        }
    }
    assert(pods@.take(pods@.len() as int) =~= pods@);
    r
}

/// Whether the ages of the pods are close enough together to be subtracted.
pub fn skew_countable(pods: &Vec<PodSummary>) -> (r: bool)
    ensures
        r == (match skew(pods@) {
            Some(n) => n <= i64::MAX,
            None => true,
        }),
{
    match age_range(pods) {
        Some((a, b)) => a as i128 - b as i128 <= i64::MAX as i128,
        None => true,
    }
}

/// Seconds between the creation of the oldest and of the youngest pod. A large
/// skew means that the pods did not restart together.
pub fn rollout_skew_secs(pods: &Vec<PodSummary>) -> (r: Option<i64>)
    requires
        match skew(pods@) {
            Some(n) => n <= i64::MAX,
            None => true,
        },
    ensures
        quantity::as_integer(r) == skew(pods@),
        r matches Some(n) ==> n >= 0,
{
    match age_range(pods) {
        Some((a, b)) => {
            proof {
                lemma_oldest_youngest(pods@);
            }
            Some((a as i128 - b as i128) as i64)
        },
        None => None,
    }
}

/// No pod is older than the oldest one or younger than the youngest one.
pub proof fn lemma_oldest_youngest(pods: Seq<PodSummary>)
    ensures
        forall|i: int|
            0 <= i < pods.len() ==> match (#[trigger] pods[i]).age_secs {
                Some(n) => oldest(pods) is Some && youngest(pods) is Some && youngest(pods)->0 <= n
                    <= oldest(pods)->0,
                None => true,
            },
        match (oldest(pods), youngest(pods)) {
            (Some(a), Some(b)) => b <= a,
            (None, None) => true,
            _ => false,
        },
    decreases pods.len(),
{
    if pods.len() > 0 {
        let rest = pods.drop_last();
        lemma_oldest_youngest(rest);
        assert forall|i: int| 0 <= i < pods.len() implies match (#[trigger] pods[i]).age_secs {
            Some(n) => oldest(pods) is Some && youngest(pods) is Some && youngest(pods)->0 <= n
                <= oldest(pods)->0,
            None => true,
        } by {
            if i < rest.len() {
                assert(rest[i] == pods[i]);
            }
        }
    }
}

// ── The report ───────────────────────────────────────────────────────────────

/// What is said of the consumer deployment where the cluster was asked.
pub open spec fn summary_parts(report: KubeReport) -> Seq<Seq<char>> {
    let killed = count(report.pods@, killed_pod());
    let images = report.images@.len();
    let failed = count(report.config_assertions@, failed_assertion());
    seq![
        decimal(count(report.pods@, ready_pod())) + "/"@ + decimal(report.pods@.len() as int)
            + " pods ready"@,
    ] + (if killed > 0 {
        seq![decimal(killed) + " OOM-killed"@]
    } else {
        Seq::empty()
    }) + (if images > 1 {
        seq![decimal(images as int) + " image versions (split rollout)"@]
    } else {
        Seq::empty()
    }) + (if failed > 0 {
        seq![decimal(failed) + " config assertion(s) failed"@]
    } else {
        Seq::empty()
    })
}

/// What is said of the consumer deployment.
pub open spec fn summary(report: KubeReport) -> Seq<char> {
    match report.error {
        Some(e) => "kube: unreachable ("@ + e@ + ")"@,
        None => joined(summary_parts(report), ", "@),
    }
}

impl KubeReport {
    /// Nothing but the namespace is known.
    pub open spec fn bare(self) -> bool {
        &&& self.pods@.len() == 0
        &&& self.events@.len() == 0
        &&& self.config_assertions@.len() == 0
        &&& self.log_signals@.len() == 0
        &&& self.log_stats is None
        &&& self.pod_logs@.len() == 0
        &&& self.pod_metrics@.len() == 0
        &&& self.pod_metric_summaries@.len() == 0
        &&& self.pod_stability@.len() == 0
        &&& self.images@.len() == 0
        &&& self.nodes@.len() == 0
        &&& self.rollout_skew_secs is None
        &&& self.discovery is None
    }

    /// Every pod is ready and was not killed, the settings are as expected, and
    /// all pods run the same image.
    pub open spec fn sound(self) -> bool {
        &&& self.error is None
        &&& self.pods@.len() > 0
        &&& forall|i: int|
            0 <= i < self.pods@.len() ==> (#[trigger] self.pods@[i]).is_ready()
                && !self.pods@[i].oom_killed
        &&& forall|i: int|
            0 <= i < self.config_assertions@.len() ==> (#[trigger] self.config_assertions@[i]).pass
        &&& self.images@.len() <= 1
    }

    /// A report with nothing in it.
    pub fn empty(namespace: &str) -> (r: Self)
        ensures
            r.bare(),
            r.namespace@ == namespace@,
            r.error is None,
    {
        KubeReport {
            namespace: copy_of(namespace),
            pods: Vec::new(),
            events: Vec::new(),
            config_assertions: Vec::new(),
            log_signals: Vec::new(),
            log_stats: None,
            pod_logs: Vec::new(),
            pod_metrics: Vec::new(),
            pod_metric_summaries: Vec::new(),
            pod_stability: Vec::new(),
            images: Vec::new(),
            nodes: Vec::new(),
            rollout_skew_secs: None,
            error: None,
            discovery: None,
        }
    }

    /// The report of a cluster that could not be asked.
    pub fn unreachable(namespace: &str, error: String) -> (r: Self)
        ensures
            r.bare(),
            r.namespace@ == namespace@,
            r.error == Some(error),
    {
        let mut r = KubeReport::empty(namespace);
        r.error = Some(error);
        r
    }

    /// Whether the consumer deployment is healthy.
    pub fn is_healthy(&self) -> (r: bool)
        ensures
            r == self.sound(),
    {
        if self.error.is_some() || self.pods.len() == 0 || self.images.len() > 1 {
            return false;
        }
        for i in 0..self.pods.len()
            invariant
                forall|j: int|
                    0 <= j < i ==> (#[trigger] self.pods@[j]).is_ready()
                        && !self.pods@[j].oom_killed,
        {
            let pod = &self.pods[i];
            if !pod.all_ready() || pod.oom_killed {
                assert(!(self.pods@[i as int].is_ready() && !self.pods@[i as int].oom_killed));
                return false;
            }
        }
        for i in 0..self.config_assertions.len()
            invariant
                forall|j: int| 0 <= j < i ==> (#[trigger] self.config_assertions@[j]).pass,
        {
            if !self.config_assertions[i].pass {
                assert(!self.config_assertions@[i as int].pass);
                return false;
            }
        }
        true
    }

    /// One line on the consumer deployment.
    pub fn summary_line(&self) -> (r: String)
        ensures
            r@ == summary(*self),
    {
        if let Some(e) = &self.error {
            return cat3("kube: unreachable (", e.as_str(), ")");
        }
        let ready: usize = count_ready(&self.pods);
        let killed: usize = count_killed(&self.pods);
        let failed: usize = count_failed(&self.config_assertions);
        let mut parts: Vec<String> = Vec::new();
        parts.push(
            cat4(
                count_text(ready).as_str(),
                "/",
                count_text(self.pods.len()).as_str(),
                " pods ready",
            ),
        );
        if killed > 0 {
            parts.push(cat2(count_text(killed).as_str(), " OOM-killed"));
        }
        if self.images.len() > 1 {
            parts.push(
                cat2(count_text(self.images.len()).as_str(), " image versions (split rollout)"),
            );
        }
        if failed > 0 {
            parts.push(cat2(count_text(failed).as_str(), " config assertion(s) failed"));
        }
        assert(parts.deep_view() =~= summary_parts(*self));
        join(&parts, ", ")
    }
}

/// The most relevant fault of the pods, for a topic that is not healthy.
pub open spec fn hint(report: KubeReport, topic_unhealthy: bool) -> Option<Seq<char>> {
    let killed = count(report.pods@, killed_pod());
    let unready = count(report.pods@, unready_pod());
    if report.error is Some || !topic_unhealthy {
        None
    } else if killed > 0 {
        Some("kube: "@ + decimal(killed) + " pod(s) OOM-killed"@)
    } else if unready > 0 {
        Some("kube: "@ + decimal(unready) + " pod(s) not ready"@)
    } else if report.images@.len() > 1 {
        Some("kube: split rollout"@)
    } else {
        None
    }
}

/// Tie a fault of the pods to a topic that is not healthy.
pub fn correlation_hint(report: &KubeReport, topic_unhealthy: bool) -> (r: Option<String>)
    ensures
        r.deep_view() == hint(*report, topic_unhealthy),
{
    if report.error.is_some() || !topic_unhealthy {
        return None;
    }
    let killed: usize = count_killed(&report.pods);
    let unready: usize = count_unready(&report.pods);
    if killed > 0 {
        Some(cat3("kube: ", count_text(killed).as_str(), " pod(s) OOM-killed"))
    } else if unready > 0 {
        Some(cat3("kube: ", count_text(unready).as_str(), " pod(s) not ready"))
    } else if report.images.len() > 1 {
        Some(copy_of("kube: split rollout"))
    } else {
        None
    }
}

// ── Laws ─────────────────────────────────────────────────────────────────────

/// A healthy deployment gives no topic a hint, and its summary names nothing
/// but its pods, all of which are ready.
pub proof fn lemma_sound_summary(report: KubeReport, topic_unhealthy: bool)
    requires
        report.sound(),
    ensures
        hint(report, topic_unhealthy) is None,
        summary(report) == decimal(report.pods@.len() as int) + "/"@ + decimal(
            report.pods@.len() as int,
        ) + " pods ready"@,
{
    lemma_count_positive(report.pods@, killed_pod());
    lemma_count_positive(report.pods@, unready_pod());
    lemma_count_positive(report.config_assertions@, failed_assertion());
    lemma_ready_unready(report.pods@);
    lemma_count_bound(report.pods@, killed_pod());
    lemma_count_bound(report.pods@, unready_pod());
    lemma_count_bound(report.config_assertions@, failed_assertion());
    assert(summary_parts(report).len() == 1);
}

/// Every pod is either ready or not.
pub proof fn lemma_ready_unready(pods: Seq<PodSummary>)
    ensures
        count(pods, ready_pod()) + count(pods, unready_pod()) == pods.len(),
    decreases pods.len(),
{
    if pods.len() > 0 {
        lemma_ready_unready(pods.drop_last());
    }
}

/// All pods run at most one image exactly where no two of them differ in it.
pub proof fn lemma_split_rollout(images: Seq<Seq<char>>, pods: Seq<PodSummary>)
    requires
        names_of(images, pod_images(pods)),
    ensures
        images.len() <= 1 <==> forall|i: int, j: int|
            0 <= i < pods.len() && 0 <= j < pods.len() && (#[trigger] pods[i]).image is Some && (
            #[trigger] pods[j]).image is Some ==> pods[i].image->0@ == pods[j].image->0@,
{
    let all = pod_images(pods);
    assert forall|i: int| 0 <= i < pods.len() && (#[trigger] pods[i]).image is Some implies images.contains(pods[i].image->0@) by {
        lemma_pod_image(pods, i);
        assert(all.contains(pods[i].image->0@));
    }
    if images.len() <= 1 {
        assert forall|i: int, j: int|
            0 <= i < pods.len() && 0 <= j < pods.len() && (#[trigger] pods[i]).image is Some && (
            #[trigger] pods[j]).image is Some implies pods[i].image->0@ == pods[j].image->0@ by {
            assert(images.contains(pods[i].image->0@) && images.contains(pods[j].image->0@));
            assert(pods[i].image->0@ == images[0] && pods[j].image->0@ == images[0]);
        }
    } else {
        assert(images.contains(images[0]) && images.contains(images[1]));
        assert(all.contains(images[0]) && all.contains(images[1]));
        lemma_image_pod(pods, images[0]);
        lemma_image_pod(pods, images[1]);
        let i = choose|i: int| 0 <= i < pods.len() && (#[trigger] pods[i]).image is Some && pods[i].image->0@ == images[0];
        let j = choose|j: int| 0 <= j < pods.len() && (#[trigger] pods[j]).image is Some && pods[j].image->0@ == images[1];
        assert(precedes(images[0], images[1]));
        lemma_precedes_irreflexive(images[0]);
        assert(pods[i].image->0@ != pods[j].image->0@);
    }
}

/// The image of a pod is among the images of the pods.
proof fn lemma_pod_image(pods: Seq<PodSummary>, i: int)
    requires
        0 <= i < pods.len(),
        pods[i].image is Some,
    ensures
        pod_images(pods).contains(pods[i].image->0@),
    decreases pods.len(),
{
    let rest = pods.drop_last();
    let x = pods[i].image->0@;
    if i < rest.len() {
        lemma_pod_image(rest, i);
        assert(rest[i] == pods[i]);
    }
    if let Some(image) = pods.last().image {
        lemma_push_contains(pod_images(rest), image@, x);
    }
}

/// Every image of the pods is the image of a pod.
proof fn lemma_image_pod(pods: Seq<PodSummary>, x: Seq<char>)
    requires
        pod_images(pods).contains(x),
    ensures
        exists|i: int| 0 <= i < pods.len() && (#[trigger] pods[i]).image is Some && pods[i].image->0@ == x,
    decreases pods.len(),
{
    if pods.len() > 0 {
        let rest = pods.drop_last();
        let last = pods[pods.len() - 1];
        if let Some(image) = last.image {
            lemma_push_contains(pod_images(rest), image@, x);
        }
        if !(last.image is Some && last.image->0@ == x) {
            lemma_image_pod(rest, x);
            let i = choose|i: int|
                0 <= i < rest.len() && (#[trigger] rest[i]).image is Some && rest[i].image->0@ == x;
            assert(pods[i] == rest[i]);
        }
    }
}

/// A pod is ready exactly where it has containers and all of them are ready.
pub proof fn lemma_pod_ready(p: PodSummary)
    ensures
        p.total_containers == 0 ==> !p.is_ready(),
        p.ready < p.total_containers ==> !p.is_ready(),
        p.total_containers > 0 && p.ready == p.total_containers ==> p.is_ready(),
{
}

/// A fraction is taken of a limit above zero; a use of `times` the limit is
/// exactly `times`.
pub proof fn lemma_fraction(used: i64, limit: i64, times: int)
    requires
        0 < limit < EXACT,
        0 <= used < EXACT,
    ensures
        fraction(None, Some(limit)) is None,
        fraction(Some(used), None) is None,
        fraction(Some(used), Some(0)) is None,
        fraction(Some(used), Some((-limit) as i64)) is None,
        fraction(Some(used), Some(limit)) == Some(ratio(used as int, limit as int)),
        used == times * limit ==> fraction(Some(used), Some(limit)) == Some(of_integer(times)),
{
    if used == times * limit {
        lemma_integer_quotient(times, limit as int);
    }
}

/// What the hint tells, the most relevant fault first: how many pods were killed,
/// else how many are not ready, else that they run different images.
pub proof fn lemma_hint_by_relevance(report: KubeReport)
    requires
        report.error is None,
    ensures
        ({
            let killed = report.pods@.filter(|p: PodSummary| p.oom_killed).len() as int;
            let unready = report.pods@.filter(
                |p: PodSummary| p.total_containers == 0 || p.ready != p.total_containers,
            ).len() as int;
            &&& hint(report, false) is None
            &&& killed > 0 ==> hint(report, true) == Some(
                "kube: "@ + decimal(killed) + " pod(s) OOM-killed"@,
            )
            &&& killed == 0 && unready > 0 ==> hint(report, true) == Some(
                "kube: "@ + decimal(unready) + " pod(s) not ready"@,
            )
            &&& killed == 0 && unready == 0 && report.images@.len() > 1 ==> hint(report, true)
                == Some("kube: split rollout"@)
            &&& killed == 0 && unready == 0 && report.images@.len() <= 1 ==> hint(report, true)
                is None
        }),
{
    let a = |p: PodSummary| p.oom_killed;
    let b = |p: PodSummary| p.total_containers == 0 || p.ready != p.total_containers;
    assert(killed_pod() =~= a);
    assert(unready_pod() =~= b);
    lemma_count_is_filter(report.pods@, a);
    lemma_count_is_filter(report.pods@, b);
}

/// A cluster that could not be asked gives no hint and is said to be unreachable.
pub proof fn lemma_unreachable_report(report: KubeReport, topic_unhealthy: bool)
    requires
        report.error is Some,
    ensures
        hint(report, topic_unhealthy) is None,
        summary(report) == "kube: unreachable ("@ + report.error->0@ + ")"@,
        !report.sound(),
{
}

/// The summary counts the pods that are ready and all pods, and adds what is wrong.
pub proof fn lemma_summary_parts(report: KubeReport)
    requires
        report.error is None,
    ensures
        ({
            let ready = report.pods@.filter(
                |p: PodSummary| p.total_containers > 0 && p.ready == p.total_containers,
            ).len() as int;
            let killed = report.pods@.filter(|p: PodSummary| p.oom_killed).len() as int;
            let failed = report.config_assertions@.filter(|a: ConfigAssertion| !a.pass).len() as int;
            let images = report.images@.len() as int;
            let parts = summary_parts(report);
            &&& summary(report) == joined(parts, ", "@)
            &&& parts[0] == decimal(ready) + "/"@ + decimal(report.pods@.len() as int)
                + " pods ready"@
            &&& killed > 0 ==> parts.contains(decimal(killed) + " OOM-killed"@)
            &&& images > 1 ==> parts.contains(decimal(images) + " image versions (split rollout)"@)
            &&& failed > 0 ==> parts.contains(decimal(failed) + " config assertion(s) failed"@)
            &&& parts.len() == 1 + (if killed > 0 {
                1int
            } else {
                0
            }) + (if images > 1 {
                1int
            } else {
                0
            }) + (if failed > 0 {
                1int
            } else {
                0
            })
        }),
{
    let a = |p: PodSummary| p.total_containers > 0 && p.ready == p.total_containers;
    let b = |p: PodSummary| p.oom_killed;
    let c = |x: ConfigAssertion| !x.pass;
    assert(ready_pod() =~= a);
    assert(killed_pod() =~= b);
    assert(failed_assertion() =~= c);
    lemma_count_is_filter(report.pods@, a);
    lemma_count_is_filter(report.pods@, b);
    lemma_count_is_filter(report.config_assertions@, c);
    let parts = summary_parts(report);
    let killed = count(report.pods@, b);
    let failed = count(report.config_assertions@, c);
    if killed > 0 {
        assert(parts[1] == decimal(killed) + " OOM-killed"@);
    }
    if report.images@.len() > 1 {
        assert(parts[if killed > 0 {
            2
        } else {
            1
        }] == decimal(report.images@.len() as int) + " image versions (split rollout)"@);
    }
    if failed > 0 {
        assert(parts[parts.len() - 1] == decimal(failed) + " config assertion(s) failed"@);
    }
}

/// The greatest and the least age are ages of pods.
proof fn lemma_ages_attained(pods: Seq<PodSummary>)
    ensures
        oldest(pods) matches Some(a) ==> exists|i: int|
            0 <= i < pods.len() && (#[trigger] pods[i]).age_secs is Some && pods[i].age_secs->0 == a,
        youngest(pods) matches Some(b) ==> exists|i: int|
            0 <= i < pods.len() && (#[trigger] pods[i]).age_secs is Some && pods[i].age_secs->0 == b,
    decreases pods.len(),
{
    if pods.len() > 0 {
        let rest = pods.drop_last();
        let n = pods.len() - 1;
        lemma_ages_attained(rest);
        assert(pods[n] == pods.last());
        if oldest(pods) is Some && oldest(rest) == oldest(pods) {
            let i = choose|i: int|
                0 <= i < rest.len() && (#[trigger] rest[i]).age_secs is Some && rest[i].age_secs->0
                    == oldest(rest)->0;
            assert(pods[i] == rest[i]);
        }
        if youngest(pods) is Some && youngest(rest) == youngest(pods) {
            let i = choose|i: int|
                0 <= i < rest.len() && (#[trigger] rest[i]).age_secs is Some && rest[i].age_secs->0
                    == youngest(rest)->0;
            assert(pods[i] == rest[i]);
        }
    }
}

/// The skew is the difference between the ages of two pods, no two ages are
/// further apart, and it is known exactly where an age is.
pub proof fn lemma_skew(pods: Seq<PodSummary>)
    ensures
        skew(pods) is Some <==> exists|i: int|
            0 <= i < pods.len() && (#[trigger] pods[i]).age_secs is Some,
        skew(pods) matches Some(n) ==> {
            &&& exists|i: int, j: int|
                0 <= i < pods.len() && 0 <= j < pods.len() && (#[trigger] pods[i]).age_secs is Some
                    && (#[trigger] pods[j]).age_secs is Some && pods[i].age_secs->0
                    - pods[j].age_secs->0 == n
            &&& forall|i: int, j: int|
                0 <= i < pods.len() && 0 <= j < pods.len() && (#[trigger] pods[i]).age_secs is Some
                    && (#[trigger] pods[j]).age_secs is Some ==> pods[i].age_secs->0
                    - pods[j].age_secs->0 <= n
        },
{
    lemma_oldest_youngest(pods);
    lemma_ages_attained(pods);
    if skew(pods) is Some {
        let i = choose|i: int|
            0 <= i < pods.len() && (#[trigger] pods[i]).age_secs is Some && pods[i].age_secs->0
                == oldest(pods)->0;
        let j = choose|j: int|
            0 <= j < pods.len() && (#[trigger] pods[j]).age_secs is Some && pods[j].age_secs->0
                == youngest(pods)->0;
        assert(pods[i].age_secs->0 - pods[j].age_secs->0 == skew(pods)->0);
    }
}

} // verus!
