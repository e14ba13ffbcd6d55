//! From what the Kubernetes API tells of pods, nodes and events to the report.

use crate::kube::assertions::{assert_config, outcome};
use crate::kube::quantity::{
    as_integer, cpu_quantity, memory_quantity, parse_cpu_milli, parse_mem_bytes, readings, sum_of, sum_quantity,
    total_of,
};
use crate::kube::labels::{harvest, labels_discovery, preferred, selector, Labels};
use crate::kube::{
    distinct_images, pod_images, rollout_skew_secs, skew, ConfigAssertion, Discovery, KubeEvent, KubeReport,
    NodeInfo, PodSummary,
};
use crate::names::names_of;
use crate::tally::{count, lemma_count_is_filter, lemma_count_step};
use crate::text::{copy_of, same};
use vstd::prelude::*;

verus! {

// ── What is asked for ────────────────────────────────────────────────────────

/// What to gather from the cluster.
#[derive(Debug, Clone)]
pub struct KubeQuery {
    pub namespace: String,
    /// The selector of the deployment's pods.
    pub selector: String,
    /// The config map that holds the configuration.
    pub configmap: Option<String>,
    /// The settings that are expected there.
    pub expected_config: Vec<(String, String)>,
    /// How many log lines to scan per pod.
    pub log_tail: Option<i64>,
    /// The oldest event that counts, in seconds.
    pub event_window_secs: i64,
    /// The port that pods serve their metrics on.
    pub metrics_port: Option<u16>,
}

// ── What the API tells ───────────────────────────────────────────────────────

/// A container as its pod declares it.
#[derive(Debug, Clone)]
pub struct ContainerSpec {
    pub image: Option<String>,
    pub cpu_request: Option<String>,
    pub cpu_limit: Option<String>,
    pub mem_request: Option<String>,
    pub mem_limit: Option<String>,
}

/// The state of a container.
#[derive(Debug, Clone)]
pub struct ContainerFacts {
    pub ready: bool,
    pub restart_count: i32,
    /// Why it waits.
    pub waiting_reason: Option<String>,
    /// Why it was last terminated.
    pub terminated_reason: Option<String>,
}

/// A pod as the API tells of it.
#[derive(Debug, Clone)]
pub struct PodFacts {
    pub name: Option<String>,
    /// When it was created, in seconds since 1970.
    pub created: Option<i64>,
    pub containers: Vec<ContainerSpec>,
    pub statuses: Vec<ContainerFacts>,
    pub phase: Option<String>,
    pub node: Option<String>,
}

// ── Ages ─────────────────────────────────────────────────────────────────────

/// Seconds from `then` to `now`; none where `then` lies ahead.
pub open spec fn age(now: int, then: int) -> int {
    if now > then {
        now - then
    } else {
        0
    }
}

/// The age can be told in 64 bits.
pub open spec fn age_fits(now: int, then: Option<i64>) -> bool {
    then matches Some(t) ==> age(now, t as int) <= i64::MAX
}

/// The age of something, where its time is known.
pub open spec fn age_of(now: int, then: Option<i64>) -> Option<int> {
    match then {
        Some(t) => Some(age(now, t as int)),
        None => None,
    }
}

/// Seconds since a time; zero where the clocks disagree and it lies ahead.
pub fn age_secs_from(now: i64, then: i64) -> (r: i64)
    requires
        age(now as int, then as int) <= i64::MAX,
    ensures
        r == age(now as int, then as int),
{
    if now > then {
        now - then
    } else {
        0
    }
}

/// Whether the age can be told in 64 bits.
fn is_age_countable(now: i64, then: Option<i64>) -> (r: bool)
    ensures
        r == age_fits(now as int, then),
{
    match then {
        Some(t) => now <= t || now as i128 - t as i128 <= i64::MAX as i128,
        None => true,
    }
}

/// The age of something, where its time is known.
fn known_age(now: i64, then: Option<i64>) -> (r: Option<i64>)
    requires
        age_fits(now as int, then),
    ensures
        as_integer(r) == age_of(now as int, then),
{
    match then {
        Some(t) => Some(age_secs_from(now, t)),
        None => None,
    }
}

// ── Declared resources ───────────────────────────────────────────────────────

/// A quantity of CPU or of memory.
pub open spec fn amount(q: Seq<char>, memory: bool) -> Option<int> {
    if memory {
        memory_quantity(q)
    } else {
        cpu_quantity(q)
    }
}

/// What one container declares.
pub open spec fn declared(q: Option<Seq<char>>, memory: bool) -> Option<int> {
    match q {
        Some(s) => amount(s, memory),
        None => None,
    }
}

/// What the containers declare together.
pub open spec fn declared_sum(list: Seq<Option<Seq<char>>>, memory: bool) -> int
    decreases list.len(),
{
    if list.len() == 0 {
        0
    } else {
        declared_sum(list.drop_last(), memory) + (match declared(list.last(), memory) {
            Some(n) => n,
            None => 0,
        })
    }
}

/// What the containers declare together, where one of them declares anything
/// readable.
pub open spec fn declared_total(list: Seq<Option<Seq<char>>>, memory: bool) -> Option<int> {
    if exists|i: int| 0 <= i < list.len() && declared(#[trigger] list[i], memory) is Some {
        Some(declared_sum(list, memory))
    } else {
        None
    }
}

/// What the first containers declare together can be told in 64 bits, for any
/// number of them.
pub open spec fn declared_fits(list: Seq<Option<Seq<char>>>, memory: bool) -> bool {
    forall|k: int|
        0 <= k <= list.len() ==> i64::MIN <= #[trigger] declared_sum(list.take(k), memory)
            <= i64::MAX
}

/// The answers of the parsers are what the containers declare.
proof fn lemma_values(
    list: Seq<Option<Seq<char>>>,
    memory: bool,
    values: Seq<Option<i64>>,
)
    requires
        values.len() == list.len(),
        forall|i: int|
            0 <= i < list.len() ==> as_integer(#[trigger] values[i]) == declared(list[i], memory),
    ensures
        sum_of(values) == declared_sum(list, memory),
        total_of(values) == declared_total(list, memory),
    decreases list.len(),
{
    if list.len() > 0 {
        let a = list.drop_last();
        let b = values.drop_last();
        assert forall|i: int| 0 <= i < a.len() implies as_integer(#[trigger] b[i]) == declared(
            a[i],
            memory,
        ) by {
            assert(b[i] == values[i]);
        }
        lemma_values(a, memory, b);
        assert(as_integer(values[values.len() - 1]) == declared(list[list.len() - 1], memory));
    }
    if exists|i: int| 0 <= i < values.len() && (#[trigger] values[i]) is Some {
        let i = choose|i: int| 0 <= i < values.len() && (#[trigger] values[i]) is Some;
        assert(declared(list[i], memory) is Some);
    }
    if exists|i: int| 0 <= i < list.len() && declared(#[trigger] list[i], memory) is Some {
        let i = choose|i: int| 0 <= i < list.len() && declared(#[trigger] list[i], memory) is Some;
        assert(values[i] is Some);
    }
}

/// What the containers declare together.
fn resource_total(list: &Vec<Option<String>>, memory: bool) -> (r: Option<i64>)
    requires
        declared_fits(list.deep_view(), memory),
    ensures
        as_integer(r) == declared_total(list.deep_view(), memory),
{
    let mut texts: Vec<Option<&str>> = Vec::new();
    let ghost all = list.deep_view();
    for i in 0..list.len()
        invariant
            all == list.deep_view(),
            texts@.len() == i,
            forall|j: int|
                0 <= j < i ==> match #[trigger] texts@[j] {
                    Some(t) => all[j] == Some(t@),
                    None => all[j] is None,
                },
    {
        assert(all[i as int] == list@[i as int].deep_view());
        let t: Option<&str> = match &list[i] {
            Some(s) => Some(s.as_str()),
            None => None,
        };
        texts.push(t);
    }
    let ghost given = texts@;
    if memory {
        assert forall|k: int, values: Seq<Option<i64>>|
            0 <= k <= given.len() && readings(parse_mem_bytes, #[trigger] given.take(k), values)
            implies i64::MIN <= #[trigger] sum_of(values) <= i64::MAX by {
            assert forall|i: int| 0 <= i < k implies as_integer(#[trigger] values[i]) == declared(
                all.take(k)[i],
                true,
            ) by {
                assert(given.take(k)[i] == given[i]);
            }
            lemma_values(all.take(k), true, values);
            assert(i64::MIN <= declared_sum(all.take(k), true) <= i64::MAX);
        }
        let r = sum_quantity(texts.as_slice(), parse_mem_bytes);
        proof {
            let values = choose|values: Seq<Option<i64>>|
                readings(parse_mem_bytes, given, values) && as_integer(r) == total_of(values);
            lemma_values(all, true, values);
        }
        r
    } else {
        assert forall|k: int, values: Seq<Option<i64>>|
            0 <= k <= given.len() && readings(parse_cpu_milli, #[trigger] given.take(k), values)
            implies i64::MIN <= #[trigger] sum_of(values) <= i64::MAX by {
            assert forall|i: int| 0 <= i < k implies as_integer(#[trigger] values[i]) == declared(
                all.take(k)[i],
                false,
            ) by {
                assert(given.take(k)[i] == given[i]);
            }
            lemma_values(all.take(k), false, values);
            assert(i64::MIN <= declared_sum(all.take(k), false) <= i64::MAX);
        }
        let r = sum_quantity(texts.as_slice(), parse_cpu_milli);
        proof {
            let values = choose|values: Seq<Option<i64>>|
                readings(parse_cpu_milli, given, values) && as_integer(r) == total_of(values);
            lemma_values(all, false, values);
        }
        r
    }
}

/// Whether what the containers declare together can be told in 64 bits.
fn is_sum_countable(list: &Vec<Option<String>>, memory: bool) -> (r: bool)
    ensures
        r == declared_fits(list.deep_view(), memory),
{
    let mut total: i64 = 0;
    let ghost all = list.deep_view();
    assert(declared_sum(all.take(0), memory) == 0);
    for i in 0..list.len()
        invariant
            all == list.deep_view(),
            total == declared_sum(all.take(i as int), memory),
            forall|k: int|
                0 <= k <= i ==> i64::MIN <= #[trigger] declared_sum(all.take(k), memory)
                    <= i64::MAX,
    {
        assert(all[i as int] == list@[i as int].deep_view());
        let n: Option<i64> = match &list[i] {
            Some(s) => if memory {
                parse_mem_bytes(s.as_str())
            } else {
                parse_cpu_milli(s.as_str())
            },
            None => None,
        };
        assert(all.take(i + 1).drop_last() =~= all.take(i as int));
        assert(as_integer(n) == declared(all[i as int], memory));
        if let Some(v) = n {
            let next: i128 = total as i128 + v as i128;
            assert(declared_sum(all.take(i + 1), memory) == next);
            if next < i64::MIN as i128 || next > i64::MAX as i128 {
                return false;
            }
            total = next as i64;
        }
    }
    true
}

/// A resource that containers declare.
#[derive(Clone, Copy, PartialEq, Eq, Structural, Debug)]
pub enum Resource {
    CpuRequest,
    CpuLimit,
    MemRequest,
    MemLimit,
}

impl Resource {
    /// The resource is memory.
    pub open spec fn of_memory(self) -> bool {
        self == Resource::MemRequest || self == Resource::MemLimit
    }
}

/// What a container declares of a resource.
pub open spec fn declaration(c: ContainerSpec, which: Resource) -> Option<Seq<char>> {
    match which {
        Resource::CpuRequest => c.cpu_request.deep_view(),
        Resource::CpuLimit => c.cpu_limit.deep_view(),
        Resource::MemRequest => c.mem_request.deep_view(),
        Resource::MemLimit => c.mem_limit.deep_view(),
    }
}

/// What the containers declare of a resource.
pub open spec fn declarations(containers: Seq<ContainerSpec>, which: Resource) -> Seq<
    Option<Seq<char>>,
> {
    Seq::new(containers.len(), |i: int| declaration(containers[i], which))
}

/// A copy of an optional text.
fn copied(s: &Option<String>) -> (r: Option<String>)
    ensures
        r.deep_view() == s.deep_view(),
{
    match s {
        Some(t) => Some(copy_of(t.as_str())),
        None => None,
    }
}

/// What the containers declare of a resource.
fn collect_declarations(containers: &Vec<ContainerSpec>, which: Resource) -> (r: Vec<Option<String>>)
    ensures
        r.deep_view() == declarations(containers@, which),
{
    let mut r: Vec<Option<String>> = Vec::new();
    for i in 0..containers.len()
        invariant
            r@.len() == i,
            forall|j: int|
                0 <= j < i ==> (#[trigger] r@[j]).deep_view() == declaration(containers@[j], which),
    {
        let c = &containers[i];
        let q = match which {
            Resource::CpuRequest => copied(&c.cpu_request),
            Resource::CpuLimit => copied(&c.cpu_limit),
            Resource::MemRequest => copied(&c.mem_request),
            Resource::MemLimit => copied(&c.mem_limit),
        };
        r.push(q);
    }
    assert(r.deep_view() =~= declarations(containers@, which));
    r
}

/// What the containers declare of a resource together can be told in 64 bits.
pub open spec fn resource_fits(containers: Seq<ContainerSpec>, which: Resource) -> bool {
    declared_fits(declarations(containers, which), which.of_memory())
}

/// What the containers declare of a resource together.
pub open spec fn resource(containers: Seq<ContainerSpec>, which: Resource) -> Option<int> {
    declared_total(declarations(containers, which), which.of_memory())
}

/// What the containers declare of a resource together.
fn total_resource(containers: &Vec<ContainerSpec>, which: Resource) -> (r: Option<i64>)
    requires
        resource_fits(containers@, which),
    ensures
        as_integer(r) == resource(containers@, which),
{
    let memory = which == Resource::MemRequest || which == Resource::MemLimit;
    resource_total(&collect_declarations(containers, which), memory)
}

/// Whether what the containers declare of a resource can be told in 64 bits.
fn is_resource_countable(containers: &Vec<ContainerSpec>, which: Resource) -> (r: bool)
    ensures
        r == resource_fits(containers@, which),
{
    let memory = which == Resource::MemRequest || which == Resource::MemLimit;
    is_sum_countable(&collect_declarations(containers, which), memory)
}

// ── Pods ─────────────────────────────────────────────────────────────────────

/// The container is ready.
pub open spec fn ready_container() -> spec_fn(ContainerFacts) -> bool {
    |c: ContainerFacts| c.ready
}

/// The container was last terminated for lack of memory.
pub open spec fn killed_container() -> spec_fn(ContainerFacts) -> bool {
    |c: ContainerFacts| c.terminated_reason.deep_view() == Some("OOMKilled"@)
}

/// How often the containers restarted together.
pub open spec fn restarts(statuses: Seq<ContainerFacts>) -> int
    decreases statuses.len(),
{
    if statuses.len() == 0 {
        0
    } else {
        restarts(statuses.drop_last()) + statuses.last().restart_count
    }
}

/// The first reason that a container gives: why it waits, or else why it was
/// last terminated.
pub open spec fn first_reason(statuses: Seq<ContainerFacts>) -> Option<Seq<char>>
    decreases statuses.len(),
{
    if statuses.len() == 0 {
        None
    } else {
        match first_reason(statuses.drop_last()) {
            Some(r) => Some(r),
            None => match statuses.last().waiting_reason {
                Some(r) => Some(r@),
                None => statuses.last().terminated_reason.deep_view(),
            },
        }
    }
}

/// The figures of a pod can be told in the widths that they have.
pub open spec fn pod_fits(f: PodFacts, now: int) -> bool {
    &&& age_fits(now, f.created)
    &&& f.containers@.len() <= u32::MAX
    &&& f.statuses@.len() <= u32::MAX
    &&& forall|k: int|
        0 <= k <= f.statuses@.len() ==> i32::MIN <= #[trigger] restarts(f.statuses@.take(k))
            <= i32::MAX
    &&& resource_fits(f.containers@, Resource::CpuRequest)
    &&& resource_fits(f.containers@, Resource::CpuLimit)
    &&& resource_fits(f.containers@, Resource::MemRequest)
    &&& resource_fits(f.containers@, Resource::MemLimit)
}

/// The text, or none.
pub open spec fn text_or_empty(s: Option<String>) -> Seq<char> {
    match s {
        Some(t) => t@,
        None => ""@,
    }
}

/// What is known of a pod before its logs and its usage are.
pub open spec fn summarised(p: PodSummary, f: PodFacts, now: int) -> bool {
    &&& p.name@ == text_or_empty(f.name)
    &&& p.ready == count(f.statuses@, ready_container())
    &&& p.total_containers == f.containers@.len()
    &&& p.restarts == restarts(f.statuses@)
    &&& as_integer(p.age_secs) == age_of(now, f.created)
    &&& p.image.deep_view() == (if f.containers@.len() > 0 {
        f.containers@[0].image.deep_view()
    } else {
        None
    })
    &&& p.reason.deep_view() == (match first_reason(f.statuses@) {
        Some(r) => Some(r),
        None => f.phase.deep_view(),
    })
    &&& p.oom_killed == (exists|i: int|
        0 <= i < f.statuses@.len() && killed_container()(#[trigger] f.statuses@[i]))
    &&& !p.transform_error
    &&& !p.memory_pressure
    &&& p.node.deep_view() == f.node.deep_view()
    &&& p.cpu_used_milli is None
    &&& p.mem_used_bytes is None
    &&& as_integer(p.cpu_request_milli) == resource(f.containers@, Resource::CpuRequest)
    &&& as_integer(p.cpu_limit_milli) == resource(f.containers@, Resource::CpuLimit)
    &&& as_integer(p.mem_request_bytes) == resource(f.containers@, Resource::MemRequest)
    &&& as_integer(p.mem_limit_bytes) == resource(f.containers@, Resource::MemLimit)
}

/// Whether the figures of a pod can be told in the widths that they have.
pub fn pod_countable(f: &PodFacts, now: i64) -> (r: bool)
    ensures
        r == pod_fits(*f, now as int),
{
    if !is_age_countable(now, f.created) || f.containers.len() as u64 > u32::MAX as u64
        || f.statuses.len() as u64 > u32::MAX as u64 {
        return false;
    }
    let mut total: i32 = 0;
    assert(restarts(f.statuses@.take(0)) == 0);
    for i in 0..f.statuses.len()
        invariant
            total == restarts(f.statuses@.take(i as int)),
            forall|k: int|
                0 <= k <= i ==> i32::MIN <= #[trigger] restarts(f.statuses@.take(k)) <= i32::MAX,
    {
        assert(f.statuses@.take(i + 1).drop_last() =~= f.statuses@.take(i as int));
        let next: i64 = total as i64 + f.statuses[i].restart_count as i64;
        assert(restarts(f.statuses@.take(i + 1)) == next);
        if next < i32::MIN as i64 || next > i32::MAX as i64 {
            return false;
        }
        total = next as i32;
    }
    is_resource_countable(&f.containers, Resource::CpuRequest) && is_resource_countable(
        &f.containers,
        Resource::CpuLimit,
    ) && is_resource_countable(&f.containers, Resource::MemRequest) && is_resource_countable(
        &f.containers,
        Resource::MemLimit,
    )
}

/// Why a container gives for its state.
fn container_reason(c: &ContainerFacts) -> (r: Option<String>)
    ensures
        r.deep_view() == (match c.waiting_reason {
            Some(w) => Some(w@),
            None => c.terminated_reason.deep_view(),
        }),
{
    match &c.waiting_reason {
        Some(w) => Some(copy_of(w.as_str())),
        None => copied(&c.terminated_reason),
    }
}

/// Whether the container was last terminated for lack of memory.
fn was_killed(c: &ContainerFacts) -> (r: bool)
    ensures
        r == killed_container()(*c),
{
    match &c.terminated_reason {
        Some(t) => same(t.as_str(), "OOMKilled"),
        None => false,
    }
}

/// What is known of a pod from its specification and status.
pub fn pod_summary(f: &PodFacts, now: i64) -> (r: PodSummary)
    requires
        pod_fits(*f, now as int),
    ensures
        summarised(r, *f, now as int),
{
    let mut ready: u32 = 0;
    let mut total: i32 = 0;
    let mut killed: bool = false;
    let mut reason: Option<String> = None;
    let ghost all = f.statuses@;
    assert(restarts(all.take(0)) == 0);
    for i in 0..f.statuses.len()
        invariant
            all == f.statuses@,
            all.len() <= u32::MAX,
            forall|k: int|
                0 <= k <= all.len() ==> i32::MIN <= #[trigger] restarts(all.take(k)) <= i32::MAX,
            ready == count(all.take(i as int), ready_container()),
            ready <= i,
            total == restarts(all.take(i as int)),
            killed == (exists|j: int| 0 <= j < i && killed_container()(#[trigger] all[j])),
            reason.deep_view() == first_reason(all.take(i as int)),
    {
        let c = &f.statuses[i];
        proof {
            lemma_count_step(all, ready_container(), i as int);
            assert(all.take(i + 1).drop_last() =~= all.take(i as int));
            assert(i32::MIN <= restarts(all.take(i + 1)) <= i32::MAX);
        }
        if c.ready {
            ready = ready + 1;
        }
        total = total + c.restart_count;
        if was_killed(c) {
            assert(killed_container()(all[i as int]));
            killed = true;
        }
        if reason.is_none() {
            reason = container_reason(c);
        }
    }
    assert(all.take(all.len() as int) =~= all);
    let reason = match reason {
        Some(r) => Some(r),
        None => copied(&f.phase),
    };
    let name = match &f.name {
        Some(n) => copy_of(n.as_str()),
        None => copy_of(""),
    };
    let image = if f.containers.len() > 0 {
        copied(&f.containers[0].image)
    } else {
        None
    };
    PodSummary {
        name,
        ready,
        total_containers: f.containers.len() as u32,
        restarts: total,
        age_secs: known_age(now, f.created),
        image,
        reason,
        oom_killed: killed,
        transform_error: false,
        memory_pressure: false,
        node: copied(&f.node),
        cpu_used_milli: None,
        mem_used_bytes: None,
        cpu_request_milli: total_resource(&f.containers, Resource::CpuRequest),
        cpu_limit_milli: total_resource(&f.containers, Resource::CpuLimit),
        mem_request_bytes: total_resource(&f.containers, Resource::MemRequest),
        mem_limit_bytes: total_resource(&f.containers, Resource::MemLimit),
    }
}

// ── Marks and usage ──────────────────────────────────────────────────────────

/// The list has the name.
pub open spec fn lists(list: Seq<String>, name: Seq<char>) -> bool {
    exists|i: int| 0 <= i < list.len() && (#[trigger] list[i])@ == name
}

/// Whether the list has the name.
pub fn is_listed(list: &Vec<String>, name: &str) -> (r: bool)
    ensures
        r == lists(list@, name@),
{
    for i in 0..list.len()
        invariant
            forall|j: int| 0 <= j < i ==> (#[trigger] list@[j])@ != name@,
    {
        if same(list[i].as_str(), name) {
            return true;
        }
    }
    false
}

/// Mark the pods whose logs tell of lost rows or of memory running out.
pub fn mark_pods(pods: Vec<PodSummary>, lost: &Vec<String>, pressed: &Vec<String>) -> (r: Vec<
    PodSummary,
>)
    ensures
        r@.len() == pods@.len(),
        forall|i: int|
            0 <= i < r@.len() ==> #[trigger] r@[i] == (PodSummary {
                transform_error: lists(lost@, pods@[i].name@),
                memory_pressure: lists(pressed@, pods@[i].name@),
                ..pods@[i]
            }),
{
    let mut pods = pods;
    let ghost given = pods@;
    let n: usize = pods.len();
    for i in 0..n
        invariant
            pods@.len() == given.len() == n,
            forall|j: int| i <= j < given.len() ==> #[trigger] pods@[j] == given[j],
            forall|j: int|
                0 <= j < i ==> #[trigger] pods@[j] == (PodSummary {
                    transform_error: lists(lost@, given[j].name@),
                    memory_pressure: lists(pressed@, given[j].name@),
                    ..given[j]
                }),
    {
        let ghost before = pods@;
        let mut p = pods.remove(i);
        p.transform_error = is_listed(lost, p.name.as_str());
        p.memory_pressure = is_listed(pressed, p.name.as_str());
        let ghost marked = p;
        pods.insert(i, p);
        assert(pods@ =~= before.update(i as int, marked));
    }
    pods
}

/// A pod with what its containers use, which the metrics API tells.
pub fn with_usage(pod: PodSummary, cpu: &Vec<Option<String>>, memory: &Vec<Option<String>>) -> (r:
    PodSummary)
    requires
        declared_fits(cpu.deep_view(), false),
        declared_fits(memory.deep_view(), true),
    ensures
        as_integer(r.cpu_used_milli) == declared_total(cpu.deep_view(), false),
        as_integer(r.mem_used_bytes) == declared_total(memory.deep_view(), true),
        r == (PodSummary {
            cpu_used_milli: r.cpu_used_milli,
            mem_used_bytes: r.mem_used_bytes,
            ..pod
        }),
{
    let mut pod = pod;
    pod.cpu_used_milli = resource_total(cpu, false);
    pod.mem_used_bytes = resource_total(memory, true);
    pod
}

/// Whether what the containers use can be told in 64 bits.
pub fn usage_countable(cpu: &Vec<Option<String>>, memory: &Vec<Option<String>>) -> (r: bool)
    ensures
        r == (declared_fits(cpu.deep_view(), false) && declared_fits(memory.deep_view(), true)),
{
    is_sum_countable(cpu, false) && is_sum_countable(memory, true)
}

// ── Nodes ────────────────────────────────────────────────────────────────────

/// A node as the API tells of it.
#[derive(Debug, Clone)]
pub struct NodeFacts {
    pub name: String,
    /// What it can allocate.
    pub cpu: Option<String>,
    pub memory: Option<String>,
    pub instance_type: Option<String>,
}

/// What a node can allocate.
pub fn node_info(f: &NodeFacts) -> (r: NodeInfo)
    ensures
        r.name@ == f.name@,
        as_integer(r.alloc_cpu_milli) == declared(f.cpu.deep_view(), false),
        as_integer(r.alloc_mem_bytes) == declared(f.memory.deep_view(), true),
        r.instance_type.deep_view() == f.instance_type.deep_view(),
{
    NodeInfo {
        name: copy_of(f.name.as_str()),
        alloc_cpu_milli: match &f.cpu {
            Some(q) => parse_cpu_milli(q.as_str()),
            None => None,
        },
        alloc_mem_bytes: match &f.memory {
            Some(q) => parse_mem_bytes(q.as_str()),
            None => None,
        },
        instance_type: copied(&f.instance_type),
    }
}

// ── Events ───────────────────────────────────────────────────────────────────

/// An event as the API tells of it.
#[derive(Debug, Clone)]
pub struct EventFacts {
    pub reason: Option<String>,
    pub message: Option<String>,
    /// The object that it is about.
    pub involved: Option<String>,
    /// When it was last seen, in seconds since 1970.
    pub last_seen: Option<i64>,
    /// When it happened.
    pub event_time: Option<i64>,
}

/// An event as a model.
#[verifier::ext_equal]
pub struct EventView {
    pub reason: Seq<char>,
    pub message: Seq<char>,
    pub involved: Seq<char>,
    pub age_secs: Option<int>,
}

impl DeepView for KubeEvent {
    type V = EventView;

    open spec fn deep_view(&self) -> EventView {
        EventView {
            reason: self.reason@,
            message: self.message@,
            involved: self.involved@,
            age_secs: as_integer(self.age_secs),
        }
    }
}

/// The time that counts: when the event was last seen, or else when it happened.
pub open spec fn event_moment(f: EventFacts) -> Option<i64> {
    match f.last_seen {
        Some(t) => Some(t),
        None => f.event_time,
    }
}

/// The event that the API tells of, if it has a reason.
pub open spec fn event_view(f: EventFacts, now: int) -> Option<EventView> {
    match f.reason {
        None => None,
        Some(reason) => Some(
            EventView {
                reason: reason@,
                message: text_or_empty(f.message),
                involved: text_or_empty(f.involved),
                age_secs: age_of(now, event_moment(f)),
            },
        ),
    }
}

/// The reasons of the events that are of interest.
pub open spec fn interesting(reason: Seq<char>) -> bool {
    reason == "OOMKilling"@ || reason == "Evicted"@ || reason == "BackOff"@ || reason == "Failed"@
        || reason == "FailedScheduling"@ || reason == "Unhealthy"@
}

/// The event is of interest, and not too old.
pub open spec fn relevant(e: EventView, window: int) -> bool {
    interesting(e.reason) && (e.age_secs matches Some(a) ==> a <= window)
}

/// The events of interest that are not too old.
pub open spec fn relevant_events(list: Seq<EventFacts>, now: int, window: int) -> Seq<EventView>
    decreases list.len(),
{
    if list.len() == 0 {
        Seq::empty()
    } else {
        let rest = relevant_events(list.drop_last(), now, window);
        match event_view(list.last(), now) {
            Some(e) if relevant(e, window) => rest.push(e),
            _ => rest,
        }
    }
}

/// The text, or none.
fn copied_or_empty(s: &Option<String>) -> (r: String)
    ensures
        r@ == text_or_empty(*s),
{
    match s {
        Some(t) => copy_of(t.as_str()),
        None => copy_of(""),
    }
}

/// The event that the API tells of, if it has a reason.
pub fn kube_event(f: &EventFacts, now: i64) -> (r: Option<KubeEvent>)
    requires
        age_fits(now as int, event_moment(*f)),
    ensures
        r.deep_view() == event_view(*f, now as int),
{
    let moment = match f.last_seen {
        Some(t) => Some(t),
        None => f.event_time,
    };
    match &f.reason {
        None => None,
        Some(reason) => Some(
            KubeEvent {
                reason: copy_of(reason.as_str()),
                message: copied_or_empty(&f.message),
                involved: copied_or_empty(&f.involved),
                age_secs: known_age(now, moment),
            },
        ),
    }
}

/// Whether an event with this reason is of interest.
pub fn interesting_event(reason: &str) -> (r: bool)
    ensures
        r == interesting(reason@),
{
    same(reason, "OOMKilling") || same(reason, "Evicted") || same(reason, "BackOff") || same(
        reason,
        "Failed",
    ) || same(reason, "FailedScheduling") || same(reason, "Unhealthy")
}

/// Whether the age of an event can be told in 64 bits.
pub fn event_countable(f: &EventFacts, now: i64) -> (r: bool)
    ensures
        r == age_fits(now as int, event_moment(*f)),
{
    let moment = match f.last_seen {
        Some(t) => Some(t),
        None => f.event_time,
    };
    is_age_countable(now, moment)
}

/// The events of interest that are not older than `window` seconds.
pub fn recent_events(list: &Vec<EventFacts>, now: i64, window: i64) -> (r: Vec<KubeEvent>)
    requires
        forall|i: int|
            0 <= i < list@.len() ==> age_fits(now as int, event_moment(#[trigger] list@[i])),
    ensures
        r.deep_view() == relevant_events(list@, now as int, window as int),
{
    let mut r: Vec<KubeEvent> = Vec::new();
    assert(r.deep_view() =~= Seq::empty());
    for i in 0..list.len()
        invariant
            forall|i: int|
                0 <= i < list@.len() ==> age_fits(now as int, event_moment(#[trigger] list@[i])),
            r.deep_view() == relevant_events(list@.take(i as int), now as int, window as int),
    {
        let ghost before = r.deep_view();
        assert(list@.take(i + 1).drop_last() =~= list@.take(i as int));
        assert(list@.take(i + 1).last() == list@[i as int]);
        if let Some(e) = kube_event(&list[i], now) {
            let young = match e.age_secs {
                Some(a) => a <= window,
                None => true,
            };
            if young && interesting_event(e.reason.as_str()) {
                let ghost added = e.deep_view();
                r.push(e);
                assert(r.deep_view() =~= before.push(added));
            }
        }
    }
    assert(list@.take(list@.len() as int) =~= list@);
    r
}

// ── Configuration ────────────────────────────────────────────────────────────

/// The outcome of an expected setting where there is no configuration.
pub open spec fn missing(key: Seq<char>, expected: Seq<char>, a: ConfigAssertion) -> bool {
    &&& a.key@ == key
    &&& a.expected@ == expected
    &&& a.actual is None
    &&& !a.pass
}

/// Hold the expected settings against the configuration of a config map. Where
/// the config map has none, every one of them fails.
pub fn config_outcomes(body: &Option<String>, expected: &Vec<(String, String)>) -> (r: Vec<
    ConfigAssertion,
>)
    ensures
        r@.len() == expected@.len(),
        forall|i: int|
            0 <= i < r@.len() ==> match *body {
                Some(b) => outcome(b@, expected@[i].0@, expected@[i].1@, #[trigger] r@[i]),
                None => missing(expected@[i].0@, expected@[i].1@, r@[i]),
            },
{
    match body {
        Some(b) => assert_config(b.as_str(), expected),
        None => {
            let mut r: Vec<ConfigAssertion> = Vec::new();
            for i in 0..expected.len()
                invariant
                    r@.len() == i,
                    forall|j: int|
                        0 <= j < i ==> missing(
                            expected@[j].0@,
                            expected@[j].1@,
                            #[trigger] r@[j],
                        ),
            {
                let (key, want) = &expected[i];
                r.push(
                    ConfigAssertion {
                        key: copy_of(key.as_str()),
                        expected: copy_of(want.as_str()),
                        actual: None,
                        pass: false,
                    },
                );
            }
            r
        },
    }
}

/// The config map to read, where there is anything to expect of it.
pub fn config_to_read<'a>(query: &'a KubeQuery) -> (r: Option<&'a String>)
    ensures
        r is Some == (query.configmap is Some && query.expected_config@.len() > 0),
        r matches Some(name) ==> query.configmap == Some(*name),
{
    match &query.configmap {
        Some(name) => if query.expected_config.len() > 0 {
            Some(name)
        } else {
            None
        },
        None => None,
    }
}

// ── Nothing selected ─────────────────────────────────────────────────────────

/// What could have been selected: another namespace where there is none of that
/// name, else other labels.
pub fn discover(namespace: &str, namespaces: Vec<String>, labels: &Vec<Labels>) -> (r: Discovery)
    ensures
        match r {
            Discovery::Namespaces(names) => names == namespaces && !lists(
                namespaces@,
                namespace@,
            ),
            Discovery::Labels { namespace: n, keys, suggestion } => {
                &&& lists(namespaces@, namespace@)
                &&& n@ == namespace@
                &&& harvest(keys.deep_view(), labels@)
                &&& suggestion.deep_view() == selector(keys.deep_view(), preferred())
            },
        },
{
    if is_listed(&namespaces, namespace) {
        labels_discovery(namespace, labels)
    } else {
        Discovery::Namespaces(namespaces)
    }
}

// ── The report ───────────────────────────────────────────────────────────────

/// The report on the pods of a namespace: which images they run and how far
/// apart they were created.
pub fn report_on(namespace: &str, pods: Vec<PodSummary>) -> (r: KubeReport)
    requires
        skew(pods@) matches Some(n) ==> n <= i64::MAX,
    ensures
        r.namespace@ == namespace@,
        r.pods == pods,
        names_of(r.images.deep_view(), pod_images(pods@)),
        as_integer(r.rollout_skew_secs) == skew(pods@),
        r.error is None,
        r.discovery is None,
        r.log_stats is None,
        r.events@.len() == 0,
        r.config_assertions@.len() == 0,
        r.log_signals@.len() == 0,
        r.pod_logs@.len() == 0,
        r.pod_metrics@.len() == 0,
        r.pod_metric_summaries@.len() == 0,
        r.pod_stability@.len() == 0,
        r.nodes@.len() == 0,
{
    let images = distinct_images(&pods);
    let apart = rollout_skew_secs(&pods);
    let mut r = KubeReport::empty(namespace);
    r.pods = pods;
    r.images = images;
    r.rollout_skew_secs = apart;
    r
}

// ── Laws ─────────────────────────────────────────────────────────────────────

/// Ages count from the past to now; what lies ahead has no age yet.
pub proof fn lemma_ages(now: int, then: i64)
    ensures
        age_of(now, None) is None,
        then <= now ==> age_of(now, Some(then)) == Some(now - then),
        then > now ==> age_of(now, Some(then)) == Some(0int),
{
}

/// One more container adds what it declares to the total, and nothing where what
/// it declares cannot be read.
pub proof fn lemma_declared_grows(list: Seq<Option<Seq<char>>>, q: Seq<char>, memory: bool)
    ensures
        declared_total(Seq::empty(), memory) is None,
        declared_total(list.push(None), memory) == declared_total(list, memory),
        ({
            let read = if memory {
                memory_quantity(q)
            } else {
                cpu_quantity(q)
            };
            declared_total(list.push(Some(q)), memory) == (match read {
                Some(n) => Some(
                    n + (match declared_total(list, memory) {
                        Some(t) => t,
                        None => 0,
                    }),
                ),
                None => declared_total(list, memory),
            })
        }),
{
    lemma_declared_push(list, None, memory);
    lemma_declared_push(list, Some(q), memory);
}

/// What one more container makes of the total.
proof fn lemma_declared_push(list: Seq<Option<Seq<char>>>, x: Option<Seq<char>>, memory: bool)
    ensures
        declared_total(list.push(x), memory) == (match declared(x, memory) {
            Some(n) => Some(
                n + (match declared_total(list, memory) {
                    Some(t) => t,
                    None => 0,
                }),
            ),
            None => declared_total(list, memory),
        }),
{
    let f = |y: Option<Seq<char>>| declared(y, memory);
    let b = list.push(x);
    assert(b.drop_last() =~= list);
    assert(b[list.len() as int] == x);
    if declared_total(list, memory) is Some {
        let i = choose|i: int| 0 <= i < list.len() && declared(#[trigger] list[i], memory) is Some;
        assert(b[i] == list[i]);
        assert(f(b[i]) is Some);
        assert(declared_total(b, memory) == Some(declared_sum(b, memory)));
    } else {
        lemma_nothing_declared(list, memory);
        if f(x) is Some {
            assert(declared(b[list.len() as int], memory) is Some);
            assert(declared_total(b, memory) == Some(declared_sum(b, memory)));
        } else {
            assert forall|i: int| 0 <= i < b.len() implies declared(#[trigger] b[i], memory) is None by {
                if i < list.len() {
                    assert(b[i] == list[i]);
                }
            }
            assert(declared_total(b, memory) is None);
        }
    }
}

/// Where nothing is declared the sum is zero.
proof fn lemma_nothing_declared(list: Seq<Option<Seq<char>>>, memory: bool)
    requires
        forall|i: int| 0 <= i < list.len() ==> declared(#[trigger] list[i], memory) is None,
    ensures
        declared_sum(list, memory) == 0,
    decreases list.len(),
{
    if list.len() > 0 {
        assert(declared(list[list.len() - 1], memory) is None);
        assert forall|i: int| 0 <= i < list.len() - 1 implies declared(
            #[trigger] list.drop_last()[i],
            memory,
        ) is None by {
            assert(declared(list[i], memory) is None);
        }
        lemma_nothing_declared(list.drop_last(), memory);
    }
}

/// A resource of a pod is what its containers declare of that resource: of CPU in
/// millicores, of memory in bytes.
pub proof fn lemma_resources(c: ContainerSpec)
    ensures
        resource(seq![c], Resource::CpuRequest) == (match c.cpu_request {
            Some(q) => cpu_quantity(q@),
            None => None,
        }),
        resource(seq![c], Resource::CpuLimit) == (match c.cpu_limit {
            Some(q) => cpu_quantity(q@),
            None => None,
        }),
        resource(seq![c], Resource::MemRequest) == (match c.mem_request {
            Some(q) => memory_quantity(q@),
            None => None,
        }),
        resource(seq![c], Resource::MemLimit) == (match c.mem_limit {
            Some(q) => memory_quantity(q@),
            None => None,
        }),
{
    lemma_one_declared(c, Resource::CpuRequest);
    lemma_one_declared(c, Resource::CpuLimit);
    lemma_one_declared(c, Resource::MemRequest);
    lemma_one_declared(c, Resource::MemLimit);
}

/// What one container declares is the total.
proof fn lemma_one_declared(c: ContainerSpec, which: Resource)
    ensures
        resource(seq![c], which) == declared(declaration(c, which), which.of_memory()),
{
    let memory = which.of_memory();
    let d = declaration(c, which);
    let none = Seq::<Option<Seq<char>>>::empty();
    assert(declarations(seq![c], which) =~= none.push(d));
    match d {
        Some(q) => lemma_declared_grows(none, q, memory),
        None => lemma_declared_grows(none, Seq::empty(), memory),
    }
}

/// The reason of a pod is that of the first container that gives one: why it
/// waits, or else why it was last terminated.
pub proof fn lemma_first_reason(statuses: Seq<ContainerFacts>, i: int)
    requires
        0 <= i < statuses.len(),
        statuses[i].waiting_reason is Some || statuses[i].terminated_reason is Some,
        forall|j: int|
            0 <= j < i ==> (#[trigger] statuses[j]).waiting_reason is None
                && statuses[j].terminated_reason is None,
    ensures
        statuses[i].waiting_reason matches Some(r) ==> first_reason(statuses) == Some(r@),
        statuses[i].waiting_reason is None ==> first_reason(statuses) == Some(
            statuses[i].terminated_reason->0@,
        ),
    decreases statuses.len(),
{
    let rest = statuses.drop_last();
    if i < statuses.len() - 1 {
        assert(rest[i] == statuses[i]);
        assert forall|j: int| 0 <= j < i implies (#[trigger] rest[j]).waiting_reason is None
            && rest[j].terminated_reason is None by {
            assert(rest[j] == statuses[j]);
        }
        lemma_first_reason(rest, i);
    } else {
        assert forall|j: int| 0 <= j < rest.len() implies (#[trigger] rest[j]).waiting_reason is None
            && rest[j].terminated_reason is None by {
            assert(rest[j] == statuses[j]);
        }
        lemma_no_reason(rest);
    }
}

/// Where no container gives a reason there is none.
pub proof fn lemma_no_reason(statuses: Seq<ContainerFacts>)
    requires
        forall|j: int|
            0 <= j < statuses.len() ==> (#[trigger] statuses[j]).waiting_reason is None
                && statuses[j].terminated_reason is None,
    ensures
        first_reason(statuses) is None,
    decreases statuses.len(),
{
    if statuses.len() > 0 {
        let rest = statuses.drop_last();
        assert(statuses.last() == statuses[statuses.len() - 1]);
        assert forall|j: int| 0 <= j < rest.len() implies (#[trigger] rest[j]).waiting_reason is None
            && rest[j].terminated_reason is None by {
            assert(rest[j] == statuses[j]);
        }
        lemma_no_reason(rest);
    }
}

/// How the figures of a pod follow from what the API tells of it.
pub proof fn lemma_pod_figures(p: PodSummary, f: PodFacts, now: int)
    requires
        summarised(p, f, now),
    ensures
        f.name matches Some(n) ==> p.name@ == n@,
        f.name is None ==> p.name@.len() == 0,
        p.ready == f.statuses@.filter(|c: ContainerFacts| c.ready).len(),
        p.total_containers == f.containers@.len(),
        f.statuses@.len() == 0 ==> p.restarts == 0,
        p.oom_killed <==> exists|i: int|
            0 <= i < f.statuses@.len() && (#[trigger] f.statuses@[i]).terminated_reason is Some
                && f.statuses@[i].terminated_reason->0@ == "OOMKilled"@,
        f.containers@.len() > 0 ==> p.image.deep_view() == f.containers@[0].image.deep_view(),
        first_reason(f.statuses@) matches Some(r) ==> p.reason.deep_view() == Some(r),
        first_reason(f.statuses@) is None ==> p.reason.deep_view() == f.phase.deep_view(),
        p.node.deep_view() == f.node.deep_view(),
        f.created is None ==> p.age_secs is None,
        f.created matches Some(t) ==> p.age_secs is Some && p.age_secs->0 == (if t <= now {
            now - t
        } else {
            0
        }),
        as_integer(p.cpu_request_milli) == resource(f.containers@, Resource::CpuRequest),
        as_integer(p.cpu_limit_milli) == resource(f.containers@, Resource::CpuLimit),
        as_integer(p.mem_request_bytes) == resource(f.containers@, Resource::MemRequest),
        as_integer(p.mem_limit_bytes) == resource(f.containers@, Resource::MemLimit),
{
    reveal_strlit("");
    let q = |c: ContainerFacts| c.ready;
    assert(ready_container() =~= q);
    lemma_count_is_filter(f.statuses@, q);
    if p.oom_killed {
        let i = choose|i: int|
            0 <= i < f.statuses@.len() && killed_container()(#[trigger] f.statuses@[i]);
        assert(f.statuses@[i].terminated_reason is Some);
    }
    if exists|i: int|
        0 <= i < f.statuses@.len() && (#[trigger] f.statuses@[i]).terminated_reason is Some
            && f.statuses@[i].terminated_reason->0@ == "OOMKilled"@ {
        let i = choose|i: int|
            0 <= i < f.statuses@.len() && (#[trigger] f.statuses@[i]).terminated_reason is Some
                && f.statuses@[i].terminated_reason->0@ == "OOMKilled"@;
        assert(killed_container()(f.statuses@[i]));
    }
}

/// One more container adds its restarts.
pub proof fn lemma_restarts_add_up(statuses: Seq<ContainerFacts>, c: ContainerFacts)
    ensures
        restarts(statuses.push(c)) == restarts(statuses) + c.restart_count,
        restarts(Seq::empty()) == 0,
{
    assert(statuses.push(c).drop_last() =~= statuses);
}

/// Of the events those are kept, in their order, that tell of a container that was
/// killed, evicted, held back or failed, that could not be scheduled or that is
/// unhealthy, unless they are known to be older than the window.
pub proof fn lemma_events_kept(list: Seq<EventFacts>, f: EventFacts, now: int, window: int)
    ensures
        relevant_events(Seq::empty(), now, window).len() == 0,
        ({
            let told = f.reason is Some && (f.reason->0@ == "OOMKilling"@ || f.reason->0@
                == "Evicted"@ || f.reason->0@ == "BackOff"@ || f.reason->0@ == "Failed"@
                || f.reason->0@ == "FailedScheduling"@ || f.reason->0@ == "Unhealthy"@);
            let seen = if f.last_seen is Some {
                f.last_seen
            } else {
                f.event_time
            };
            let fresh = seen is None || now - seen->0 <= window && 0 <= window;
            let old = relevant_events(list, now, window);
            let r = relevant_events(list.push(f), now, window);
            &&& !(told && fresh) ==> r == old
            &&& told && fresh ==> r.len() == old.len() + 1 && r.drop_last() == old
                && r.last().reason == f.reason->0@
            &&& told && fresh && f.message is None ==> r.last().message.len() == 0
            &&& told && fresh && f.involved is None ==> r.last().involved.len() == 0
            &&& told && fresh && f.message is Some ==> r.last().message == f.message->0@
            &&& told && fresh && f.involved is Some ==> r.last().involved == f.involved->0@
            &&& told && fresh ==> (r.last().age_secs is Some <==> seen is Some)
            &&& told && fresh && seen is Some && seen->0 <= now ==> r.last().age_secs == Some(
                now - seen->0,
            )
        }),
{
    reveal_strlit("");
    let grown = list.push(f);
    assert(grown.drop_last() =~= list);
    assert(grown.last() == f);
    let old = relevant_events(list, now, window);
    if relevant_events(grown, now, window) != old {
        let e = event_view(f, now)->0;
        assert(old.push(e).drop_last() =~= old);
    }
}

} // verus!
