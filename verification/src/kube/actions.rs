//! What decides the course of the actions that change the cluster: deleting a
//! pod, recycling all of them one at a time, and draining a node. The caller
//! has obtained the permission and the confirmation, and talks to the cluster.

use crate::decimal::{count_text, decimal};
use crate::kube::client::is_listed;
use crate::tally::{count, lemma_count_is_filter, lemma_count_step};
use crate::text::{cat2, cat4, cat5, cat6, cat7, copy_of, same};
use vstd::prelude::*;

verus! {

/// How an action, or a step of it, came out.
#[derive(Debug, Clone)]
pub enum ActionOutcome {
    Done(String),
    Failed(String),
}

/// How an action came out, as a model.
#[verifier::ext_equal]
pub enum OutcomeView {
    Done(Seq<char>),
    Failed(Seq<char>),
}

impl DeepView for ActionOutcome {
    type V = OutcomeView;

    open spec fn deep_view(&self) -> OutcomeView {
        match self {
            ActionOutcome::Done(m) => OutcomeView::Done(m@),
            ActionOutcome::Failed(m) => OutcomeView::Failed(m@),
        }
    }
}

/// What an outcome says.
pub open spec fn said(o: OutcomeView) -> Seq<char> {
    match o {
        OutcomeView::Done(m) => m,
        OutcomeView::Failed(m) => m,
    }
}

impl ActionOutcome {
    /// What the outcome says.
    pub fn message(&self) -> (r: &str)
        ensures
            r@ == said(self.deep_view()),
    {
        match self {
            ActionOutcome::Done(m) => m.as_str(),
            ActionOutcome::Failed(m) => m.as_str(),
        }
    }

    /// Whether the step succeeded.
    pub fn is_ok(&self) -> (r: bool)
        ensures
            r == (self.deep_view() is Done),
    {
        match self {
            ActionOutcome::Done(_) => true,
            ActionOutcome::Failed(_) => false,
        }
    }
}

/// The first failure.
pub open spec fn first_failure(outcomes: Seq<OutcomeView>) -> Option<Seq<char>>
    decreases outcomes.len(),
{
    if outcomes.len() == 0 {
        None
    } else {
        match outcomes[0] {
            OutcomeView::Failed(m) => Some(m),
            OutcomeView::Done(_) => first_failure(outcomes.drop_first()),
        }
    }
}

/// What the outcomes of several steps come down to: the first failure, else the
/// last success.
pub open spec fn outcome_line(outcomes: Seq<OutcomeView>) -> Seq<char> {
    match first_failure(outcomes) {
        Some(m) => m,
        None => if outcomes.len() == 0 {
            "no-op"@
        } else {
            said(outcomes.last())
        },
    }
}

/// One line on the outcomes of several steps: the first failure, else the last
/// success.
pub fn summarize_outcomes(outcomes: &Vec<ActionOutcome>) -> (r: String)
    ensures
        r@ == outcome_line(outcomes.deep_view()),
{
    let ghost all = outcomes.deep_view();
    assert(all.skip(0) =~= all);
    for i in 0..outcomes.len()
        invariant
            all == outcomes.deep_view(),
            first_failure(all) == first_failure(all.skip(i as int)),
    {
        assert(all.skip(i as int)[0] == outcomes@[i as int].deep_view());
        assert(all.skip(i as int).drop_first() =~= all.skip(i + 1));
        if !outcomes[i].is_ok() {
            return copy_of(outcomes[i].message());
        }
    }
    let n: usize = outcomes.len();
    assert(all.skip(all.len() as int) =~= Seq::empty());
    if n == 0 {
        copy_of("no-op")
    } else {
        assert(all.last() == outcomes@[n - 1].deep_view());
        copy_of(outcomes[n - 1].message())
    }
}

/// The outcome of deleting a pod, given the error where there was one.
pub fn deletion(pod: &str, error: &Option<String>) -> (r: ActionOutcome)
    ensures
        r.deep_view() == (match *error {
            None => OutcomeView::Done("deleted pod "@ + pod@),
            Some(e) => OutcomeView::Failed("delete "@ + pod@ + ": "@ + e@),
        }),
{
    match error {
        None => ActionOutcome::Done(cat2("deleted pod ", pod)),
        Some(e) => ActionOutcome::Failed(cat4("delete ", pod, ": ", e.as_str())),
    }
}

// ── Recycling all pods ───────────────────────────────────────────────────────

/// A rolling recycle: the pods to delete, one after the other, and how far it
/// has come.
#[derive(Debug)]
pub struct Roll {
    names: Vec<String>,
    at: usize,
    waiting: bool,
    stopped: bool,
    outcomes: Vec<ActionOutcome>,
}

/// A rolling recycle as a model.
#[verifier::ext_equal]
pub struct RollView {
    /// The pods that there were at the start.
    pub names: Seq<Seq<char>>,
    /// How many of them have been recycled.
    pub at: int,
    /// The next one has been deleted, and its replacement is not ready yet.
    pub waiting: bool,
    /// Nothing more is done.
    pub stopped: bool,
    pub outcomes: Seq<OutcomeView>,
}

impl View for Roll {
    type V = RollView;

    closed spec fn view(&self) -> RollView {
        RollView {
            names: self.names.deep_view(),
            at: self.at as int,
            waiting: self.waiting,
            stopped: self.stopped,
            outcomes: self.outcomes.deep_view(),
        }
    }
}

/// What to do next.
#[derive(Debug)]
pub enum RollStep {
    /// Delete this pod.
    Delete(String),
    /// Count the pods that are ready.
    Count,
    /// Nothing.
    Finish,
}

impl RollView {
    /// The recycle goes on, or has come to its end: with every pod recycled, or
    /// with a failure, which is the last outcome.
    pub open spec fn wf(self) -> bool {
        &&& 0 <= self.at <= self.names.len()
        &&& !self.stopped ==> self.at < self.names.len()
        &&& self.waiting ==> !self.stopped
        &&& self.outcomes.len() >= self.at
        &&& !self.stopped ==> self.outcomes.len() == self.at
        &&& self.outcomes.len() <= self.at + 1
        &&& self.outcomes.len() == self.at + 1 ==> self.outcomes.last() is Failed
        &&& self.stopped && self.outcomes.len() == self.at ==> self.at == self.names.len()
        &&& forall|i: int| 0 <= i < self.at ==> (#[trigger] self.outcomes[i]) is Done
    }

    /// At the start; there has to be a pod.
    pub open spec fn started(names: Seq<Seq<char>>, selector: Seq<char>) -> RollView {
        RollView {
            names,
            at: 0,
            waiting: false,
            stopped: names.len() == 0,
            outcomes: if names.len() == 0 {
                seq![OutcomeView::Failed("no pods match selector "@ + selector)]
            } else {
                Seq::empty()
            },
        }
    }

    /// Stopped by a failure.
    pub open spec fn failed(self, m: Seq<char>) -> RollView {
        RollView {
            waiting: false,
            stopped: true,
            outcomes: self.outcomes.push(OutcomeView::Failed(m)),
            ..self
        }
    }

    /// The pod was deleted, or could not be.
    pub open spec fn after_delete(self, error: Option<Seq<char>>) -> RollView {
        match error {
            Some(e) => self.failed("delete "@ + self.names[self.at] + ": "@ + e),
            None => RollView { waiting: true, ..self },
        }
    }

    /// The pods that are ready were counted.
    pub open spec fn after_count(self, ready: int, timed_out: bool) -> RollView {
        let name = self.names[self.at];
        let want = self.names.len() as int;
        if ready >= want {
            RollView {
                at: self.at + 1,
                waiting: false,
                stopped: self.at + 1 == want,
                outcomes: self.outcomes.push(
                    OutcomeView::Done(
                        "recycled "@ + name + " ("@ + decimal(self.at + 1) + "/"@ + decimal(want)
                            + ")"@,
                    ),
                ),
                ..self
            }
        } else if timed_out {
            self.failed(
                "after "@ + name + (": timed out waiting for "@ + decimal(want) + " ready (saw "@
                    + decimal(ready) + ")"@) + " — stopping roll"@,
            )
        } else {
            self
        }
    }

    /// The pods could not be counted.
    pub open spec fn after_failed_count(self, error: Seq<char>) -> RollView {
        self.failed(
            "after "@ + self.names[self.at] + ": list while waiting: "@ + error
                + " — stopping roll"@,
        )
    }
}

impl Roll {
    /// Start to recycle the pods that the selector matched.
    pub fn start(names: Vec<String>, selector: &str) -> (r: Roll)
        ensures
            r@ == RollView::started(names.deep_view(), selector@),
            r@.wf(),
    {
        let mut outcomes: Vec<ActionOutcome> = Vec::new();
        let stopped = names.len() == 0;
        if stopped {
            outcomes.push(ActionOutcome::Failed(cat2("no pods match selector ", selector)));
        }
        let r = Roll { names, at: 0, waiting: false, stopped, outcomes };
        assert(r@ =~= RollView::started(names.deep_view(), selector@));
        r
    }

    /// What to do next.
    pub fn next_step(&self) -> (r: RollStep)
        requires
            self@.wf(),
        ensures
            match r {
                RollStep::Delete(pod) => !self@.stopped && !self@.waiting && pod@
                    == self@.names[self@.at],
                RollStep::Count => self@.waiting,
                RollStep::Finish => self@.stopped,
            },
    {
        if self.stopped {
            RollStep::Finish
        } else if self.waiting {
            RollStep::Count
        } else {
            RollStep::Delete(copy_of(self.names[self.at].as_str()))
        }
    }

    /// Stop after a failure.
    fn fail(&mut self, message: String)
        requires
            old(self)@.wf(),
            !old(self)@.stopped,
        ensures
            final(self)@ == old(self)@.failed(message@),
            final(self)@.wf(),
    {
        let ghost before = self@;
        self.waiting = false;
        self.stopped = true;
        self.outcomes.push(ActionOutcome::Failed(message));
        assert(self@.outcomes =~= before.outcomes.push(OutcomeView::Failed(message@)));
        assert(self@ =~= before.failed(message@));
    }

    /// The pod was deleted, or could not be.
    pub fn deleted(&mut self, error: Option<String>)
        requires
            old(self)@.wf(),
            !old(self)@.stopped,
            !old(self)@.waiting,
        ensures
            final(self)@ == old(self)@.after_delete(error.deep_view()),
            final(self)@.wf(),
    {
        match error {
            Some(e) => {
                let message = cat4("delete ", self.names[self.at].as_str(), ": ", e.as_str());
                self.fail(message);
            },
            None => {
                self.waiting = true;
            },
        }
    }

    /// The pods that are ready were counted, and the time for the replacement
    /// has run out or not.
    pub fn counted(&mut self, ready: usize, timed_out: bool)
        requires
            old(self)@.wf(),
            old(self)@.waiting,
        ensures
            final(self)@ == old(self)@.after_count(ready as int, timed_out),
            final(self)@.wf(),
    {
        let ghost before = self@;
        let want: usize = self.names.len();
        if ready >= want {
            let message = cat7(
                "recycled ",
                self.names[self.at].as_str(),
                " (",
                count_text(self.at + 1).as_str(),
                "/",
                count_text(want).as_str(),
                ")",
            );
            self.at = self.at + 1;
            self.waiting = false;
            self.stopped = self.at == want;
            self.outcomes.push(ActionOutcome::Done(message));
            assert(self@.outcomes =~= before.outcomes.push(OutcomeView::Done(message@)));
            assert(self@ =~= before.after_count(ready as int, timed_out));
        } else if timed_out {
            let why = cat5(
                ": timed out waiting for ",
                count_text(want).as_str(),
                " ready (saw ",
                count_text(ready).as_str(),
                ")",
            );
            let message = cat4(
                "after ",
                self.names[self.at].as_str(),
                why.as_str(),
                " — stopping roll",
            );
            self.fail(message);
        }
    }

    /// The pods could not be counted.
    pub fn count_failed(&mut self, error: &str)
        requires
            old(self)@.wf(),
            old(self)@.waiting,
        ensures
            final(self)@ == old(self)@.after_failed_count(error@),
            final(self)@.wf(),
    {
        let message = cat5(
            "after ",
            self.names[self.at].as_str(),
            ": list while waiting: ",
            error,
            " — stopping roll",
        );
        self.fail(message);
    }

    /// How the steps came out.
    pub fn outcomes(self) -> (r: Vec<ActionOutcome>)
        ensures
            r.deep_view() == self@.outcomes,
    {
        self.outcomes
    }
}

/// The pod has the condition `Ready`.
pub open spec fn has_ready(conditions: Seq<(String, String)>) -> bool {
    exists|i: int|
        0 <= i < conditions.len() && (#[trigger] conditions[i]).0@ == "Ready"@ && conditions[i].1@
            == "True"@
}

/// Whether a pod reports to be ready, given its conditions.
pub fn pod_ready(conditions: &Vec<(String, String)>) -> (r: bool)
    ensures
        r == has_ready(conditions@),
{
    for i in 0..conditions.len()
        invariant
            forall|j: int|
                0 <= j < i ==> !((#[trigger] conditions@[j]).0@ == "Ready"@ && conditions@[j].1@
                    == "True"@),
    {
        if same(conditions[i].0.as_str(), "Ready") && same(conditions[i].1.as_str(), "True") {
            assert(conditions@[i as int].0@ == "Ready"@);
            return true;
        }
    }
    false
}

// ── Draining a node ──────────────────────────────────────────────────────────

/// A pod on the node that is drained.
#[derive(Debug, Clone)]
pub struct NodePod {
    pub namespace: Option<String>,
    pub name: Option<String>,
    /// What kinds of objects own it.
    pub owner_kinds: Vec<String>,
}

/// Whether a pod is owned by a daemon set, and stays on its node.
pub fn is_daemonset_pod(pod: &NodePod) -> (r: bool)
    ensures
        r == crate::kube::client::lists(pod.owner_kinds@, "DaemonSet"@),
{
    is_listed(&pod.owner_kinds, "DaemonSet")
}

/// The pods to evict: those with a name that no daemon set owns.
pub open spec fn evictable(pods: Seq<NodePod>) -> Seq<(Seq<char>, Seq<char>)>
    decreases pods.len(),
{
    if pods.len() == 0 {
        Seq::empty()
    } else {
        let rest = evictable(pods.drop_last());
        let p = pods.last();
        match (p.namespace, p.name) {
            (Some(ns), Some(name)) => if crate::kube::client::lists(
                p.owner_kinds@,
                "DaemonSet"@,
            ) {
                rest
            } else {
                rest.push((ns@, name@))
            },
            _ => rest,
        }
    }
}

/// The pods to evict from a node, each with its namespace.
pub fn eviction_targets(pods: &Vec<NodePod>) -> (r: Vec<(String, String)>)
    ensures
        r.deep_view() == evictable(pods@),
{
    let mut r: Vec<(String, String)> = Vec::new();
    assert(r.deep_view() =~= Seq::empty());
    for i in 0..pods.len()
        invariant
            r.deep_view() == evictable(pods@.take(i as int)),
    {
        let ghost before = r.deep_view();
        assert(pods@.take(i + 1).drop_last() =~= pods@.take(i as int));
        assert(pods@.take(i + 1).last() == pods@[i as int]);
        let p = &pods[i];
        if let (Some(ns), Some(name)) = (&p.namespace, &p.name) {
            if !is_daemonset_pod(p) {
                r.push((copy_of(ns.as_str()), copy_of(name.as_str())));
                assert(r.deep_view() =~= before.push((ns@, name@)));
            }
        }
    }
    assert(pods@.take(pods@.len() as int) =~= pods@);
    r
}

/// The outcome of cordoning a node. Only where it succeeds is the node drained.
pub fn cordon_outcome(node: &str, error: &Option<String>) -> (r: ActionOutcome)
    ensures
        r.deep_view() == (match *error {
            None => OutcomeView::Done("cordoned "@ + node@),
            Some(e) => OutcomeView::Failed("cordon "@ + node@ + ": "@ + e@),
        }),
{
    match error {
        None => ActionOutcome::Done(cat2("cordoned ", node)),
        Some(e) => ActionOutcome::Failed(cat4("cordon ", node, ": ", e.as_str())),
    }
}

/// The outcome where the pods on a node could not be listed.
pub fn listing_failure(node: &str, error: &str) -> (r: ActionOutcome)
    ensures
        r.deep_view() == OutcomeView::Failed("list pods on "@ + node@ + ": "@ + error@),
{
    ActionOutcome::Failed(cat4("list pods on ", node, ": ", error))
}

/// An attempt to evict a pod.
#[derive(Debug, Clone)]
pub struct Eviction {
    pub namespace: String,
    pub name: String,
    pub error: Option<String>,
}

/// The eviction succeeded.
pub open spec fn evicted() -> spec_fn(Eviction) -> bool {
    |e: Eviction| e.error is None
}

/// The evictions that failed.
pub open spec fn eviction_failures(list: Seq<Eviction>) -> Seq<OutcomeView>
    decreases list.len(),
{
    if list.len() == 0 {
        Seq::empty()
    } else {
        let rest = eviction_failures(list.drop_last());
        let e = list.last();
        match e.error {
            Some(m) => rest.push(
                OutcomeView::Failed("evict "@ + e.namespace@ + "/"@ + e.name@ + ": "@ + m@),
            ),
            None => rest,
        }
    }
}

/// The outcomes of draining a node: the evictions that failed, then how many
/// succeeded.
pub fn drain_outcomes(node: &str, list: &Vec<Eviction>) -> (r: Vec<ActionOutcome>)
    ensures
        r.deep_view() == eviction_failures(list@).push(
            OutcomeView::Done(
                "drained "@ + node@ + ": evicted "@ + decimal(count(list@, evicted())) + " pods"@,
            ),
        ),
{
    let mut r: Vec<ActionOutcome> = Vec::new();
    let mut n: usize = 0;
    assert(r.deep_view() =~= Seq::empty());
    for i in 0..list.len()
        invariant
            r.deep_view() == eviction_failures(list@.take(i as int)),
            n == count(list@.take(i as int), evicted()),
            n <= i,
    {
        let ghost before = r.deep_view();
        proof {
            assert(list@.take(i + 1).drop_last() =~= list@.take(i as int));
            assert(list@.take(i + 1).last() == list@[i as int]);
            lemma_count_step(list@, evicted(), i as int);
        }
        let e = &list[i];
        match &e.error {
            Some(m) => {
                let message = cat6(
                    "evict ",
                    e.namespace.as_str(),
                    "/",
                    e.name.as_str(),
                    ": ",
                    m.as_str(),
                );
                r.push(ActionOutcome::Failed(message));
                assert(r.deep_view() =~= before.push(OutcomeView::Failed(message@)));
            },
            None => {
                n = n + 1;
            },
        }
    }
    assert(list@.take(list@.len() as int) =~= list@);
    let ghost before = r.deep_view();
    let message = cat5("drained ", node, ": evicted ", count_text(n).as_str(), " pods");
    r.push(ActionOutcome::Done(message));
    assert(r.deep_view() =~= before.push(OutcomeView::Done(message@)));
    r
}

// ── Laws ─────────────────────────────────────────────────────────────────────

/// After a pod is deleted, the recycle waits: no other pod is deleted until as
/// many pods are ready as there were at the start, and none at all where the
/// time runs out first.
pub proof fn lemma_one_at_a_time(s: RollView, ready: int, timed_out: bool)
    requires
        s.wf(),
        !s.stopped,
        !s.waiting,
        ready < s.names.len(),
    ensures
        ({
            let deleted = s.after_delete(None);
            let counted = deleted.after_count(ready, timed_out);
            &&& deleted.wf() && deleted.waiting && deleted.at == s.at
            &&& counted.wf() && (counted.waiting || counted.stopped) && counted.at == s.at
            &&& counted.stopped <==> timed_out
        }),
{
}

/// A recycle that stopped on a failure has recycled only the pods in front of
/// the one that it failed on, and says so.
pub proof fn lemma_stops_on_failure(s: RollView, m: Seq<char>)
    requires
        s.wf(),
        !s.stopped,
    ensures
        s.failed(m).wf(),
        s.failed(m).stopped,
        s.failed(m).at == s.at,
        outcome_line(s.failed(m).outcomes) == m,
{
    lemma_first_failure(s.outcomes, m);
}

/// Behind successes the failure is the first one.
proof fn lemma_first_failure(done: Seq<OutcomeView>, m: Seq<char>)
    requires
        forall|i: int| 0 <= i < done.len() ==> (#[trigger] done[i]) is Done,
    ensures
        first_failure(done.push(OutcomeView::Failed(m))) == Some(m),
    decreases done.len(),
{
    let all = done.push(OutcomeView::Failed(m));
    if done.len() > 0 {
        let rest = done.drop_first();
        assert forall|i: int| 0 <= i < rest.len() implies (#[trigger] rest[i]) is Done by {
            assert(rest[i] == done[i + 1]);
        }
        lemma_first_failure(rest, m);
        assert(all.drop_first() =~= rest.push(OutcomeView::Failed(m)));
        assert(all[0] == done[0]);
    }
}

/// What several steps come down to: the first failure where there is one, else the
/// last success, and nothing done where there was no step.
pub proof fn lemma_outcome_line(outcomes: Seq<OutcomeView>)
    ensures
        outcomes.len() == 0 ==> outcome_line(outcomes) == "no-op"@,
        outcomes.len() > 0 && (forall|i: int|
            0 <= i < outcomes.len() ==> (#[trigger] outcomes[i]) is Done) ==> (
        outcomes.last() matches OutcomeView::Done(m) && outcome_line(outcomes) == m),
        forall|i: int|
            0 <= i < outcomes.len() && (#[trigger] outcomes[i]) is Failed && (forall|j: int|
                0 <= j < i ==> (#[trigger] outcomes[j]) is Done) ==> (
            outcomes[i] matches OutcomeView::Failed(m) && outcome_line(outcomes) == m),
    decreases outcomes.len(),
{
    if outcomes.len() > 0 {
        let rest = outcomes.drop_first();
        lemma_outcome_line(rest);
        if forall|i: int| 0 <= i < outcomes.len() ==> (#[trigger] outcomes[i]) is Done {
            lemma_no_failure(outcomes);
            assert(outcomes[outcomes.len() - 1] is Done);
        }
        assert forall|i: int|
            0 <= i < outcomes.len() && (#[trigger] outcomes[i]) is Failed && (forall|j: int|
                0 <= j < i ==> (#[trigger] outcomes[j]) is Done) implies (
        outcomes[i] matches OutcomeView::Failed(m) && outcome_line(outcomes) == m) by {
            lemma_failure_at(outcomes, i);
        }
    }
}

/// Successes hold no failure.
proof fn lemma_no_failure(outcomes: Seq<OutcomeView>)
    requires
        forall|i: int| 0 <= i < outcomes.len() ==> (#[trigger] outcomes[i]) is Done,
    ensures
        first_failure(outcomes) is None,
    decreases outcomes.len(),
{
    if outcomes.len() > 0 {
        let rest = outcomes.drop_first();
        assert(outcomes[0] is Done);
        assert forall|i: int| 0 <= i < rest.len() implies (#[trigger] rest[i]) is Done by {
            assert(rest[i] == outcomes[i + 1]);
        }
        lemma_no_failure(rest);
    }
}

/// The failure at the place `i` is the first one where only successes stand in
/// front.
proof fn lemma_failure_at(outcomes: Seq<OutcomeView>, i: int)
    requires
        0 <= i < outcomes.len(),
        outcomes[i] is Failed,
        forall|j: int| 0 <= j < i ==> (#[trigger] outcomes[j]) is Done,
    ensures
        outcomes[i] matches OutcomeView::Failed(m) && first_failure(outcomes) == Some(m),
    decreases i,
{
    if i > 0 {
        let rest = outcomes.drop_first();
        assert(outcomes[0] is Done);
        assert(rest[i - 1] == outcomes[i]);
        assert forall|j: int| 0 <= j < i - 1 implies (#[trigger] rest[j]) is Done by {
            assert(rest[j] == outcomes[j + 1]);
        }
        lemma_failure_at(rest, i - 1);
    }
}

/// A pod is recycled once as many pods are ready as there were at the start, and
/// the recycle ends with the last of them.
pub proof fn lemma_pod_recycled(s: RollView, ready: int, timed_out: bool)
    requires
        s.wf(),
        s.waiting,
        ready >= s.names.len(),
    ensures
        ({
            let r = s.after_count(ready, timed_out);
            &&& r.at == s.at + 1 && !r.waiting && r.names == s.names
            &&& r.stopped <==> s.at + 1 == s.names.len()
            &&& r.outcomes == s.outcomes.push(
                OutcomeView::Done(
                    "recycled "@ + s.names[s.at] + " ("@ + decimal(s.at + 1) + "/"@ + decimal(
                        s.names.len() as int,
                    ) + ")"@,
                ),
            )
        }),
{
}

/// What the failures of a recycle say, each of which ends it.
pub proof fn lemma_roll_failures(s: RollView, e: Seq<char>, ready: int)
    requires
        s.wf(),
        !s.stopped,
        0 <= ready < s.names.len(),
    ensures
        ({
            let name = s.names[s.at];
            let a = s.after_delete(Some(e));
            let b = s.after_count(ready, true);
            let c = s.after_failed_count(e);
            &&& a.stopped && a.outcomes == s.outcomes.push(
                OutcomeView::Failed("delete "@ + name + ": "@ + e),
            )
            &&& b.stopped && b.outcomes == s.outcomes.push(
                OutcomeView::Failed(
                    "after "@ + name + (": timed out waiting for "@ + decimal(s.names.len() as int)
                        + " ready (saw "@ + decimal(ready) + ")"@) + " — stopping roll"@,
                ),
            )
            &&& c.stopped && c.outcomes == s.outcomes.push(
                OutcomeView::Failed(
                    "after "@ + name + ": list while waiting: "@ + e + " — stopping roll"@,
                ),
            )
            &&& s.after_count(ready, false) == s
        }),
{
}

/// A recycle starts with the first pod, and is over where there is none.
pub proof fn lemma_roll_starts(names: Seq<Seq<char>>, selector: Seq<char>)
    ensures
        ({
            let s = RollView::started(names, selector);
            &&& s.names == names && s.at == 0 && !s.waiting
            &&& s.stopped <==> names.len() == 0
            &&& names.len() == 0 ==> s.outcomes == seq![
                OutcomeView::Failed("no pods match selector "@ + selector),
            ]
            &&& names.len() > 0 ==> s.outcomes.len() == 0
        }),
{
}

/// Of the pods on a node those are evicted, in their order, that have a name and
/// that no daemon set owns.
pub proof fn lemma_evicted_pods(pods: Seq<NodePod>, p: NodePod)
    ensures
        evictable(Seq::empty()).len() == 0,
        ({
            let owned = exists|i: int|
                0 <= i < p.owner_kinds@.len() && (#[trigger] p.owner_kinds@[i])@ == "DaemonSet"@;
            evictable(pods.push(p)) == (if p.namespace is Some && p.name is Some && !owned {
                evictable(pods).push((p.namespace->0@, p.name->0@))
            } else {
                evictable(pods)
            })
        }),
{
    assert(pods.push(p).drop_last() =~= pods);
}

/// Every eviction either counts as one or is told as a failure, with its reason.
pub proof fn lemma_evictions_told(list: Seq<Eviction>, e: Eviction)
    ensures
        eviction_failures(Seq::empty()).len() == 0,
        count(list, evicted()) == list.filter(|x: Eviction| x.error is None).len(),
        e.error is None ==> eviction_failures(list.push(e)) == eviction_failures(list),
        e.error matches Some(m) ==> eviction_failures(list.push(e)) == eviction_failures(list).push(
            OutcomeView::Failed("evict "@ + e.namespace@ + "/"@ + e.name@ + ": "@ + m@),
        ),
{
    assert(list.push(e).drop_last() =~= list);
    let p = |x: Eviction| x.error is None;
    assert(evicted() =~= p);
    lemma_count_is_filter(list, p);
}

/// A pod is ready exactly where its condition of that name is true.
pub proof fn lemma_ready_condition(conditions: Seq<(String, String)>)
    ensures
        has_ready(conditions) <==> exists|i: int|
            0 <= i < conditions.len() && (#[trigger] conditions[i]).0@ == "Ready"@
                && conditions[i].1@ == "True"@,
{
}

} // verus!
