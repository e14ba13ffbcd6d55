//! What happens to the results between the requests and the output, in a single
//! run and from one cycle to the next.

use crate::assoc::{distinct_names, lookup};
use crate::cycle::{
    annotate_with_kube, apply_interval_drain, attach_second_sample, backlog, backlogs, change_fits,
    found, hinted, last_backlog, metric_summary, shown_metric, since_last, until_second,
};
use crate::float::{of_integer, quotient, ratio, ratio_of};
use crate::health::{HealthView, Status, TopicHealth};
use crate::kube::logs::copied;
use crate::kube::{hint, KubeReport, PodMetricSummary, PodMetrics, PodStabilityLine};
use crate::metrics::{
    after_scrape, more_urgent, ranked_verdicts, scraped, summary_text, unranked_verdicts,
    verdict_on, MetricsTracker, SpecView, VerdictView,
};
use crate::number::Double;
use crate::order::sorted;
use crate::stability::{judged, traced, PodStability, TraceView};
use crate::state::{
    assign_state_since, known, lemma_state_persists, observed_of, prior_from_results, since_when,
    state_key, PriorState,
};
use crate::text::copy_of;
use vstd::prelude::*;

verus! {

// ── A single run ─────────────────────────────────────────────────────────────

/// A topic stamped with the time since when it is in its state.
pub open spec fn stamped(
    h: HealthView,
    prior: Seq<(String, PriorState)>,
    now: Seq<char>,
) -> HealthView {
    HealthView { state_since: Some(since_when(h, known(prior, h.topic), now)), ..h }
}

/// A topic after a single run: its trend first, since the trend is part of its
/// state, then the time that it has been in it, then a hint at its cause.
pub open spec fn concluded(
    h: HealthView,
    second: Option<i64>,
    window: int,
    prior: Seq<(String, PriorState)>,
    now: Seq<char>,
    kube: Option<KubeReport>,
) -> HealthView {
    let measured = if window > 0 {
        until_second(h, second, window)
    } else {
        h
    };
    let timed = stamped(measured, prior, now);
    match kube {
        Some(report) => hinted(timed, report),
        None => timed,
    }
}

/// Complete the results of a single run. `second` are the backlogs that were read
/// again, `window` seconds later; without a window they do not count.
pub fn conclude(
    results: &mut Vec<TopicHealth>,
    second: &Vec<Option<i64>>,
    window: u64,
    prior: &Vec<(String, PriorState)>,
    now: &str,
    kube: &Option<KubeReport>,
)
    requires
        second@.len() == old(results)@.len(),
        window > 0 ==> forall|i: int|
            0 <= i < old(results)@.len() ==> match second@[i] {
                Some(n) => change_fits(
                    backlog((#[trigger] old(results)@[i]).deep_view()),
                    n as int,
                ),
                None => true,
            },
    ensures
        final(results)@.len() == old(results)@.len(),
        forall|i: int|
            0 <= i < old(results)@.len() ==> (#[trigger] final(results)@[i]).deep_view()
                == concluded(
                old(results)@[i].deep_view(),
                second@[i],
                window as int,
                prior@,
                now@,
                *kube,
            ),
{
    let ghost given = results@;
    if window > 0 {
        attach_second_sample(results, second, window);
    }
    let ghost measured = results.deep_view();
    assign_state_since(results, prior, now);
    let ghost timed = results@;
    proof {
        assert(measured.len() == given.len());
        assert(results.deep_view().len() == timed.len());
        assert forall|i: int| 0 <= i < given.len() implies (#[trigger] timed[i]).deep_view()
            == stamped(
            (if window > 0 {
                until_second(given[i].deep_view(), second@[i], window as int)
            } else {
                given[i].deep_view()
            }),
            prior@,
            now@,
        ) by {
            assert(results.deep_view()[i] == timed[i].deep_view());
        }
    }
    if let Some(report) = kube {
        annotate_with_kube(results, report);
    }
}

// ── Cycles ───────────────────────────────────────────────────────────────────

/// What is carried from one cycle to the next.
#[derive(Debug)]
pub struct Session {
    /// The states of the topics, and since when.
    pub prior: Vec<(String, PriorState)>,
    /// The backlogs of the last cycle.
    pub previous: Vec<(String, i64)>,
}

/// A topic after a cycle: its trend since the last one, `window` seconds ago, and
/// the time that it has been in its state.
pub open spec fn cycled(
    h: HealthView,
    previous: Seq<(String, i64)>,
    window: Option<Double>,
    prior: Seq<(String, PriorState)>,
    now: Seq<char>,
) -> HealthView {
    let measured = match window {
        Some(w) => since_last(h, lookup(previous, h.topic), w),
        None => h,
    };
    stamped(measured, prior, now)
}

impl Session {
    /// A session that starts with what is known of the states.
    pub fn new(prior: Vec<(String, PriorState)>) -> (r: Session)
        ensures
            r.prior == prior,
            r.previous@.len() == 0,
    {
        Session { prior, previous: Vec::new() }
    }

    /// Complete the results of a cycle and remember them for the next one.
    /// `window` is the time since the last cycle in seconds, if there was one. What
    /// was known of the states before is given back.
    pub fn complete(
        &mut self,
        results: &mut Vec<TopicHealth>,
        window: Option<Double>,
        now: &str,
    ) -> (r: Vec<(String, PriorState)>)
        requires
            forall|i: int|
                0 <= i < old(results)@.len() ==> match lookup(
                    old(self).previous@,
                    (#[trigger] old(results)@[i]).topic@,
                ) {
                    Some(p) => change_fits(p as int, backlog(old(results)@[i].deep_view())),
                    None => true,
                },
        ensures
            final(results)@.len() == old(results)@.len(),
            forall|i: int|
                0 <= i < old(results)@.len() ==> (#[trigger] final(results)@[i]).deep_view()
                    == cycled(
                    old(results)@[i].deep_view(),
                    old(self).previous@,
                    window,
                    old(self).prior@,
                    now@,
                ),
            distinct_names(final(self).prior@),
            distinct_names(final(self).previous@),
            forall|n: Seq<char>| #[trigger]
                known(final(self).prior@, n) == observed_of(final(results).deep_view(), n),
            forall|n: Seq<char>| #[trigger]
                found(final(self).previous@, n) == last_backlog(final(results)@, n),
            r == old(self).prior,
    {
        let ghost given = results@;
        if let Some(w) = window {
            apply_interval_drain(results, &self.previous, w);
        }
        let ghost measured = results@;
        let ghost before = results.deep_view();
        assign_state_since(results, &self.prior, now);
        proof {
            assert(before.len() == given.len());
            assert(results.deep_view().len() == results@.len());
            assert forall|i: int| 0 <= i < given.len() implies (#[trigger] results@[i]).deep_view()
                == cycled(
                given[i].deep_view(),
                self.previous@,
                window,
                self.prior@,
                now@,
            ) by {
                assert(results.deep_view()[i] == results@[i].deep_view());
                assert(measured[i].deep_view() == (match window {
                    Some(w) => since_last(
                        given[i].deep_view(),
                        lookup(self.previous@, given[i].topic@),
                        w,
                    ),
                    None => given[i].deep_view(),
                }));
            }
        }
        let mut prior = prior_from_results(results);
        std::mem::swap(&mut prior, &mut self.prior);
        self.previous = backlogs(results);
        prior
    }
}

/// From one cycle to the next: a topic that is in the state of the last cycle has
/// been in it since then, and one that is in another state starts now.
pub proof fn lemma_time_in_state(
    last: Seq<HealthView>,
    i: int,
    next: HealthView,
    previous: Seq<(String, i64)>,
    window: Option<Double>,
    prior: Seq<(String, PriorState)>,
    now: Seq<char>,
)
    requires
        0 <= i < last.len(),
        last[i].state_since is Some && last[i].state_since->0.len() > 0,
        forall|j: int| i < j < last.len() ==> (#[trigger] last[j]).topic != last[i].topic,
        next.topic == last[i].topic,
        known(prior, next.topic) == observed_of(last, next.topic),
    ensures
        ({
            let r = cycled(next, previous, window, prior, now);
            r.state_since == Some(
                if state_key(r.status, r.drain) == state_key(last[i].status, last[i].drain) {
                    last[i].state_since->0
                } else {
                    now
                },
            )
        }),
{
    let measured = match window {
        Some(w) => since_last(next, lookup(previous, next.topic), w),
        None => next,
    };
    lemma_state_persists(last, i, measured, now);
}

// ── Metrics ──────────────────────────────────────────────────────────────────

/// Values by pod and metric.
pub type Kept = spec_fn(Seq<char>, Seq<char>) -> Seq<Double>;

/// The values that are kept after the scrapes of the pods, one after the other.
pub open spec fn kept_after(
    kept: Kept,
    list: Seq<PodMetrics>,
    specs: Seq<SpecView>,
    window: int,
) -> Kept
    decreases list.len(),
{
    if list.len() == 0 {
        kept
    } else {
        let before = kept_after(kept, list.drop_last(), specs, window);
        let m = list.last();
        |p: Seq<char>, n: Seq<char>|
            if p == m.pod@ {
                after_scrape(before(p, n), n, specs, scraped(m.metrics_text@), window)
            } else {
                before(p, n)
            }
    }
}

/// The ranked verdicts on a pod with the given values.
pub open spec fn pod_verdicts(
    kept: Kept,
    pod: Seq<char>,
    specs: Seq<SpecView>,
    eps: Double,
) -> Seq<VerdictView> {
    sorted(
        Seq::new(specs.len(), |i: int| verdict_on(specs[i], kept(pod, specs[i].name), eps)),
        |a: VerdictView, b: VerdictView| more_urgent(a, b),
    )
}

/// The summary shows the verdicts on the pod.
pub open spec fn summarises(s: PodMetricSummary, m: PodMetrics, verdicts: Seq<VerdictView>) -> bool {
    &&& s.pod@ == m.pod@
    &&& s.health.deep_view() == m.health.deep_view()
    &&& s.lines@.len() == verdicts.len()
    &&& forall|i: int| 0 <= i < verdicts.len() ==> shown_metric(#[trigger] s.lines@[i], verdicts[i])
}

/// What is known of the pod at place `i` once it has been scraped.
pub open spec fn verdicts_at(
    kept: Kept,
    list: Seq<PodMetrics>,
    i: int,
    specs: Seq<SpecView>,
    window: int,
    eps: Double,
) -> Seq<VerdictView> {
    pod_verdicts(kept_after(kept, list.take(i + 1), specs, window), list[i].pod@, specs, eps)
}

/// What is traced of each pod.
pub type Traces = spec_fn(Seq<char>) -> TraceView;

/// What is traced after the scrapes of the pods, one after the other.
pub open spec fn traces_after(traces: Traces, list: Seq<PodMetrics>, window: int) -> Traces
    decreases list.len(),
{
    if list.len() == 0 {
        traces
    } else {
        let before = traces_after(traces, list.drop_last(), window);
        let m = list.last();
        |p: Seq<char>|
            if p == m.pod@ {
                traced(before(p), scraped(m.metrics_text@), window)
            } else {
                before(p)
            }
    }
}

/// The line shows how stable the connections of the pod are.
pub open spec fn shows_stability(line: PodStabilityLine, pod: Seq<char>, s: PodStability) -> bool {
    &&& line.pod@ == pod
    &&& line.reconnect_rate == s.reconnect_rate
    &&& line.throttle_transition_rate == s.throttle_transition_rate
    &&& line.active_parts_churn == s.active_parts_churn
    &&& line.active_parts == s.active_parts
    &&& line.idle_cull_rate == s.idle_cull_rate
    &&& line.idle_cull_threshold_secs == s.idle_cull_threshold_secs
    &&& line.flapping_rate == s.flapping_rate
    &&& line.flapping_rebalance == s.flapping_rebalance
    &&& line.idle_cull_loop == s.idle_cull_loop
}

/// The fraction of a metric's value that a change must exceed to count: two in a
/// hundred.
pub open spec fn metric_noise() -> Double {
    ratio(2, 100)
}

/// How stable the connections of the pods are, in their order.
fn stability_lines(list: &Vec<PodMetrics>, tracker: &MetricsTracker) -> (r: Vec<PodStabilityLine>)
    ensures
        r@.len() == list@.len(),
        forall|i: int|
            0 <= i < list@.len() ==> shows_stability(
                #[trigger] r@[i],
                list@[i].pod@,
                judged(tracker.trace(list@[i].pod@)),
            ),
{
    let mut r: Vec<PodStabilityLine> = Vec::new();
    for i in 0..list.len()
        invariant
            r@.len() == i,
            forall|j: int|
                0 <= j < i ==> shows_stability(
                    #[trigger] r@[j],
                    list@[j].pod@,
                    judged(tracker.trace(list@[j].pod@)),
                ),
    {
        let pod = list[i].pod.as_str();
        let s = tracker.stability_for(pod);
        r.push(
            PodStabilityLine {
                pod: copy_of(pod),
                reconnect_rate: s.reconnect_rate,
                throttle_transition_rate: s.throttle_transition_rate,
                active_parts_churn: s.active_parts_churn,
                active_parts: s.active_parts,
                idle_cull_rate: s.idle_cull_rate,
                idle_cull_threshold_secs: s.idle_cull_threshold_secs,
                flapping_rate: s.flapping_rate,
                flapping_rebalance: s.flapping_rebalance,
                idle_cull_loop: s.idle_cull_loop,
            },
        );
    }
    r
}

/// Take the metrics of all pods into the histories, and sum them up: in the
/// report for the screen, and in one line for each pod. How stable the connections
/// are is judged once all pods are taken in.
pub fn process_metrics(report: &mut KubeReport, tracker: &mut MetricsTracker) -> (r: Vec<String>)
    requires
        old(tracker).wf(),
    ensures
        final(tracker).wf(),
        final(tracker).specs == old(tracker).specs,
        final(tracker).window == old(tracker).window,
        *final(report) == (KubeReport {
            pod_metric_summaries: final(report).pod_metric_summaries,
            pod_stability: final(report).pod_stability,
            ..*old(report)
        }),
        ({
            let list = old(report).pod_metrics@;
            let specs = old(tracker).specs.deep_view();
            let window = old(tracker).window as int;
            let kept = |p: Seq<char>, n: Seq<char>| old(tracker).kept(p, n);
            let traces = |p: Seq<char>| old(tracker).trace(p);
            let summaries = final(report).pod_metric_summaries@;
            let stability = final(report).pod_stability@;
            &&& forall|p: Seq<char>, n: Seq<char>| #[trigger]
                final(tracker).kept(p, n) == kept_after(kept, list, specs, window)(p, n)
            &&& forall|p: Seq<char>| #[trigger]
                final(tracker).trace(p) == traces_after(traces, list, window)(p)
            &&& r@.len() == list.len()
            &&& summaries.len() == list.len()
            &&& forall|i: int|
                0 <= i < list.len() ==> summarises(
                    #[trigger] summaries[i],
                    list[i],
                    verdicts_at(kept, list, i, specs, window, metric_noise()),
                )
            &&& forall|i: int|
                0 <= i < list.len() ==> (#[trigger] r@[i])@ == summary_text(
                    list[i].pod@,
                    verdicts_at(kept, list, i, specs, window, metric_noise()),
                )
            &&& stability.len() == list.len()
            &&& forall|i: int|
                0 <= i < list.len() ==> shows_stability(
                    #[trigger] stability[i],
                    list[i].pod@,
                    judged(traces_after(traces, list, window)(list[i].pod@)),
                )
        }),
{
    let ghost list = report.pod_metrics@;
    let ghost specs = tracker.specs.deep_view();
    let ghost window = tracker.window as int;
    let ghost start = *tracker;
    let ghost kept = |p: Seq<char>, n: Seq<char>| start.kept(p, n);
    let ghost traces = |p: Seq<char>| start.trace(p);
    let eps = ratio_of(2, 100);
    let mut lines: Vec<String> = Vec::new();
    let mut summaries: Vec<PodMetricSummary> = Vec::new();
    assert(list.take(0) =~= Seq::empty());
    for i in 0..report.pod_metrics.len()
        invariant
            tracker.wf(),
            tracker.specs == start.specs,
            tracker.window == start.window,
            list == report.pod_metrics@,
            specs == start.specs.deep_view(),
            window == start.window as int,
            eps == metric_noise(),
            kept == (|p: Seq<char>, n: Seq<char>| start.kept(p, n)),
            traces == (|p: Seq<char>| start.trace(p)),
            forall|p: Seq<char>| #[trigger]
                tracker.trace(p) == traces_after(traces, list.take(i as int), window)(p),
            forall|p: Seq<char>, n: Seq<char>| #[trigger]
                tracker.kept(p, n) == kept_after(kept, list.take(i as int), specs, window)(p, n),
            lines@.len() == i,
            summaries@.len() == i,
            forall|j: int|
                0 <= j < i ==> summarises(
                    #[trigger] summaries@[j],
                    list[j],
                    verdicts_at(kept, list, j, specs, window, eps),
                ),
            forall|j: int|
                0 <= j < i ==> (#[trigger] lines@[j])@ == summary_text(
                    list[j].pod@,
                    verdicts_at(kept, list, j, specs, window, eps),
                ),
    {
        let m = &report.pod_metrics[i];
        let ghost before = *tracker;
        let line = tracker.observe(m.pod.as_str(), m.metrics_text.as_str(), eps);
        let verdicts = tracker.verdicts_for(m.pod.as_str(), eps);
        let ghost want = verdicts_at(kept, list, i as int, specs, window, eps);
        proof {
            assert(list.take(i + 1).drop_last() =~= list.take(i as int));
            assert(list.take(i + 1).last() == *m);
            let now = kept_after(kept, list.take(i + 1), specs, window);
            assert forall|p: Seq<char>, n: Seq<char>| #[trigger] tracker.kept(p, n) == now(p, n) by {
                assert(before.kept(p, n) == kept_after(kept, list.take(i as int), specs, window)(
                    p,
                    n,
                ));
            }
            let after = traces_after(traces, list.take(i + 1), window);
            assert forall|p: Seq<char>| #[trigger] tracker.trace(p) == after(p) by {
                assert(before.trace(p) == traces_after(traces, list.take(i as int), window)(p));
            }
            let h = lookup(tracker.per_pod@, m.pod@)->0;
            let plain = Seq::new(
                specs.len(),
                |k: int| verdict_on(specs[k], now(m.pod@, specs[k].name), eps),
            );
            assert(unranked_verdicts(h, specs, eps) =~= plain) by {
                assert forall|k: int| 0 <= k < specs.len() implies h.kept(specs[k].name)
                    == #[trigger] now(m.pod@, specs[k].name) by {
                    assert(tracker.kept(m.pod@, specs[k].name) == now(m.pod@, specs[k].name));
                }
            }
            assert(ranked_verdicts(h, specs, eps) == want);
            assert(verdicts.deep_view() == want);
        }
        let summary = metric_summary(m.pod.as_str(), &verdicts, copied(&m.health));
        assert(summarises(summary, *m, want)) by {
            assert forall|k: int| 0 <= k < want.len() implies shown_metric(
                #[trigger] summary.lines@[k],
                want[k],
            ) by {
                assert(verdicts.deep_view()[k] == verdicts@[k].deep_view());
            }
        }
        summaries.push(summary);
        lines.push(line);
    }
    assert(list.take(list.len() as int) =~= list);
    let stability = stability_lines(&report.pod_metrics, tracker);
    assert forall|i: int| 0 <= i < list.len() implies shows_stability(
        #[trigger] stability@[i],
        list[i].pod@,
        judged(traces_after(traces, list, window)(list[i].pod@)),
    ) by {
        assert(tracker.trace(list[i].pod@) == traces_after(traces, list, window)(list[i].pod@));
    }
    report.pod_metric_summaries = summaries;
    report.pod_stability = stability;
    lines
}

/// A single run measures the trend first, tells the time in the state that the
/// trend is part of, and hints at a cause where the pods give one and the topic is
/// not healthy. Nothing else of a result changes.
pub proof fn lemma_concluded(
    h: HealthView,
    second: Option<i64>,
    window: int,
    prior: Seq<(String, PriorState)>,
    now: Seq<char>,
    kube: Option<KubeReport>,
)
    ensures
        ({
            let r = concluded(h, second, window, prior, now, kube);
            &&& window <= 0 || second is None || h.error is Some ==> r.drain == h.drain
            &&& window > 0 && second is Some && h.error is None ==> r.drain is Some
            &&& r.state_since is Some
            &&& known(prior, h.topic) is None ==> r.state_since == Some(now)
            &&& known(prior, h.topic) matches Some(k) ==> k.1.len() > 0 ==> r.state_since == Some(
                if k.0 == state_key(r.status, r.drain) {
                    k.1
                } else {
                    now
                },
            )
            &&& kube is None || h.status == Status::Healthy ==> r.kube_hint == h.kube_hint
            &&& kube is Some && hint(kube->0, true) is Some && h.status != Status::Healthy
                ==> r.kube_hint == hint(kube->0, true)
            &&& r == (HealthView {
                drain: r.drain,
                state_since: r.state_since,
                kube_hint: r.kube_hint,
                ..h
            })
        }),
{
}

/// The first cycle measures no trend, and a later one none for a topic that the
/// last cycle did not see.
pub proof fn lemma_first_cycle(
    h: HealthView,
    previous: Seq<(String, i64)>,
    window: Option<Double>,
    prior: Seq<(String, PriorState)>,
    now: Seq<char>,
)
    ensures
        ({
            let r = cycled(h, previous, window, prior, now);
            &&& window is None || lookup(previous, h.topic) is None ==> r.drain == h.drain
            &&& known(prior, h.topic) is None ==> r.state_since == Some(now)
            &&& r == (HealthView { drain: r.drain, state_since: r.state_since, ..h })
        }),
{
}

/// A scrape of one pod leaves what is kept of every other pod alone.
pub proof fn lemma_pods_kept_apart(
    kept: Kept,
    traces: Traces,
    list: Seq<PodMetrics>,
    specs: Seq<SpecView>,
    window: int,
    pod: Seq<char>,
    name: Seq<char>,
)
    requires
        forall|i: int| 0 <= i < list.len() ==> (#[trigger] list[i]).pod@ != pod,
    ensures
        kept_after(kept, list, specs, window)(pod, name) == kept(pod, name),
        traces_after(traces, list, window)(pod) == traces(pod),
    decreases list.len(),
{
    if list.len() > 0 {
        assert(list.last() == list[list.len() - 1]);
        let rest = list.drop_last();
        assert forall|i: int| 0 <= i < rest.len() implies (#[trigger] rest[i]).pod@ != pod by {
            assert(rest[i] == list[i]);
        }
        lemma_pods_kept_apart(kept, traces, rest, specs, window, pod, name);
    }
}

/// A metric moves where it changes by more than a fiftieth.
pub proof fn lemma_metric_noise()
    ensures
        metric_noise() == quotient(of_integer(2), of_integer(100)),
{
}

/// The stability of a pod is shown as it was judged.
pub proof fn lemma_stability_shown(line: PodStabilityLine, pod: Seq<char>, t: TraceView)
    requires
        shows_stability(line, pod, judged(t)),
    ensures
        line.pod@ == pod,
        line.reconnect_rate == judged(t).reconnect_rate,
        line.throttle_transition_rate == judged(t).throttle_transition_rate,
        line.active_parts_churn == judged(t).active_parts_churn,
        line.active_parts == judged(t).active_parts,
        line.idle_cull_rate == judged(t).idle_cull_rate,
        line.idle_cull_threshold_secs == judged(t).idle_cull_threshold_secs,
        line.flapping_rate <==> judged(t).flapping_rate,
        line.flapping_rebalance <==> judged(t).flapping_rebalance,
        line.idle_cull_loop <==> judged(t).idle_cull_loop,
{
}

} // verus!
