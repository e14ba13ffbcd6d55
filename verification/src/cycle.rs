//! One look at all topics: what is added to the results, what is shown of them,
//! and what the run comes to.

use crate::assoc::{distinct_names, get, lemma_lookup_added, lemma_lookup_replaced, lookup, position_of};
use crate::decimal::{count_text, decimal, decimal_text};
use crate::drain::{drained, evaluate_drain};
use crate::float::{lemma_integer_order, of_integer, ratio, ratio_of};
use crate::health::{HealthView, Status, TopicHealth};
use crate::kube::{correlation_hint, hint, KubeReport, MetricLine, PodMetricSummary};
use crate::metrics::{arrow, arrow_of, category_label, Direction, MetricCategory, MetricVerdict, VerdictView};
use crate::number::{Double, EXACT};
use crate::tally::{count, lemma_count_bound, lemma_count_is_filter, lemma_count_positive, lemma_count_step};
use crate::text::{cat8, copy_of};
use vstd::prelude::*;

verus! {

// ── Hints ────────────────────────────────────────────────────────────────────

/// A topic with what the pods suggest as a cause.
pub open spec fn hinted(h: HealthView, report: KubeReport) -> HealthView {
    match hint(report, h.status != Status::Healthy) {
        Some(t) => HealthView { kube_hint: Some(t), ..h },
        None => h,
    }
}

/// Give every topic that is not healthy a hint at a fault of the pods.
pub fn annotate_with_kube(results: &mut Vec<TopicHealth>, report: &KubeReport)
    ensures
        final(results)@.len() == old(results)@.len(),
        forall|i: int|
            0 <= i < old(results)@.len() ==> (#[trigger] final(results)@[i]).deep_view() == hinted(
                old(results)@[i].deep_view(),
                *report,
            ),
{
    let ghost given = results@;
    let n: usize = results.len();
    for i in 0..n
        invariant
            results@.len() == given.len() == n,
            forall|j: int| i <= j < n ==> #[trigger] results@[j] == given[j],
            forall|j: int|
                0 <= j < i ==> (#[trigger] results@[j]).deep_view() == hinted(
                    given[j].deep_view(),
                    *report,
                ),
    {
        let ghost before = results@;
        let mut h = results.remove(i);
        if let Some(t) = correlation_hint(report, !h.status.is_healthy()) {
            h.kube_hint = Some(t);
        }
        let ghost after = h;
        assert(after.deep_view() =~= hinted(given[i as int].deep_view(), *report));
        results.insert(i, h);
        assert(results@ =~= before.update(i as int, after));
    }
}

// ── Drain ────────────────────────────────────────────────────────────────────

/// The fraction of a backlog below which a change counts as none: one hundredth.
pub open spec fn noise() -> Double {
    ratio(1, 100)
}

/// The backlog, or zero where it was not measured.
pub open spec fn backlog(h: HealthView) -> int {
    match h.total_backlog {
        Some(n) => n,
        None => 0,
    }
}

/// A topic with the trend from a backlog of `first` to one of `second`.
pub open spec fn measured(h: HealthView, first: int, second: int, window: Double) -> HealthView {
    HealthView { drain: Some(drained(first, second, window, noise())), ..h }
}

/// There is no time to measure over.
pub open spec fn no_window(window: Double) -> bool {
    window.less(of_integer(0)) || window.equals(of_integer(0))
}

/// A topic with the trend since the last look, `window` seconds ago; none where
/// its statistics failed or it was not there.
pub open spec fn since_last(h: HealthView, previous: Option<i64>, window: Double) -> HealthView {
    if no_window(window) || h.error is Some {
        h
    } else {
        match previous {
            Some(p) => measured(h, p as int, backlog(h), window),
            None => h,
        }
    }
}

/// A topic with the trend up to a second reading, `window` seconds later.
pub open spec fn until_second(h: HealthView, second: Option<i64>, window: int) -> HealthView {
    if h.error is Some {
        h
    } else {
        match second {
            Some(n) => measured(h, backlog(h), n as int, of_integer(window)),
            None => h,
        }
    }
}

/// The change can be told in 64 bits.
pub open spec fn change_fits(first: int, second: int) -> bool {
    i64::MIN <= second - first <= i64::MAX
}

/// Whether the change can be told in 64 bits.
pub fn change_countable(first: i64, second: i64) -> (r: bool)
    ensures
        r == change_fits(first as int, second as int),
{
    let d: i128 = second as i128 - first as i128;
    i64::MIN as i128 <= d && d <= i64::MAX as i128
}

/// Compare the backlog of each topic with what it was at the last look.
pub fn apply_interval_drain(
    results: &mut Vec<TopicHealth>,
    previous: &Vec<(String, i64)>,
    window: Double,
)
    requires
        forall|i: int|
            0 <= i < old(results)@.len() ==> match lookup(
                previous@,
                (#[trigger] old(results)@[i]).topic@,
            ) {
                Some(p) => change_fits(p as int, backlog(old(results)@[i].deep_view())),
                None => true,
            },
    ensures
        final(results)@.len() == old(results)@.len(),
        forall|i: int|
            0 <= i < old(results)@.len() ==> (#[trigger] final(results)@[i]).deep_view()
                == since_last(
                old(results)@[i].deep_view(),
                lookup(previous@, old(results)@[i].topic@),
                window,
            ),
{
    let zero = Double::from_u64(0);
    if window.is_less(zero) || window.is_equal(zero) {
        return;
    }
    let fraction = ratio_of(1, 100);
    let ghost given = results@;
    let n: usize = results.len();
    for i in 0..n
        invariant
            !no_window(window),
            fraction == noise(),
            results@.len() == given.len() == n,
            forall|i: int|
                0 <= i < given.len() ==> match lookup(previous@, (#[trigger] given[i]).topic@) {
                    Some(p) => change_fits(p as int, backlog(given[i].deep_view())),
                    None => true,
                },
            forall|j: int| i <= j < n ==> #[trigger] results@[j] == given[j],
            forall|j: int|
                0 <= j < i ==> (#[trigger] results@[j]).deep_view() == since_last(
                    given[j].deep_view(),
                    lookup(previous@, given[j].topic@),
                    window,
                ),
    {
        let ghost before = results@;
        let mut h = results.remove(i);
        assert(h == given[i as int]);
        if h.error.is_none() {
            if let Some(p) = get(previous.as_slice(), h.topic.as_str()) {
                h.drain = Some(evaluate_drain(*p, h.backlog_or_zero(), window, fraction));
            }
        }
        let ghost after = h;
        assert(after.deep_view() =~= since_last(
            given[i as int].deep_view(),
            lookup(previous@, given[i as int].topic@),
            window,
        ));
        results.insert(i, h);
        assert(results@ =~= before.update(i as int, after));
    }
}

/// Compare the backlog of each topic with a second reading of it.
pub fn attach_second_sample(results: &mut Vec<TopicHealth>, second: &Vec<Option<i64>>, window: u64)
    requires
        second@.len() == old(results)@.len(),
        forall|i: int|
            0 <= i < old(results)@.len() ==> match second@[i] {
                Some(n) => change_fits(
                    backlog((#[trigger] old(results)@[i]).deep_view()),
                    n as int,
                ),
                None => true,
            },
    ensures
        final(results)@.len() == old(results)@.len(),
        forall|i: int|
            0 <= i < old(results)@.len() ==> (#[trigger] final(results)@[i]).deep_view()
                == until_second(old(results)@[i].deep_view(), second@[i], window as int),
{
    let ghost given = results@;
    let n: usize = results.len();
    let seconds = Double::from_u64(window);
    let fraction = ratio_of(1, 100);
    for i in 0..n
        invariant
            results@.len() == given.len() == n,
            second@.len() == n,
            seconds == of_integer(window as int),
            fraction == noise(),
            forall|i: int|
                0 <= i < given.len() ==> match second@[i] {
                    Some(n) => change_fits(backlog((#[trigger] given[i]).deep_view()), n as int),
                    None => true,
                },
            forall|j: int| i <= j < n ==> #[trigger] results@[j] == given[j],
            forall|j: int|
                0 <= j < i ==> (#[trigger] results@[j]).deep_view() == until_second(
                    given[j].deep_view(),
                    second@[j],
                    window as int,
                ),
    {
        let ghost before = results@;
        let mut h = results.remove(i);
        assert(h == given[i as int]);
        if h.error.is_none() {
            if let Some(m) = second[i] {
                h.drain = Some(evaluate_drain(h.backlog_or_zero(), m, seconds, fraction));
            }
        }
        let ghost after = h;
        assert(after.deep_view() =~= until_second(
            given[i as int].deep_view(),
            second@[i as int],
            window as int,
        ));
        results.insert(i, h);
        assert(results@ =~= before.update(i as int, after));
    }
}

/// The last backlog of the topic `name`.
pub open spec fn last_backlog(results: Seq<TopicHealth>, name: Seq<char>) -> Option<int>
    decreases results.len(),
{
    if results.len() == 0 {
        None
    } else if results.last().topic@ == name {
        Some(backlog(results.last().deep_view()))
    } else {
        last_backlog(results.drop_last(), name)
    }
}

/// What is found under `name`, as an integer.
pub open spec fn found(list: Seq<(String, i64)>, name: Seq<char>) -> Option<int> {
    match lookup(list, name) {
        Some(n) => Some(n as int),
        None => None,
    }
}

/// Remember the backlog of each topic for the next look.
pub fn backlogs(results: &Vec<TopicHealth>) -> (r: Vec<(String, i64)>)
    ensures
        distinct_names(r@),
        forall|name: Seq<char>| #[trigger] found(r@, name) == last_backlog(results@, name),
{
    let mut r: Vec<(String, i64)> = Vec::new();
    for i in 0..results.len()
        invariant
            distinct_names(r@),
            forall|name: Seq<char>| #[trigger]
                found(r@, name) == last_backlog(results@.take(i as int), name),
    {
        let h = &results[i];
        let n: i64 = h.backlog_or_zero();
        let topic = h.topic.as_str();
        assert(results@.take(i + 1).drop_last() =~= results@.take(i as int));
        assert(results@.take(i + 1).last() == results@[i as int]);
        let ghost given = r@;
        let at: usize = position_of(&r, topic);
        if at < r.len() {
            let (key, _) = r.remove(at);
            r.insert(at, (key, n));
            proof {
                assert(r@ =~= given.update(at as int, (given[at as int].0, n)));
                lemma_lookup_replaced(given, at as int, n, topic@);
                assert forall|name: Seq<char>| #[trigger] found(r@, name) == last_backlog(
                    results@.take(i + 1),
                    name,
                ) by {
                    lemma_lookup_replaced(given, at as int, n, name);
                    assert(found(given, name) == last_backlog(results@.take(i as int), name));
                }
            }
        } else {
            let e = (copy_of(topic), n);
            let ghost added = e;
            r.push(e);
            proof {
                lemma_lookup_added(given, added, topic@);
                assert forall|name: Seq<char>| #[trigger] found(r@, name) == last_backlog(
                    results@.take(i + 1),
                    name,
                ) by {
                    lemma_lookup_added(given, added, name);
                    assert(found(given, name) == last_backlog(results@.take(i as int), name));
                }
            }
        }
    }
    assert(results@.take(results@.len() as int) =~= results@);
    r
}

// ── What is shown, and what the run comes to ─────────────────────────────────

/// The topic is not healthy.
pub open spec fn unwell() -> spec_fn(TopicHealth) -> bool {
    |h: TopicHealth| h.status != Status::Healthy
}

/// The topics that are not healthy, in their order.
pub fn problems(results: Vec<TopicHealth>) -> (r: Vec<TopicHealth>)
    ensures
        r@ == results@.filter(unwell()),
{
    let mut rest = results;
    let mut r: Vec<TopicHealth> = Vec::new();
    let ghost all = results@;
    let n: usize = rest.len();
    let ghost p = unwell();
    proof {
        assert(all.skip(0) =~= all);
        assert(all.take(0) =~= Seq::empty());
        assert(r@ =~= all.take(0).filter(p));
    }
    for i in 0..n
        invariant
            n == all.len(),
            p == unwell(),
            rest@ == all.skip(i as int),
            r@ == all.take(i as int).filter(p),
    {
        let h = rest.remove(0);
        assert(h == all[i as int]);
        assert(rest@ =~= all.skip(i + 1));
        proof {
            all.take(i as int).lemma_filter_push(h, p);
            assert(all.take(i as int).push(h) =~= all.take(i + 1));
        }
        if !h.status.is_healthy() {
            r.push(h);
        }
    }
    assert(all.take(n as int) =~= all);
    r
}

/// How many topics are not healthy.
pub fn unhealthy_count(results: &Vec<TopicHealth>) -> (r: usize)
    ensures
        r == count(results@, unwell()),
{
    let mut n: usize = 0;
    for i in 0..results.len()
        invariant
            n == count(results@.take(i as int), unwell()),
            n <= i,
    {
        proof {
            lemma_count_step(results@, unwell(), i as int);
        }
        if !results[i].status.is_healthy() {
            n = n + 1;
        }
    }
    assert(results@.take(results@.len() as int) =~= results@);
    n
}

/// The exit code of a single run: 3 where the pods have to be chosen first, 2
/// where a topic or the deployment is not healthy, else 0.
pub open spec fn exit_of(shown: Seq<TopicHealth>, kube: Option<KubeReport>) -> int {
    if kube matches Some(report) && report.discovery is Some {
        3
    } else if count(shown, unwell()) > 0 || (kube matches Some(report) && !report.sound()) {
        2
    } else {
        0
    }
}

/// The exit code of a single run.
pub fn exit_code(shown: &Vec<TopicHealth>, kube: &Option<KubeReport>) -> (r: u8)
    ensures
        r == exit_of(shown@, *kube),
{
    let unwell_topics: usize = unhealthy_count(shown);
    match kube {
        Some(report) => if report.discovery.is_some() {
            3
        } else if unwell_topics > 0 || !report.is_healthy() {
            2
        } else {
            0
        },
        None => if unwell_topics > 0 {
            2
        } else {
            0
        },
    }
}

/// How many of the topics are not healthy, in words.
pub fn unhealthy_line(unhealthy: usize, topics: usize, subscription: &str, threshold: i64) -> (r:
    String)
    ensures
        r@ == decimal(unhealthy as int) + " of "@ + decimal(topics as int)
            + " topic(s) unhealthy (subscription: "@ + subscription@ + ", threshold: "@ + decimal(
            threshold as int,
        ) + ")"@,
{
    cat8(
        count_text(unhealthy).as_str(),
        " of ",
        count_text(topics).as_str(),
        " topic(s) unhealthy (subscription: ",
        subscription,
        ", threshold: ",
        decimal_text(threshold).as_str(),
        ")",
    )
}

// ── Metrics ──────────────────────────────────────────────────────────────────

/// A metric as it is shown.
pub open spec fn shown_metric(m: MetricLine, v: VerdictView) -> bool {
    &&& m.label@ == v.label
    &&& m.value == v.value
    &&& m.arrow@ == arrow_of(v.rolling)
    &&& m.breached == v.breached
    &&& m.worsening == v.worsening
    &&& m.improving == v.improving
    &&& m.category@ == category_label(v.category)
    &&& m.changed == v.changed
    &&& m.stalled == v.stalled
    &&& m.is_rate == v.is_rate
    &&& m.present == v.present
}

/// The metrics of a pod as they are shown, in the order of the verdicts.
pub fn metric_summary(pod: &str, verdicts: &Vec<MetricVerdict>, health: Option<String>) -> (r:
    PodMetricSummary)
    ensures
        r.pod@ == pod@,
        r.health == health,
        r.lines@.len() == verdicts@.len(),
        forall|i: int|
            0 <= i < verdicts@.len() ==> shown_metric(
                #[trigger] r.lines@[i],
                verdicts@[i].deep_view(),
            ),
{
    let mut lines: Vec<MetricLine> = Vec::new();
    for i in 0..verdicts.len()
        invariant
            lines@.len() == i,
            forall|j: int|
                0 <= j < i ==> shown_metric(#[trigger] lines@[j], verdicts@[j].deep_view()),
    {
        let v = &verdicts[i];
        lines.push(
            MetricLine {
                label: copy_of(v.label.as_str()),
                value: v.value,
                arrow: copy_of(arrow(v.rolling)),
                breached: v.breached,
                worsening: v.worsening,
                improving: v.improving,
                category: copy_of(v.category.label()),
                changed: v.changed,
                stalled: v.stalled,
                is_rate: v.is_rate,
                present: v.present,
            },
        );
    }
    PodMetricSummary { pod: copy_of(pod), lines, health }
}

// ── Laws ─────────────────────────────────────────────────────────────────────

/// Without a discovery, a run exits with 0 exactly where every topic that is
/// shown is healthy and so is the deployment.
pub proof fn lemma_exit_zero(shown: Seq<TopicHealth>, kube: Option<KubeReport>)
    requires
        kube matches Some(report) ==> report.discovery is None,
    ensures
        exit_of(shown, kube) == 0 <==> (forall|i: int|
            0 <= i < shown.len() ==> (#[trigger] shown[i]).status == Status::Healthy) && (
        kube matches Some(report) ==> report.sound()),
{
    lemma_count_positive(shown, unwell());
    lemma_count_bound(shown, unwell());
    if count(shown, unwell()) > 0 {
        let i = choose|i: int| 0 <= i < shown.len() && unwell()(#[trigger] shown[i]);
        assert(shown[i].status != Status::Healthy);
    } else {
        assert forall|i: int| 0 <= i < shown.len() implies (#[trigger] shown[i]).status
            == Status::Healthy by {
            assert(!unwell()(shown[i]));
        }
    }
}

/// Hiding the healthy topics does not change the exit code.
pub proof fn lemma_exit_of_problems(results: Seq<TopicHealth>, kube: Option<KubeReport>)
    ensures
        exit_of(results.filter(unwell()), kube) == exit_of(results, kube),
    decreases results.len(),
{
    lemma_count_filter(results);
}

/// The topics that are not healthy are all counted.
proof fn lemma_count_filter(results: Seq<TopicHealth>)
    ensures
        count(results.filter(unwell()), unwell()) == count(results, unwell()),
    decreases results.len(),
{
    let p = unwell();
    if results.len() > 0 {
        let rest = results.drop_last();
        lemma_count_filter(rest);
        rest.lemma_filter_push(results.last(), p);
        assert(rest.push(results.last()) =~= results);
        if p(results.last()) {
            assert(results.filter(p).drop_last() =~= rest.filter(p));
        }
    } else {
        assert(results.filter(p) =~= Seq::empty());
    }
}

/// A healthy topic gets no hint, and a hint changes nothing but itself.
pub proof fn lemma_hint_only(h: HealthView, report: KubeReport)
    ensures
        h.status == Status::Healthy ==> hinted(h, report) == h,
        hinted(h, report) == (HealthView { kube_hint: hinted(h, report).kube_hint, ..h }),
{
}

/// A topic whose statistics failed, or that was not there before, gets no trend.
pub proof fn lemma_no_trend(h: HealthView, window: Double, secs: int)
    ensures
        since_last(h, None, window) == h,
        until_second(h, None, secs) == h,
        h.error is Some ==> forall|n: Option<i64>|
            #![auto]
            since_last(h, n, window) == h && until_second(h, n, secs) == h,
{
}

/// The exit code of a run says whether pods have to be chosen first, else whether
/// anything is wrong: a topic that is not healthy, or a deployment that could not
/// be asked, has no pods, has a pod that is not ready or was killed, has a setting
/// that is not as expected, or runs more than one image.
pub proof fn lemma_exit_codes(shown: Seq<TopicHealth>, kube: Option<KubeReport>)
    ensures
        exit_of(shown, kube) == 0 || exit_of(shown, kube) == 2 || exit_of(shown, kube) == 3,
        exit_of(shown, kube) == 3 <==> kube is Some && kube->0.discovery is Some,
        exit_of(shown, kube) == 2 <==> !(kube is Some && kube->0.discovery is Some) && {
            ||| exists|i: int|
                0 <= i < shown.len() && (#[trigger] shown[i]).status != Status::Healthy
            ||| kube is Some && kube->0.error is Some
            ||| kube is Some && kube->0.pods@.len() == 0
            ||| kube is Some && exists|i: int|
                0 <= i < kube->0.pods@.len() && ((#[trigger] kube->0.pods@[i]).oom_killed
                    || kube->0.pods@[i].total_containers == 0 || kube->0.pods@[i].ready
                    != kube->0.pods@[i].total_containers)
            ||| kube is Some && exists|i: int|
                0 <= i < kube->0.config_assertions@.len() && !(
                #[trigger] kube->0.config_assertions@[i]).pass
            ||| kube is Some && kube->0.images@.len() > 1
        },
{
    lemma_count_positive(shown, unwell());
    if exists|i: int| 0 <= i < shown.len() && (#[trigger] shown[i]).status != Status::Healthy {
        let i = choose|i: int|
            0 <= i < shown.len() && (#[trigger] shown[i]).status != Status::Healthy;
        assert(unwell()(shown[i]));
    }
    if count(shown, unwell()) > 0 {
        let i = choose|i: int| 0 <= i < shown.len() && unwell()(#[trigger] shown[i]);
        assert(shown[i].status != Status::Healthy);
    }
}

/// The problems are exactly the topics whose status is not the healthy one.
pub proof fn lemma_problems(results: Seq<TopicHealth>, h: TopicHealth)
    ensures
        results.filter(unwell()).contains(h) <==> results.contains(h) && h.status
            != Status::Healthy,
        count(results, unwell()) == results.filter(
            |x: TopicHealth| x.status != Status::Healthy,
        ).len(),
{
    let p = unwell();
    let q = |x: TopicHealth| x.status != Status::Healthy;
    assert(p =~= q);
    lemma_count_is_filter(results, q);
    broadcast use Seq::lemma_filter_contains, Seq::lemma_filter_pred;
    if results.filter(p).contains(h) {
        let k = choose|k: int| 0 <= k < results.filter(p).len() && results.filter(p)[k] == h;
        results.lemma_filter_contains_rev(p, h);
        assert(p(results.filter(p)[k]));
    }
    if results.contains(h) && p(h) {
        let i = choose|i: int| 0 <= i < results.len() && results[i] == h;
        results.lemma_filter_contains(p, i);
    }
}

/// The trend since the last look goes from what was remembered to what is now, the
/// trend within a run from what was read to what was read again. A backlog that was
/// not measured counts as zero, and a change below one percent counts as none.
pub proof fn lemma_trend_from_to(h: HealthView, n: i64, secs: int)
    requires
        h.error is None,
        0 < secs < EXACT,
    ensures
        ({
            let now = match h.total_backlog {
                Some(b) => b,
                None => 0,
            };
            &&& since_last(h, Some(n), of_integer(secs)) == (HealthView {
                drain: Some(drained(n as int, now, of_integer(secs), ratio(1, 100))),
                ..h
            })
            &&& until_second(h, Some(n), secs) == (HealthView {
                drain: Some(drained(now, n as int, of_integer(secs), ratio(1, 100))),
                ..h
            })
        }),
{
    lemma_integer_order(secs, 0);
}

/// Over no time there is no trend.
pub proof fn lemma_no_time_no_trend(h: HealthView, n: Option<i64>, secs: int)
    requires
        -EXACT < secs <= 0,
    ensures
        since_last(h, n, of_integer(secs)) == h,
{
    lemma_integer_order(secs, 0);
}

/// What is remembered of a topic is the backlog of its last result.
pub proof fn lemma_remembered(results: Seq<TopicHealth>, i: int)
    requires
        0 <= i < results.len(),
        forall|j: int| i < j < results.len() ==> (#[trigger] results[j]).topic@ != results[i].topic@,
    ensures
        last_backlog(results, results[i].topic@) == Some(
            match results[i].total_backlog {
                Some(n) => n as int,
                None => 0,
            },
        ),
    decreases results.len(),
{
    if i < results.len() - 1 {
        lemma_remembered(results.drop_last(), i);
    }
}

/// A topic that is not healthy carries the hint that the pods give, if they give
/// one.
pub proof fn lemma_hint_given(h: HealthView, report: KubeReport)
    requires
        h.status != Status::Healthy,
    ensures
        hint(report, true) is Some ==> hinted(h, report).kube_hint == hint(report, true),
        hint(report, true) is None ==> hinted(h, report) == h,
{
}

/// A metric is shown with what its verdict says; the arrow tells which way it moved.
pub proof fn lemma_metric_shown(m: MetricLine, v: VerdictView)
    requires
        shown_metric(m, v),
    ensures
        m.label@ == v.label && m.value == v.value && m.breached == v.breached,
        m.worsening == v.worsening && m.improving == v.improving && m.changed == v.changed,
        m.stalled == v.stalled && m.is_rate == v.is_rate && m.present == v.present,
        v.rolling == Direction::Up ==> m.arrow@ == "↑"@,
        v.rolling == Direction::Down ==> m.arrow@ == "↓"@,
        v.rolling == Direction::Flat ==> m.arrow@.len() == 0,
        v.category == MetricCategory::Consumer ==> m.category@ == "consumer"@,
        v.category == MetricCategory::Throughput ==> m.category@ == "throughput"@,
        v.category == MetricCategory::Bottleneck ==> m.category@ == "bottleneck"@,
        v.category == MetricCategory::Health ==> m.category@ == "health"@,
{
}

} // verus!
