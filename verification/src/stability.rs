//! Connection stability: consumers that are caught in a loop of idling, being
//! culled, rebalancing and reconnecting. No single scrape shows such a loop, so
//! a few series of every pod are traced over the window.

use crate::float::{
    absolute, larger, lemma_integer_absolute, lemma_integer_difference, lemma_integer_exact,
    lemma_integer_order, lemma_integer_product, lemma_integer_sum, negated, of_integer, product, sum,
};
use crate::kube::signals::STORM;
use crate::metrics::{
    lemma_counter_change, name_matches, names_match, positive, rate_of, recent, total, total_of, Sample, SampleView, Series,
};
use crate::number::{Double, EXACT};
use crate::text::{begins_with, chars_of, ends_with, finishes_with, same, slice_of, text_of};
use vstd::prelude::*;

verus! {

// ── What a scrape tells ──────────────────────────────────────────────────────

/// The series `actual` is the one that ends in `tail`, behind the prefix of a
/// pipeline. Type and unit suffixes of the exporter may follow.
pub open spec fn series_ends_in(actual: Seq<char>, tail: Seq<char>) -> bool {
    exists|i: int| 0 < i < actual.len() && names_match(#[trigger] actual.skip(i), tail)
}

/// The series is a component of a histogram.
pub open spec fn is_component(name: Seq<char>) -> bool {
    ||| finishes_with(name, "_bucket"@)
    ||| finishes_with(name, "_count"@)
    ||| finishes_with(name, "_sum"@)
}

/// The sample carries the reason, where one is asked for.
pub open spec fn has_reason(labels: Seq<(Seq<char>, Seq<char>)>, reason: Option<Seq<char>>) -> bool {
    match reason {
        Some(r) => labels.contains(("reason"@, r)),
        None => true,
    }
}

/// What a sample adds to the series that ends in `tail`.
pub open spec fn signal_part(
    s: SampleView,
    tail: Seq<char>,
    reason: Option<Seq<char>>,
) -> Option<Double> {
    if !is_component(s.name) && series_ends_in(s.name, tail) && has_reason(s.labels, reason)
        && s.value.finite() {
        Some(s.value)
    } else {
        None
    }
}

/// The value of the series that ends in `tail`, summed over its labels; none
/// where the scrape does not have it.
pub open spec fn signal(
    samples: Seq<SampleView>,
    tail: Seq<char>,
    reason: Option<Seq<char>>,
) -> Option<Double> {
    let values = samples.filter_map(|s: SampleView| signal_part(s, tail, reason));
    if values.len() == 0 {
        None
    } else {
        Some(total(values))
    }
}

/// Whether the series is the one that ends in `tail`.
fn has_tail(actual: &str, tail: &str) -> (r: bool)
    ensures
        r == series_ends_in(actual@, tail@),
{
    let v = chars_of(actual);
    let n: usize = v.len();
    let mut i: usize = 1;
    while i < n
        invariant
            n == v@.len(),
            v@ == actual@,
            1 <= i,
            forall|j: int| 0 < j < i && j < n ==> !names_match(#[trigger] actual@.skip(j), tail@),
        decreases n - i,
    {
        let rest = slice_of(v.as_slice(), i, n);
        assert(rest@ =~= actual@.skip(i as int));
        if name_matches(text_of(rest.as_slice()).as_str(), tail) {
            return true;
        }
        i = i + 1;
    }
    false
}

/// Whether the series is a component of a histogram.
fn of_histogram(name: &str) -> (r: bool)
    ensures
        r == is_component(name@),
{
    let v = chars_of(name);
    ends_with(v.as_slice(), "_bucket") || ends_with(v.as_slice(), "_count") || ends_with(
        v.as_slice(),
        "_sum",
    )
}

/// Whether the sample carries the reason, where one is asked for.
fn carries(labels: &Vec<(String, String)>, reason: Option<&str>) -> (r: bool)
    ensures
        r == has_reason(
            labels.deep_view(),
            match reason {
                Some(t) => Some(t@),
                None => None,
            },
        ),
{
    let wanted = match reason {
        Some(t) => t,
        None => return true,
    };
    let ghost all = labels.deep_view();
    let ghost pair = ("reason"@, wanted@);
    for i in 0..labels.len()
        invariant
            all == labels.deep_view(),
            pair == ("reason"@, wanted@),
            reason == Some(wanted),
            forall|j: int| 0 <= j < i ==> #[trigger] all[j] != pair,
    {
        assert(all[i as int] == (labels@[i as int].0@, labels@[i as int].1@));
        if same(labels[i].0.as_str(), "reason") && same(labels[i].1.as_str(), wanted) {
            assert(all[i as int] == pair);
            return true;
        }
    }
    false
}

/// The value of the series that ends in `tail`.
fn read_signal(samples: &Vec<Sample>, tail: &str, reason: Option<&str>) -> (r: Option<Double>)
    ensures
        r == signal(
            samples.deep_view(),
            tail@,
            match reason {
                Some(t) => Some(t@),
                None => None,
            },
        ),
{
    let ghost why = match reason {
        Some(t) => Some(t@),
        None => None,
    };
    let ghost all = samples.deep_view();
    let ghost f = |s: SampleView| signal_part(s, tail@, why);
    let mut values: Vec<Double> = Vec::new();
    assert(all.take(0) =~= Seq::empty());
    for i in 0..samples.len()
        invariant
            all == samples.deep_view(),
            why == (match reason {
                Some(t) => Some(t@),
                None => None,
            }),
            f == (|s: SampleView| signal_part(s, tail@, why)),
            values@ == all.take(i as int).filter_map(f),
    {
        let x = &samples[i];
        proof {
            all.lemma_filter_map_take_succ(f, i as int);
            assert(all[i as int] == x.deep_view());
        }
        if !of_histogram(x.name.as_str()) && has_tail(x.name.as_str(), tail) && carries(
            &x.labels,
            reason,
        ) && x.value.is_finite() {
            values.push(x.value);
        }
        assert(values@ =~= all.take(i + 1).filter_map(f));
    }
    assert(all.take(all.len() as int) =~= all);
    if values.len() == 0 {
        None
    } else {
        Some(total_of(values.as_slice()))
    }
}

// ── Traces ───────────────────────────────────────────────────────────────────

/// What is traced of one pod, each over the window.
#[derive(Debug)]
pub struct PodTrace {
    /// Reconnects so far.
    pub reconnects: Series,
    /// Changes between throttled and not, so far.
    pub throttles: Series,
    /// Partitions that are being read.
    pub parts: Series,
    /// Consumers culled for idling, so far.
    pub culls: Series,
    /// Seconds of idling after which a consumer is culled.
    pub limits: Series,
}

/// What a `PodTrace` says.
#[verifier::ext_equal]
pub struct TraceView {
    pub reconnects: Seq<Double>,
    pub throttles: Seq<Double>,
    pub parts: Seq<Double>,
    pub culls: Seq<Double>,
    pub limits: Seq<Double>,
}

impl DeepView for PodTrace {
    type V = TraceView;

    open spec fn deep_view(&self) -> TraceView {
        TraceView {
            reconnects: self.reconnects.values@,
            throttles: self.throttles.values@,
            parts: self.parts.values@,
            culls: self.culls.values@,
            limits: self.limits.values@,
        }
    }
}

/// Nothing traced yet.
pub open spec fn no_trace() -> TraceView {
    TraceView {
        reconnects: Seq::empty(),
        throttles: Seq::empty(),
        parts: Seq::empty(),
        culls: Seq::empty(),
        limits: Seq::empty(),
    }
}

/// The values with one more, where there is one.
pub open spec fn extended(values: Seq<Double>, v: Option<Double>, window: int) -> Seq<Double> {
    match v {
        Some(x) => recent(values.push(x), positive(window)),
        None => values,
    }
}

/// The trace of a pod after one more scrape.
pub open spec fn traced(t: TraceView, samples: Seq<SampleView>, window: int) -> TraceView {
    TraceView {
        reconnects: extended(
            t.reconnects,
            signal(samples, "_pulsar_reconnections"@, None),
            window,
        ),
        throttles: extended(t.throttles, signal(samples, "_throttle_transitions"@, None), window),
        parts: extended(t.parts, signal(samples, "_source_partitions_active"@, None), window),
        culls: extended(
            t.culls,
            signal(samples, "_source_consumers_culled"@, Some("idle_timeout"@)),
            window,
        ),
        limits: extended(
            t.limits,
            signal(samples, "_source_idle_cull_threshold"@, None),
            window,
        ),
    }
}

/// Add a value, where there is one.
fn extend(series: &mut Series, v: Option<Double>, window: usize)
    ensures
        final(series).values@ == extended(old(series).values@, v, window as int),
{
    if let Some(x) = v {
        series.push(x, window);
    }
}

impl Default for PodTrace {
    fn default() -> (r: PodTrace)
        ensures
            r.deep_view() == no_trace(),
    {
        let r = PodTrace {
            reconnects: Series::default(),
            throttles: Series::default(),
            parts: Series::default(),
            culls: Series::default(),
            limits: Series::default(),
        };
        assert(r.deep_view() =~= no_trace());
        r
    }
}

impl PodTrace {
    /// Take a scrape in.
    pub fn take_in(&mut self, samples: &Vec<Sample>, window: usize)
        ensures
            final(self).deep_view() == traced(
                old(self).deep_view(),
                samples.deep_view(),
                window as int,
            ),
    {
        extend(
            &mut self.reconnects,
            read_signal(samples, "_pulsar_reconnections", None),
            window,
        );
        extend(
            &mut self.throttles,
            read_signal(samples, "_throttle_transitions", None),
            window,
        );
        extend(
            &mut self.parts,
            read_signal(samples, "_source_partitions_active", None),
            window,
        );
        extend(
            &mut self.culls,
            read_signal(samples, "_source_consumers_culled", Some("idle_timeout")),
            window,
        );
        extend(
            &mut self.limits,
            read_signal(samples, "_source_idle_cull_threshold", None),
            window,
        );
    }
}

// ── Verdicts ─────────────────────────────────────────────────────────────────

/// How stable the connections of a pod are.
#[derive(Debug, Clone, Copy)]
pub struct PodStability {
    /// Reconnects since the scrape before.
    pub reconnect_rate: Double,
    /// Changes between throttled and not since the scrape before.
    pub throttle_transition_rate: Double,
    /// How far the number of partitions has moved in all, up and down.
    pub active_parts_churn: Double,
    pub active_parts: Double,
    /// Consumers culled for idling since the scrape before.
    pub idle_cull_rate: Double,
    pub idle_cull_threshold_secs: Double,
    /// Reconnects come in a storm.
    pub flapping_rate: bool,
    /// Partitions are lost and come back.
    pub flapping_rebalance: bool,
    /// Consumers are culled for idling while the connections flap.
    pub idle_cull_loop: bool,
}

/// The value, or zero.
pub open spec fn or_zero(v: Option<Double>) -> Double {
    match v {
        Some(x) => x,
        None => of_integer(0),
    }
}

/// The newest of the values, or zero.
pub open spec fn newest(values: Seq<Double>) -> Double {
    if values.len() > 0 {
        values.last()
    } else {
        of_integer(0)
    }
}

/// The total variation of the values: how far they have moved in all, up and
/// down. It sees an oscillation that ends where it started.
pub open spec fn variation(values: Seq<Double>) -> Double
    decreases values.len(),
{
    if values.len() < 2 {
        of_integer(0)
    } else {
        sum(
            variation(values.drop_last()),
            absolute(sum(values.last(), negated(values[values.len() - 2]))),
        )
    }
}

/// The greatest of the values, and at least zero.
pub open spec fn peak(values: Seq<Double>) -> Double
    decreases values.len(),
{
    if values.len() == 0 {
        of_integer(0)
    } else {
        larger(peak(values.drop_last()), values.last())
    }
}

/// The number of partitions goes to and fro: it has moved at least as far as
/// losing and regaining every partition that the pod ever had takes.
pub open spec fn oscillates(values: Seq<Double>) -> bool {
    of_integer(0).less(peak(values)) && !variation(values).less(
        product(peak(values), of_integer(2)),
    )
}

/// How stable the connections of a pod with this trace are.
pub open spec fn judged(t: TraceView) -> PodStability {
    let reconnects = or_zero(rate_of(t.reconnects));
    let culls = or_zero(rate_of(t.culls));
    let storm = !reconnects.less(of_integer(STORM as int));
    let swings = oscillates(t.parts);
    PodStability {
        reconnect_rate: reconnects,
        throttle_transition_rate: or_zero(rate_of(t.throttles)),
        active_parts_churn: variation(t.parts),
        active_parts: newest(t.parts),
        idle_cull_rate: culls,
        idle_cull_threshold_secs: newest(t.limits),
        flapping_rate: storm,
        flapping_rebalance: swings,
        idle_cull_loop: of_integer(0).less(culls) && (storm || swings),
    }
}

/// The change of a counter since the scrape before, or zero.
fn rate(series: &Series) -> (r: Double)
    ensures
        r == or_zero(rate_of(series.values@)),
{
    match series.counter_rate() {
        Some(x) => x,
        None => Double::from_u64(0),
    }
}

/// The newest of the values, or zero.
fn newest_of(series: &Series) -> (r: Double)
    ensures
        r == newest(series.values@),
{
    match series.current() {
        Some(x) => x,
        None => Double::from_u64(0),
    }
}

/// The total variation of the values.
pub fn churn_of(values: &[Double]) -> (r: Double)
    ensures
        r == variation(values@),
{
    let n: usize = values.len();
    let mut r = Double::from_u64(0);
    if n < 2 {
        return r;
    }
    for i in 1..n
        invariant
            n == values@.len(),
            r == variation(values@.take(i as int)),
    {
        let ghost next = values@.take(i + 1);
        assert(next.drop_last() =~= values@.take(i as int));
        assert(next[next.len() - 2] == values@[i - 1]);
        r = r.plus(values[i].minus(values[i - 1]).abs());
    }
    assert(values@.take(n as int) =~= values@);
    r
}

/// The greatest of the values, and at least zero.
fn peak_of(values: &[Double]) -> (r: Double)
    ensures
        r == peak(values@),
{
    let mut r = Double::from_u64(0);
    assert(values@.take(0) =~= Seq::empty());
    for i in 0..values.len()
        invariant
            r == peak(values@.take(i as int)),
    {
        assert(values@.take(i + 1).drop_last() =~= values@.take(i as int));
        r = r.max(values[i]);
    }
    assert(values@.take(values@.len() as int) =~= values@);
    r
}

impl PodTrace {
    /// How stable the connections of the pod are.
    pub fn judge(&self) -> (r: PodStability)
        ensures
            r == judged(self.deep_view()),
    {
        let zero = Double::from_u64(0);
        let reconnects = rate(&self.reconnects);
        let culls = rate(&self.culls);
        let churn = churn_of(self.parts.values.as_slice());
        let top = peak_of(self.parts.values.as_slice());
        let storm = !reconnects.is_less(Double::from_u64(STORM as u64));
        let swings = zero.is_less(top) && !churn.is_less(top.times(Double::from_u64(2)));
        PodStability {
            reconnect_rate: reconnects,
            throttle_transition_rate: rate(&self.throttles),
            active_parts_churn: churn,
            active_parts: newest_of(&self.parts),
            idle_cull_rate: culls,
            idle_cull_threshold_secs: newest_of(&self.limits),
            flapping_rate: storm,
            flapping_rebalance: swings,
            idle_cull_loop: zero.is_less(culls) && (storm || swings),
        }
    }
}

// ── Laws ─────────────────────────────────────────────────────────────────────

/// How far a count has moved in all, up and down.
pub open spec fn total_variation(counts: Seq<int>) -> int
    decreases counts.len(),
{
    if counts.len() < 2 {
        0
    } else {
        let step = counts.last() - counts[counts.len() - 2];
        total_variation(counts.drop_last()) + (if step < 0 {
            -step
        } else {
            step
        })
    }
}

/// The churn of counts is exact: it is how far they have moved in all.
pub proof fn lemma_churn_exact(counts: Seq<int>)
    requires
        forall|i: int| 0 <= i < counts.len() ==> 0 <= #[trigger] counts[i] < EXACT,
        total_variation(counts) < EXACT,
    ensures
        variation(counts.map_values(|n: int| of_integer(n))) == of_integer(total_variation(counts)),
        total_variation(counts) >= 0,
    decreases counts.len(),
{
    let values = counts.map_values(|n: int| of_integer(n));
    if counts.len() >= 2 {
        let rest = counts.drop_last();
        let (a, b) = (counts[counts.len() - 1], counts[counts.len() - 2]);
        assert forall|i: int| 0 <= i < rest.len() implies 0 <= #[trigger] rest[i] < EXACT by {
            assert(rest[i] == counts[i]);
        }
        let step = if a < b {
            b - a
        } else {
            a - b
        };
        lemma_churn_exact(rest);
        assert(values.drop_last() =~= rest.map_values(|n: int| of_integer(n)));
        lemma_integer_difference(a, b);
        lemma_integer_absolute(a - b);
        lemma_integer_sum(total_variation(rest), step);
    }
}

/// The churn is never less than the change from the first count to the last.
pub proof fn lemma_churn_covers_change(counts: Seq<int>)
    requires
        counts.len() > 0,
    ensures
        total_variation(counts) >= counts.last() - counts[0],
        total_variation(counts) >= counts[0] - counts.last(),
    decreases counts.len(),
{
    if counts.len() >= 2 {
        lemma_churn_covers_change(counts.drop_last());
    }
}

/// The change of a counter that was at `a` and is at `b`; a counter that went
/// back has started anew, and its change is not known.
pub proof fn lemma_rates(t: TraceView, before: Seq<Double>, a: int, b: int)
    requires
        0 <= a < EXACT,
        0 <= b < EXACT,
    ensures
        ({
            let values = before.push(of_integer(a)).push(of_integer(b));
            let change = of_integer(if b >= a {
                b - a
            } else {
                0
            });
            &&& t.reconnects == values ==> judged(t).reconnect_rate == change
            &&& t.throttles == values ==> judged(t).throttle_transition_rate == change
            &&& t.culls == values ==> judged(t).idle_cull_rate == change
            &&& t.reconnects == values ==> (judged(t).flapping_rate <==> b - a >= 10)
            &&& t.culls == values ==> (judged(t).idle_cull_loop <==> b > a && (
            judged(t).flapping_rate || judged(t).flapping_rebalance))
            &&& t.parts == values ==> judged(t).active_parts == of_integer(b)
            &&& t.limits == values ==> judged(t).idle_cull_threshold_secs == of_integer(b)
        }),
{
    lemma_counter_change(before, a, b);
    let change: int = if b >= a {
        b - a
    } else {
        0
    };
    lemma_integer_order(change, 10);
    lemma_integer_order(0, change);
    let values = before.push(of_integer(a)).push(of_integer(b));
    assert(values.last() == of_integer(b));
}

/// Without scrapes there is nothing to see.
pub proof fn lemma_quiet_trace()
    ensures
        ({
            let s = judged(no_trace());
            &&& s.reconnect_rate == of_integer(0) && s.throttle_transition_rate == of_integer(0)
            &&& s.idle_cull_rate == of_integer(0) && s.active_parts == of_integer(0)
            &&& !s.flapping_rate && !s.flapping_rebalance && !s.idle_cull_loop
        }),
{
    lemma_integer_order(0, 10);
    lemma_integer_order(0, 0);
}

/// The peak of counts is one of them, or zero, and none is above it.
proof fn lemma_peak_exact(counts: Seq<int>, peak_count: int)
    requires
        forall|i: int| 0 <= i < counts.len() ==> 0 <= #[trigger] counts[i] <= peak_count < EXACT,
        counts.contains(peak_count) || (counts.len() == 0 && peak_count == 0),
    ensures
        peak(counts.map_values(|n: int| of_integer(n))) == of_integer(peak_count),
    decreases counts.len(),
{
    let f = |n: int| of_integer(n);
    let values = counts.map_values(f);
    if counts.len() > 0 {
        let rest = counts.drop_last();
        let last = counts.last();
        assert(last == counts[counts.len() - 1]);
        assert(values.drop_last() =~= rest.map_values(f));
        assert(values.last() == of_integer(last));
        lemma_integer_exact(last);
        let before = top(rest);
        lemma_top(rest);
        assert forall|i: int| 0 <= i < rest.len() implies 0 <= #[trigger] rest[i] <= before
            < EXACT by {
            assert(rest[i] == counts[i]);
            let j = choose|j: int| 0 <= j < rest.len() && rest[j] == before;
            assert(rest[j] == counts[j]);
        }
        lemma_peak_exact(rest, before);
        if rest.len() > 0 {
            let j = choose|j: int| 0 <= j < rest.len() && rest[j] == before;
            assert(counts[j] == before);
        }
        lemma_integer_exact(before);
        lemma_integer_order(before, last);
        let k = choose|k: int| 0 <= k < counts.len() && counts[k] == peak_count;
        if k < rest.len() {
            assert(rest[k] == peak_count);
        }
    }
}

/// The greatest of the counts, or zero.
spec fn top(counts: Seq<int>) -> int
    decreases counts.len(),
{
    if counts.len() == 0 {
        0
    } else if counts.len() == 1 || top(counts.drop_last()) < counts.last() {
        counts.last()
    } else {
        top(counts.drop_last())
    }
}

/// The greatest of the counts is one of them.
proof fn lemma_top(counts: Seq<int>)
    ensures
        counts.len() > 0 ==> counts.contains(top(counts)),
        forall|i: int| 0 <= i < counts.len() ==> #[trigger] counts[i] <= top(counts),
    decreases counts.len(),
{
    if counts.len() > 0 {
        let rest = counts.drop_last();
        lemma_top(rest);
        assert(counts[counts.len() - 1] == counts.last());
        assert forall|i: int| 0 <= i < counts.len() implies #[trigger] counts[i] <= top(counts) by {
            if i < rest.len() {
                assert(rest[i] == counts[i]);
            }
        }
        if rest.contains(top(counts)) {
            let i = choose|i: int| 0 <= i < rest.len() && rest[i] == top(counts);
            assert(counts[i] == top(counts));
        }
    }
}

/// Partitions flap exactly where a pod that ever had some has lost and regained as
/// many, in all, as it had at most: a movement of twice the peak or more.
pub proof fn lemma_flapping(t: TraceView, counts: Seq<int>, peak_count: int)
    requires
        t.parts == counts.map_values(|n: int| of_integer(n)),
        forall|i: int| 0 <= i < counts.len() ==> 0 <= #[trigger] counts[i] <= peak_count,
        counts.contains(peak_count),
        2 * peak_count < EXACT,
        total_variation(counts) < EXACT,
    ensures
        judged(t).flapping_rebalance <==> peak_count > 0 && total_variation(counts) >= 2
            * peak_count,
        judged(t).active_parts_churn == of_integer(total_variation(counts)),
{
    let k = choose|k: int| 0 <= k < counts.len() && counts[k] == peak_count;
    lemma_churn_exact(counts);
    lemma_peak_exact(counts, peak_count);
    lemma_integer_order(0, peak_count);
    lemma_integer_product(peak_count, 2);
    lemma_integer_order(total_variation(counts), 2 * peak_count);
}

/// A series of a pipeline is found by its end, whatever the pipeline is called;
/// the components of histograms and values that are no numbers do not count, and a
/// reason that is asked for must be given.
pub proof fn lemma_series_found(s: SampleView, prefix: Seq<char>, tail: Seq<char>, reason: Seq<char>)
    requires
        prefix.len() > 0,
        tail.len() > 0,
        s.name == prefix + tail,
    ensures
        ({
            let counts = !finishes_with(s.name, "_bucket"@) && !finishes_with(s.name, "_count"@)
                && !finishes_with(s.name, "_sum"@) && s.value.finite();
            &&& signal_part(s, tail, None) == (if counts {
                Some(s.value)
            } else {
                None
            })
            &&& signal_part(s, tail, Some(reason)) == (if counts && s.labels.contains(
                ("reason"@, reason),
            ) {
                Some(s.value)
            } else {
                None
            })
        }),
{
    assert(s.name.skip(prefix.len() as int) =~= tail);
    assert(tail.subrange(0, tail.len() as int) =~= tail);
    assert(begins_with(tail, tail));
    assert(tail.skip(tail.len() as int) =~= Seq::empty());
    assert(names_match(s.name.skip(prefix.len() as int), tail));
}

/// What a scrape with one sample of a series adds to the trace.
pub proof fn lemma_traced_series(t: TraceView, s: SampleView, prefix: Seq<char>, window: int)
    requires
        prefix.len() > 0,
        s.value.finite(),
        window > 0,
        !finishes_with(s.name, "_bucket"@) && !finishes_with(s.name, "_count"@) && !finishes_with(
            s.name,
            "_sum"@,
        ),
    ensures
        ({
            let r = traced(t, seq![s], window);
            &&& s.name == prefix + "_pulsar_reconnections"@ ==> r.reconnects == recent(
                t.reconnects.push(s.value),
                window,
            )
            &&& s.name == prefix + "_throttle_transitions"@ ==> r.throttles == recent(
                t.throttles.push(s.value),
                window,
            )
            &&& s.name == prefix + "_source_partitions_active"@ ==> r.parts == recent(
                t.parts.push(s.value),
                window,
            )
            &&& s.name == prefix + "_source_idle_cull_threshold"@ ==> r.limits == recent(
                t.limits.push(s.value),
                window,
            )
            &&& s.name == prefix + "_source_consumers_culled"@ ==> r.culls == (
            if s.labels.contains(("reason"@, "idle_timeout"@)) {
                recent(t.culls.push(s.value), window)
            } else {
                t.culls
            })
        }),
{
    reveal_strlit("_pulsar_reconnections");
    reveal_strlit("_throttle_transitions");
    reveal_strlit("_source_partitions_active");
    reveal_strlit("_source_idle_cull_threshold");
    reveal_strlit("_source_consumers_culled");
    let idle = "idle_timeout"@;
    if s.name == prefix + "_pulsar_reconnections"@ {
        lemma_series_found(s, prefix, "_pulsar_reconnections"@, idle);
        lemma_single_signal(s, "_pulsar_reconnections"@, None);
    }
    if s.name == prefix + "_throttle_transitions"@ {
        lemma_series_found(s, prefix, "_throttle_transitions"@, idle);
        lemma_single_signal(s, "_throttle_transitions"@, None);
    }
    if s.name == prefix + "_source_partitions_active"@ {
        lemma_series_found(s, prefix, "_source_partitions_active"@, idle);
        lemma_single_signal(s, "_source_partitions_active"@, None);
    }
    if s.name == prefix + "_source_idle_cull_threshold"@ {
        lemma_series_found(s, prefix, "_source_idle_cull_threshold"@, idle);
        lemma_single_signal(s, "_source_idle_cull_threshold"@, None);
    }
    if s.name == prefix + "_source_consumers_culled"@ {
        lemma_series_found(s, prefix, "_source_consumers_culled"@, idle);
        lemma_single_signal(s, "_source_consumers_culled"@, Some(idle));
    }
}

/// The signal of one sample is what the sample adds.
proof fn lemma_single_signal(s: SampleView, tail: Seq<char>, reason: Option<Seq<char>>)
    ensures
        signal(seq![s], tail, reason) == signal_part(s, tail, reason),
{
    reveal(Seq::filter_map);
    let f = |x: SampleView| signal_part(x, tail, reason);
    let one = seq![s];
    assert(one.drop_last() =~= Seq::empty());
    assert(one.drop_last().filter_map(f) =~= Seq::<Double>::empty());
    assert(one.last() == s);
}

} // verus!
