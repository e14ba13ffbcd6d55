//! Pod metrics: the scraped text, rolling histories, and verdicts.
//!
//! This module reads the scraped text, sums the series that belong to a watched
//! metric, keeps the histories, tells which way they move, and ranks what it
//! finds.
use vstd::prelude::*;
use vstd::string::*;
use vstd::arithmetic::power2::{
    lemma2_to64, lemma2_to64_rest, lemma_pow2_adds, lemma_pow2_pos, lemma_pow2_strictly_increases,
};
use crate::assoc::{
    distinct_names, get, lemma_lookup_added, lemma_lookup_replaced, lookup, position_of, put,
    with_pairs, Pair,
};
use crate::config::{MetricsConfig, WatchConfig};
use crate::float::{
    absolute, assembled, larger, lemma_integer_absolute, lemma_integer_difference,
    lemma_integer_exact, lemma_integer_negated, lemma_integer_order, lemma_integer_product,
    lemma_integer_quotient, lemma_integer_sum, lemma_less_steps, lemma_nearest_bound,
    lemma_nearest_distance, lemma_nearest_infinite, lemma_nearest_scaled, nearest_magnitude, negated,
    of_integer, product, quotient, ratio, ratio_of, steps_of, sum, two,
};
use crate::literal::{parse_double, written_double};
use crate::number::{whole_text, Double, EXACT};
use crate::order::{
    is_before, lemma_precedes_irreflexive, lemma_precedes_total, lemma_precedes_transitive, lemma_sorted_map,
    lemma_sorted_ordered, precedes, sort_by, sorted, strict_weak_order,
};
use crate::stability::{judged, no_trace, traced, PodStability, PodTrace, TraceView};
use crate::tally::lemma_filter_map_member;
use crate::text::{
    alphanumeric, begins_with, char_index, chars_of, copy_of, empty_text, ends_with, finishes_with, first_word, glued, index_of, is_alphanumeric, join, joined,
    last, lemma_char_index, lemma_glued_push, lemma_lines, lemma_rfind_upto, lemma_trimmed, lemma_words, lines, occurs_at, pieces, space, rfind, same, slice_of, split, split_lines, starts_with, strip,
    stripped_end, stripped_start, text_of, trim, trimmed, word_len,
};

verus! {

// ── What is watched ──────────────────────────────────────────────────────────

/// Which way a metric moved.
#[derive(Debug, Clone, Copy, PartialEq, Eq, Structural)]
pub enum Direction {
    Up,
    Down,
    Flat,
}

/// Which way a metric should move.
#[derive(Debug, Clone, Copy, PartialEq, Eq, Structural)]
pub enum Polarity {
    HigherBetter,
    LowerBetter,
    /// Neither way is better.
    Neutral,
}

/// Whether a metric is shown as its value or as its change per scrape.
#[derive(Debug, Clone, Copy, PartialEq, Eq, Structural)]
pub enum MetricKind {
    Gauge,
    Counter,
}

impl Default for MetricKind {
    fn default() -> (r: MetricKind)
        ensures
            r == MetricKind::Gauge,
    {
        MetricKind::Gauge
    }
}

/// The group that a metric belongs to.
#[derive(Debug, Clone, Copy, PartialEq, Eq, Structural)]
pub enum MetricCategory {
    Consumer,
    Throughput,
    Bottleneck,
    Health,
}

/// How a category is called.
pub open spec fn category_label(c: MetricCategory) -> Seq<char> {
    match c {
        MetricCategory::Consumer => "consumer"@,
        MetricCategory::Throughput => "throughput"@,
        MetricCategory::Bottleneck => "bottleneck"@,
        MetricCategory::Health => "health"@,
    }
}

impl MetricCategory {
    /// How the category is called.
    pub fn label(self) -> (r: &'static str)
        ensures
            r@ == category_label(self),
    {
        match self {
            MetricCategory::Consumer => "consumer",
            MetricCategory::Throughput => "throughput",
            MetricCategory::Bottleneck => "bottleneck",
            MetricCategory::Health => "health",
        }
    }
}

// ── Reading the scraped text ─────────────────────────────────────────────────

/// One measured series.
#[derive(Debug)]
pub struct Sample {
    pub name: String,
    /// Label pairs in order.
    pub labels: Vec<(String, String)>,
    pub value: Double,
}

/// What a `Sample` says.
#[verifier::ext_equal]
pub struct SampleView {
    pub name: Seq<char>,
    pub labels: Seq<(Seq<char>, Seq<char>)>,
    pub value: Double,
}

impl DeepView for Sample {
    type V = SampleView;

    open spec fn deep_view(&self) -> SampleView {
        SampleView { name: self.name@, labels: self.labels.deep_view(), value: self.value }
    }
}

/// The label pair that `part` writes: `key="value"`, with white space around
/// key and value allowed and the quotes optional.
pub open spec fn label_pair(part: Seq<char>) -> Option<(Seq<char>, Seq<char>)> {
    let p = trimmed(part);
    let i = char_index(p, '=');
    if p.len() == 0 || i < 0 || i >= p.len() {
        None
    } else {
        let v = trimmed(p.subrange(i + 1, p.len() as int));
        Some((trimmed(p.subrange(0, i)), stripped_end(stripped_start(v, '"'), '"')))
    }
}

/// Label pair `a` stands before label pair `b`.
pub open spec fn pair_before(a: (Seq<char>, Seq<char>), b: (Seq<char>, Seq<char>)) -> bool {
    precedes(a.0, b.0) || (a.0 == b.0 && precedes(a.1, b.1))
}

/// The label pairs between the braces of a series, in order.
pub open spec fn label_pairs(s: Seq<char>) -> Seq<(Seq<char>, Seq<char>)> {
    sorted(
        pieces(s, ',').filter_map(|p: Seq<char>| label_pair(p)),
        |a: (Seq<char>, Seq<char>), b: (Seq<char>, Seq<char>)| pair_before(a, b),
    )
}

/// Name and labels of a series such as `name{key="value"}`.
pub open spec fn series_parts(s: Seq<char>) -> Option<(Seq<char>, Seq<(Seq<char>, Seq<char>)>)> {
    let open = char_index(s, '{');
    if open < 0 || open >= s.len() {
        Some((s, Seq::empty()))
    } else {
        match last(s, seq!['}']) {
            Some(close) if open + 1 <= close => Some(
                (s.subrange(0, open), label_pairs(s.subrange(open + 1, close))),
            ),
            _ => None,
        }
    }
}

/// The sample that the trimmed line `s` holds: a series, a blank, and a value;
/// what follows the value is ignored.
pub open spec fn sample_of(s: Seq<char>) -> Option<SampleView> {
    let i = char_index(s, ' ');
    if i < 0 || i >= s.len() {
        None
    } else {
        let word = first_word(trimmed(s.subrange(i, s.len() as int)));
        match (series_parts(s.subrange(0, i)), written_double(word)) {
            (Some((name, labels)), Some(value)) if name.len() > 0 => Some(
                SampleView { name, labels, value },
            ),
            _ => None,
        }
    }
}

/// The sample that a line of the scraped text holds. Comments hold none.
pub open spec fn line_sample(line: Seq<char>) -> Option<SampleView> {
    let s = trimmed(line);
    if s.len() == 0 || s[0] == '#' {
        None
    } else {
        sample_of(s)
    }
}

fn pair_less(a: &(String, String), b: &(String, String)) -> (r: bool)
    ensures
        r == pair_before((a.0@, a.1@), (b.0@, b.1@)),
{
    is_before(a.0.as_str(), b.0.as_str()) || (same(a.0.as_str(), b.0.as_str()) && is_before(
        a.1.as_str(),
        b.1.as_str(),
    ))
}

/// The label pair that `part` writes.
fn parse_label(part: &str) -> (r: Option<(String, String)>)
    ensures
        match r {
            Some(p) => label_pair(part@) == Some((p.0@, p.1@)),
            None => label_pair(part@) is None,
        },
{
    let p = trim(chars_of(part).as_slice());
    let n: usize = p.len();
    if n == 0 {
        return None;
    }
    let i = index_of(p.as_slice(), '=');
    if i == n {
        return None;
    }
    let key = trim(slice_of(p.as_slice(), 0, i).as_slice());
    let value = trim(slice_of(p.as_slice(), i + 1, n).as_slice());
    let bare = strip(value.as_slice(), '"');
    Some((text_of(key.as_slice()), text_of(bare.as_slice())))
}

/// The label pairs between the braces of a series, in order.
fn parse_labels(s: &[char]) -> (r: Vec<(String, String)>)
    ensures
        r.deep_view() == label_pairs(s@),
{
    let parts = split(s, ',');
    let mut found: Vec<(String, String)> = Vec::new();
    let ghost all = parts.deep_view();
    let ghost f = |p: Seq<char>| label_pair(p);
    assert(all.take(0) =~= Seq::empty());
    assert(found.deep_view() =~= all.take(0).filter_map(f));
    for i in 0..parts.len()
        invariant
            all == parts.deep_view(),
            f == (|p: Seq<char>| label_pair(p)),
            found.deep_view() == all.take(i as int).filter_map(f),
    {
        let ghost before = found.deep_view();
        proof {
            all.lemma_filter_map_take_succ(f, i as int);
            assert(all[i as int] == parts@[i as int]@);
        }
        if let Some(p) = parse_label(parts[i].as_str()) {
            let ghost view = (p.0@, p.1@);
            found.push(p);
            assert(found.deep_view() =~= before.push(view));
        }
        assert(found.deep_view() =~= all.take(i + 1).filter_map(f));
    }
    assert(all.take(all.len() as int) =~= all);
    let ghost given = found@;
    let ghost lt = |a: (String, String), b: (String, String)|
        pair_before((a.0@, a.1@), (b.0@, b.1@));
    let ghost lv = |a: (Seq<char>, Seq<char>), b: (Seq<char>, Seq<char>)| pair_before(a, b);
    let ghost view = |a: (String, String)| (a.0@, a.1@);
    let r = sort_by(found, pair_less, Ghost(lt));
    proof {
        lemma_sorted_map(given, view, lt, lv);
        assert(given.map_values(view) =~= all.filter_map(f));
        assert(r.deep_view() =~= r@.map_values(view));
    }
    r
}

/// The sample that a trimmed line holds.
fn parse_line(s: &[char]) -> (r: Option<Sample>)
    ensures
        match r {
            Some(x) => sample_of(s@) == Some(x.deep_view()),
            None => sample_of(s@) is None,
        },
{
    let n: usize = s.len();
    let i = index_of(s, ' ');
    if i == n {
        return None;
    }
    let rest = trim(slice_of(s, i, n).as_slice());
    let k = word_len(rest.as_slice());
    let word = slice_of(rest.as_slice(), 0, k);
    assert(word@ =~= first_word(rest@));
    let value = match parse_double(word.as_slice()) {
        Some(d) => d,
        None => {
            return None;
        },
    };
    let series = slice_of(s, 0, i);
    let open = index_of(series.as_slice(), '{');
    if open == series.len() {
        if series.len() == 0 {
            return None;
        }
        let x = Sample {
            name: text_of(series.as_slice()),
            labels: Vec::new(),
            value,
        };
        assert(x.labels.deep_view() =~= Seq::empty());
        return Some(x);
    }
    proof {
        reveal_strlit("}");
        assert("}"@ =~= seq!['}']);
    }
    match rfind(series.as_slice(), "}") {
        Some(close) => {
            if close < open + 1 || open == 0 {
                return None;
            }
            Some(
                Sample {
                    name: text_of(slice_of(series.as_slice(), 0, open).as_slice()),
                    labels: parse_labels(
                        slice_of(series.as_slice(), open + 1, close).as_slice(),
                    ),
                    value,
                },
            )
        },
        None => None,
    }
}

/// The samples that a scraped text holds, in order.
pub open spec fn scraped(text: Seq<char>) -> Seq<SampleView> {
    lines(text).filter_map(|l: Seq<char>| line_sample(l))
}

/// Read the text that a pod exposes into samples, in order. Comments, blank
/// lines and lines that hold no sample are passed over.
pub fn parse_prometheus(text: &str) -> (r: Vec<Sample>)
    ensures
        r.deep_view() == scraped(text@),
{
    let all_lines = split_lines(chars_of(text).as_slice());
    let mut r: Vec<Sample> = Vec::new();
    let ghost all = all_lines.deep_view();
    let ghost f = |l: Seq<char>| line_sample(l);
    assert(all.take(0) =~= Seq::empty());
    assert(r.deep_view() =~= all.take(0).filter_map(f));
    for i in 0..all_lines.len()
        invariant
            all == all_lines.deep_view(),
            f == (|l: Seq<char>| line_sample(l)),
            r.deep_view() == all.take(i as int).filter_map(f),
    {
        let ghost before = r.deep_view();
        proof {
            all.lemma_filter_map_take_succ(f, i as int);
            assert(all[i as int] == all_lines@[i as int]@);
        }
        let line = trim(chars_of(all_lines[i].as_str()).as_slice());
        if line.len() > 0 && line[0] != '#' {
            if let Some(x) = parse_line(line.as_slice()) {
                let ghost view = x.deep_view();
                r.push(x);
                assert(r.deep_view() =~= before.push(view));
            }
        }
        assert(r.deep_view() =~= all.take(i + 1).filter_map(f));
    }
    assert(all.take(all.len() as int) =~= all);
    r
}

// ── The built-in watch list ──────────────────────────────────────────────────

/// The metrics that are watched where the configuration names none.
pub open spec fn curated() -> Seq<
    (&'static str, &'static str, Polarity, MetricKind, MetricCategory),
> {
    seq![
        (
            "ssync_pulsar_consumer_lag",
            "consumer lag",
            Polarity::LowerBetter,
            MetricKind::Gauge,
            MetricCategory::Consumer,
        ),
        (
            "ssync_pulsar_backlog_bytes",
            "backlog bytes",
            Polarity::LowerBetter,
            MetricKind::Gauge,
            MetricCategory::Consumer,
        ),
        (
            "ssync_pulsar_unacked_messages",
            "unacked",
            Polarity::LowerBetter,
            MetricKind::Gauge,
            MetricCategory::Consumer,
        ),
        (
            "ssync_pulsar_reconnections",
            "reconnections",
            Polarity::LowerBetter,
            MetricKind::Gauge,
            MetricCategory::Consumer,
        ),
        (
            "ssync_source_partitions_idle",
            "idle partitions",
            Polarity::LowerBetter,
            MetricKind::Gauge,
            MetricCategory::Consumer,
        ),
        (
            "ssync_throughput_rate",
            "throughput rps",
            Polarity::HigherBetter,
            MetricKind::Gauge,
            MetricCategory::Throughput,
        ),
        (
            "ssync_source_records_consumed_total",
            "consumed/s",
            Polarity::HigherBetter,
            MetricKind::Counter,
            MetricCategory::Throughput,
        ),
        (
            "ssync_records_written_total",
            "written/s",
            Polarity::HigherBetter,
            MetricKind::Counter,
            MetricCategory::Throughput,
        ),
        (
            "ssync_sink_records_sent_total",
            "sink sent/s",
            Polarity::HigherBetter,
            MetricKind::Counter,
            MetricCategory::Throughput,
        ),
        (
            "ssync_source_channel_fill_ratio",
            "source chan fill",
            Polarity::LowerBetter,
            MetricKind::Gauge,
            MetricCategory::Bottleneck,
        ),
        (
            "ssync_decoded_channel_depth",
            "decoded chan depth",
            Polarity::LowerBetter,
            MetricKind::Gauge,
            MetricCategory::Bottleneck,
        ),
        (
            "ssync_batcher_channel_depth",
            "batcher chan depth",
            Polarity::LowerBetter,
            MetricKind::Gauge,
            MetricCategory::Bottleneck,
        ),
        (
            "ssync_writer_channel_fill_ratio",
            "writer chan fill",
            Polarity::LowerBetter,
            MetricKind::Gauge,
            MetricCategory::Bottleneck,
        ),
        (
            "ssync_backpressure_state",
            "backpressure",
            Polarity::LowerBetter,
            MetricKind::Gauge,
            MetricCategory::Health,
        ),
        (
            "ssync_memory_rss_ratio",
            "mem rss ratio",
            Polarity::LowerBetter,
            MetricKind::Gauge,
            MetricCategory::Health,
        ),
        (
            "ssync_pipeline_unhealthy",
            "unhealthy",
            Polarity::LowerBetter,
            MetricKind::Gauge,
            MetricCategory::Health,
        ),
        (
            "ssync_destination_dlq_rows_total",
            "dlq rows/s",
            Polarity::LowerBetter,
            MetricKind::Counter,
            MetricCategory::Health,
        ),
    ]
}

/// The metrics that are watched where the configuration names none: series,
/// label, polarity, kind and category.
pub fn curated_series() -> (r: &'static [(
    &'static str,
    &'static str,
    Polarity,
    MetricKind,
    MetricCategory,
)])
    ensures
        r@ == curated(),
{
    let r: &'static [(&'static str, &'static str, Polarity, MetricKind, MetricCategory)] = &[
        (
            "ssync_pulsar_consumer_lag",
            "consumer lag",
            Polarity::LowerBetter,
            MetricKind::Gauge,
            MetricCategory::Consumer,
        ),
        (
            "ssync_pulsar_backlog_bytes",
            "backlog bytes",
            Polarity::LowerBetter,
            MetricKind::Gauge,
            MetricCategory::Consumer,
        ),
        (
            "ssync_pulsar_unacked_messages",
            "unacked",
            Polarity::LowerBetter,
            MetricKind::Gauge,
            MetricCategory::Consumer,
        ),
        (
            "ssync_pulsar_reconnections",
            "reconnections",
            Polarity::LowerBetter,
            MetricKind::Gauge,
            MetricCategory::Consumer,
        ),
        (
            "ssync_source_partitions_idle",
            "idle partitions",
            Polarity::LowerBetter,
            MetricKind::Gauge,
            MetricCategory::Consumer,
        ),
        (
            "ssync_throughput_rate",
            "throughput rps",
            Polarity::HigherBetter,
            MetricKind::Gauge,
            MetricCategory::Throughput,
        ),
        (
            "ssync_source_records_consumed_total",
            "consumed/s",
            Polarity::HigherBetter,
            MetricKind::Counter,
            MetricCategory::Throughput,
        ),
        (
            "ssync_records_written_total",
            "written/s",
            Polarity::HigherBetter,
            MetricKind::Counter,
            MetricCategory::Throughput,
        ),
        (
            "ssync_sink_records_sent_total",
            "sink sent/s",
            Polarity::HigherBetter,
            MetricKind::Counter,
            MetricCategory::Throughput,
        ),
        (
            "ssync_source_channel_fill_ratio",
            "source chan fill",
            Polarity::LowerBetter,
            MetricKind::Gauge,
            MetricCategory::Bottleneck,
        ),
        (
            "ssync_decoded_channel_depth",
            "decoded chan depth",
            Polarity::LowerBetter,
            MetricKind::Gauge,
            MetricCategory::Bottleneck,
        ),
        (
            "ssync_batcher_channel_depth",
            "batcher chan depth",
            Polarity::LowerBetter,
            MetricKind::Gauge,
            MetricCategory::Bottleneck,
        ),
        (
            "ssync_writer_channel_fill_ratio",
            "writer chan fill",
            Polarity::LowerBetter,
            MetricKind::Gauge,
            MetricCategory::Bottleneck,
        ),
        (
            "ssync_backpressure_state",
            "backpressure",
            Polarity::LowerBetter,
            MetricKind::Gauge,
            MetricCategory::Health,
        ),
        (
            "ssync_memory_rss_ratio",
            "mem rss ratio",
            Polarity::LowerBetter,
            MetricKind::Gauge,
            MetricCategory::Health,
        ),
        (
            "ssync_pipeline_unhealthy",
            "unhealthy",
            Polarity::LowerBetter,
            MetricKind::Gauge,
            MetricCategory::Health,
        ),
        (
            "ssync_destination_dlq_rows_total",
            "dlq rows/s",
            Polarity::LowerBetter,
            MetricKind::Counter,
            MetricCategory::Health,
        ),
    ];
    assert(r@ =~= curated());
    r
}

// ── Samples ──────────────────────────────────────────────────────────────────

/// A label pair as it is written: `key="value"`.
pub open spec fn pair_text(p: (Seq<char>, Seq<char>)) -> Seq<char> {
    p.0 + seq!['=', '"'] + p.1 + seq!['"']
}

/// The identity of a series: its name, with its labels in braces if it has any.
pub open spec fn series_text(name: Seq<char>, labels: Seq<(Seq<char>, Seq<char>)>) -> Seq<char> {
    if labels.len() == 0 {
        name
    } else {
        name + seq!['{'] + joined(
            labels.map_values(|p: (Seq<char>, Seq<char>)| pair_text(p)),
            seq![','],
        ) + seq!['}']
    }
}

impl Sample {
    /// The identity of the series.
    pub fn series_key(&self) -> (r: String)
        ensures
            r@ == series_text(self.name@, self.labels.deep_view()),
    {
        if self.labels.len() == 0 {
            return copy_of(self.name.as_str());
        }
        let mut parts: Vec<String> = Vec::new();
        let ghost pairs = self.labels.deep_view();
        let ghost f = |p: (Seq<char>, Seq<char>)| pair_text(p);
        for i in 0..self.labels.len()
            invariant
                pairs == self.labels.deep_view(),
                f == (|p: (Seq<char>, Seq<char>)| pair_text(p)),
                parts.deep_view() =~= pairs.take(i as int).map_values(f),
        {
            let mut part = copy_of(self.labels[i].0.as_str());
            part.push('=');
            part.push('"');
            part.append(self.labels[i].1.as_str());
            part.push('"');
            proof {
                assert(pairs[i as int] == (self.labels@[i as int].0@, self.labels@[i as int].1@));
                assert(part@ =~= pair_text(pairs[i as int]));
            }
            let ghost before = parts.deep_view();
            let ghost view = part@;
            parts.push(part);
            proof {
                assert(parts.deep_view() =~= before.push(view));
                assert(pairs.take(i + 1).map_values(f) =~= pairs.take(i as int).map_values(f).push(
                    view,
                ));
            }
        }
        let mut r = copy_of(self.name.as_str());
        r.push('{');
        proof {
            reveal_strlit(",");
            assert(","@ =~= seq![',']);
            assert(pairs.take(pairs.len() as int) =~= pairs);
        }
        r.append(join(&parts, ",").as_str());
        r.push('}');
        assert(r@ =~= series_text(self.name@, pairs));
        r
    }
}

/// The type and unit suffix that `s` begins with, by its length.
pub open spec fn leading_suffix(s: Seq<char>) -> Option<int> {
    if begins_with(s, "_total"@) {
        Some(6)
    } else if begins_with(s, "_bytes"@) {
        Some(6)
    } else if begins_with(s, "_milliseconds"@) {
        Some(13)
    } else if begins_with(s, "_seconds"@) {
        Some(8)
    } else if begins_with(s, "_ratio"@) {
        Some(6)
    } else {
        None
    }
}

/// `s` is made of type and unit suffixes and nothing else.
pub open spec fn suffixes_only(s: Seq<char>) -> bool
    decreases s.len(),
{
    if s.len() == 0 {
        true
    } else {
        match leading_suffix(s) {
            Some(n) => if n <= s.len() {
                suffixes_only(s.skip(n))
            } else {
                false
            },
            None => false,
        }
    }
}

/// The scraped name `actual` belongs to the configured name `configured`: it is
/// the same, or the exporter put type and unit suffixes behind it.
pub open spec fn names_match(actual: Seq<char>, configured: Seq<char>) -> bool {
    begins_with(actual, configured) && suffixes_only(actual.skip(configured.len() as int))
}

fn suffix_len(s: &[char]) -> (r: Option<usize>)
    ensures
        match r {
            Some(n) => leading_suffix(s@) == Some(n as int) && 0 < n <= s@.len(),
            None => leading_suffix(s@) is None,
        },
{
    proof {
        reveal_strlit("_total");
        reveal_strlit("_bytes");
        reveal_strlit("_milliseconds");
        reveal_strlit("_seconds");
        reveal_strlit("_ratio");
    }
    if starts_with(s, "_total") {
        Some(6)
    } else if starts_with(s, "_bytes") {
        Some(6)
    } else if starts_with(s, "_milliseconds") {
        Some(13)
    } else if starts_with(s, "_seconds") {
        Some(8)
    } else if starts_with(s, "_ratio") {
        Some(6)
    } else {
        None
    }
}

/// Whether the scraped name `actual` belongs to the configured name
/// `configured`.
pub fn name_matches(actual: &str, configured: &str) -> (r: bool)
    ensures
        r == names_match(actual@, configured@),
{
    let a = chars_of(actual);
    let n: usize = a.len();
    if !starts_with(a.as_slice(), configured) {
        return false;
    }
    let c = chars_of(configured);
    let mut from: usize = c.len();
    while from < n
        invariant
            n == a@.len(),
            a@ == actual@,
            from <= n,
            suffixes_only(actual@.skip(configured@.len() as int)) == suffixes_only(
                a@.skip(from as int),
            ),
        decreases n - from,
    {
        let rest = slice_of(a.as_slice(), from, n);
        assert(rest@ =~= a@.skip(from as int));
        match suffix_len(rest.as_slice()) {
            Some(k) => {
                assert(rest@.skip(k as int) =~= a@.skip(from + k));
                from = from + k;
            },
            None => {
                return false;
            },
        }
    }
    assert(a@.skip(n as int) =~= Seq::empty());
    true
}

/// The sample counts towards the configured metric: its name matches, it is no
/// component of a histogram, and its value is finite.
pub open spec fn counts_towards(name: Seq<char>, value: Double, configured: Seq<char>) -> bool {
    &&& !finishes_with(name, "_bucket"@)
    &&& !finishes_with(name, "_count"@)
    &&& !finishes_with(name, "_sum"@)
    &&& names_match(name, configured)
    &&& value.finite()
}

/// The sum of numbers, from the first to the last.
pub open spec fn total(values: Seq<Double>) -> Double
    decreases values.len(),
{
    if values.len() == 0 {
        of_integer(0)
    } else if values.len() == 1 {
        values[0]
    } else {
        sum(total(values.drop_last()), values.last())
    }
}

/// The sum of numbers, from the first to the last.
pub fn total_of(values: &[Double]) -> (r: Double)
    ensures
        r == total(values@),
{
    let n: usize = values.len();
    if n == 0 {
        return Double::from_u64(0);
    }
    let mut r = values[0];
    assert(values@.take(1) =~= seq![values@[0]]);
    for i in 1..n
        invariant
            n == values@.len(),
            r == total(values@.take(i as int)),
    {
        assert(values@.take(i + 1).drop_last() =~= values@.take(i as int));
        r = r.plus(values[i]);
    }
    assert(values@.take(n as int) =~= values@);
    r
}

/// The value of a sample that counts towards the configured metric.
pub open spec fn counted_value(s: SampleView, configured: Seq<char>) -> Option<Double> {
    if counts_towards(s.name, s.value, configured) {
        Some(s.value)
    } else {
        None
    }
}

/// The value of a configured metric in a scrape: the sum over its series. With
/// none the metric is absent.
pub open spec fn aggregated(samples: Seq<SampleView>, configured: Seq<char>) -> Option<Double> {
    let values = samples.filter_map(|s: SampleView| counted_value(s, configured));
    if values.len() == 0 {
        None
    } else {
        Some(total(values))
    }
}

/// The value of a configured metric in a scrape.
pub fn aggregate_value(samples: &Vec<Sample>, configured: &str) -> (r: Option<Double>)
    ensures
        r == aggregated(samples.deep_view(), configured@),
{
    let values = matching_values(samples, configured);
    if values.len() == 0 {
        None
    } else {
        Some(total_of(values.as_slice()))
    }
}

/// The values that add up to a configured metric, in order.
fn matching_values(samples: &Vec<Sample>, configured: &str) -> (r: Vec<Double>)
    ensures
        r@ == samples.deep_view().filter_map(|s: SampleView| counted_value(s, configured@)),
{
    let mut r: Vec<Double> = Vec::new();
    let ghost all = samples.deep_view();
    let ghost f = |s: SampleView| counted_value(s, configured@);
    assert(all.take(0) =~= Seq::empty());
    for i in 0..samples.len()
        invariant
            all == samples.deep_view(),
            f == (|s: SampleView| counted_value(s, configured@)),
            r@ == all.take(i as int).filter_map(f),
    {
        let ghost before = r@;
        proof {
            all.lemma_filter_map_take_succ(f, i as int);
            assert(all[i as int] == samples@[i as int].deep_view());
        }
        let v = chars_of(samples[i].name.as_str());
        if !ends_with(v.as_slice(), "_bucket") && !ends_with(v.as_slice(), "_count") && !ends_with(
            v.as_slice(),
            "_sum",
        ) && name_matches(samples[i].name.as_str(), configured) && samples[i].value.is_finite() {
            r.push(samples[i].value);
        }
        assert(r@ =~= all.take(i + 1).filter_map(f));
    }
    assert(all.take(all.len() as int) =~= all);
    r
}

// ── Histories ────────────────────────────────────────────────────────────────

/// The recent values of one metric, oldest first.
#[derive(Debug)]
pub struct Series {
    pub values: Vec<Double>,
}

/// The last `n` items of `s`, or all of them.
pub open spec fn recent<T>(s: Seq<T>, n: int) -> Seq<T> {
    if s.len() > n {
        s.skip(s.len() - n)
    } else {
        s
    }
}

impl Default for Series {
    fn default() -> (r: Series)
        ensures
            r.values@.len() == 0,
    {
        Series { values: Vec::new() }
    }
}

impl Series {
    /// Add a value and forget those that no longer fit the window. The newest
    /// value is always kept.
    pub fn push(&mut self, value: Double, window: usize)
        ensures
            final(self).values@ == recent(
                old(self).values@.push(value),
                if window > 0 {
                    window as int
                } else {
                    1
                },
            ),
    {
        self.values.push(value);
        let keep: usize = if window > 0 { window } else { 1 };
        let ghost all = self.values@;
        let ghost mut gone: int = 0;
        assert(all.skip(0) =~= all);
        while self.values.len() > keep
            invariant
                keep >= 1,
                0 <= gone <= all.len(),
                self.values@ == all.skip(gone),
                gone > 0 ==> self.values@.len() >= keep,
            decreases self.values@.len(),
        {
            self.values.remove(0);
            proof {
                gone = gone + 1;
                assert(self.values@ =~= all.skip(gone));
            }
        }
    }

    /// The newest value.
    pub fn current(&self) -> (r: Option<Double>)
        ensures
            r == (if self.values@.len() > 0 {
                Some(self.values@.last())
            } else {
                None
            }),
    {
        if self.values.len() > 0 {
            Some(self.values[self.values.len() - 1])
        } else {
            None
        }
    }

    /// The value before the newest.
    pub fn previous(&self) -> (r: Option<Double>)
        ensures
            r == (if self.values@.len() >= 2 {
                Some(self.values@[self.values@.len() - 2])
            } else {
                None
            }),
    {
        if self.values.len() >= 2 {
            Some(self.values[self.values.len() - 2])
        } else {
            None
        }
    }

    /// Which way the value moved since the one before. A change of less than the
    /// fraction `eps` of that one counts as none.
    pub fn instant_direction(&self, eps: Double) -> (r: Direction)
        ensures
            r == instant_move(self.values@, eps),
    {
        match (self.current(), self.previous()) {
            (Some(cur), Some(prev)) => classify(prev, cur, eps),
            _ => Direction::Flat,
        }
    }

    /// Which way the values move over the whole window: the mean of the newer
    /// half against that of the older, so that one spike does not decide.
    pub fn rolling_direction(&self, eps: Double) -> (r: Direction)
        ensures
            r == rolling_move(self.values@, eps),
    {
        let n: usize = self.values.len();
        if n < 2 {
            return Direction::Flat;
        }
        let mid: usize = n / 2;
        let mut older: Vec<Double> = Vec::new();
        for i in 0..mid
            invariant
                mid <= n == self.values@.len(),
                older@ =~= self.values@.take(i as int),
        {
            older.push(self.values[i]);
        }
        let mut newer: Vec<Double> = Vec::new();
        for i in mid..n
            invariant
                mid <= n == self.values@.len(),
                newer@ =~= self.values@.subrange(mid as int, i as int),
        {
            newer.push(self.values[i]);
        }
        assert(newer@ =~= self.values@.skip(mid as int));
        classify(mean(older.as_slice()), mean(newer.as_slice()), eps)
    }

    /// The change of a counter since the value before; none where it went down,
    /// for then it was reset.
    pub fn counter_rate(&self) -> (r: Option<Double>)
        ensures
            r == rate_of(self.values@),
    {
        match (self.current(), self.previous()) {
            (Some(cur), Some(prev)) => if prev.is_less(cur) || prev.is_equal(cur) {
                Some(cur.minus(prev))
            } else {
                None
            },
            _ => None,
        }
    }

    /// Whether the value moved since the one before by more than noise.
    fn moved(&self, eps: Double) -> (r: bool)
        ensures
            r == has_moved(self.values@, eps),
    {
        match (self.current(), self.previous()) {
            (Some(cur), Some(prev)) => noise_of(prev, eps).is_less(cur.minus(prev).abs()),
            _ => false,
        }
    }
}

/// The mean of numbers; zero of none.
pub open spec fn mean_of(values: Seq<Double>) -> Double {
    if values.len() == 0 {
        of_integer(0)
    } else {
        quotient(total(values), of_integer(values.len() as int))
    }
}

/// The change that counts as one: a fraction of the value before, and at least a
/// billionth.
pub open spec fn noise_level(prev: Double, eps: Double) -> Double {
    larger(product(absolute(prev), eps), ratio(1, 1_000_000_000))
}

/// Which way a value moved from `prev` to `cur`.
pub open spec fn movement(prev: Double, cur: Double, eps: Double) -> Direction {
    let delta = sum(cur, negated(prev));
    let level = noise_level(prev, eps);
    if level.less(delta) {
        Direction::Up
    } else if delta.less(negated(level)) {
        Direction::Down
    } else {
        Direction::Flat
    }
}

/// Which way the newest of the values moved.
pub open spec fn instant_move(values: Seq<Double>, eps: Double) -> Direction {
    if values.len() < 2 {
        Direction::Flat
    } else {
        movement(values[values.len() - 2], values.last(), eps)
    }
}

/// Which way the values move from their older half to the newer; of an odd
/// number the newer half has one more.
pub open spec fn rolling_move(values: Seq<Double>, eps: Double) -> Direction {
    if values.len() < 2 {
        Direction::Flat
    } else {
        let mid = values.len() as int / 2;
        movement(mean_of(values.take(mid)), mean_of(values.skip(mid)), eps)
    }
}

/// The change of a counter, unless it was reset.
pub open spec fn rate_of(values: Seq<Double>) -> Option<Double> {
    if values.len() < 2 {
        None
    } else {
        let cur = values.last();
        let prev = values[values.len() - 2];
        if prev.less(cur) || prev.equals(cur) {
            Some(sum(cur, negated(prev)))
        } else {
            None
        }
    }
}

/// The newest of the values moved by more than noise.
pub open spec fn has_moved(values: Seq<Double>, eps: Double) -> bool {
    values.len() >= 2 && ({
        let cur = values.last();
        let prev = values[values.len() - 2];
        noise_level(prev, eps).less(absolute(sum(cur, negated(prev))))
    })
}

/// The mean of numbers; zero of none.
fn mean(values: &[Double]) -> (r: Double)
    ensures
        r == mean_of(values@),
{
    if values.len() == 0 {
        return Double::from_u64(0);
    }
    total_of(values).over(Double::from_u64(values.len() as u64))
}

/// The change that counts as one.
fn noise_of(prev: Double, eps: Double) -> (r: Double)
    ensures
        r == noise_level(prev, eps),
{
    prev.abs().times(eps).max(ratio_of(1, 1_000_000_000))
}

/// Which way a value moved from `prev` to `cur`.
fn classify(prev: Double, cur: Double, eps: Double) -> (r: Direction)
    ensures
        r == movement(prev, cur, eps),
{
    let delta = cur.minus(prev);
    let level = noise_of(prev, eps);
    if level.is_less(delta) {
        Direction::Up
    } else if delta.is_less(level.negate()) {
        Direction::Down
    } else {
        Direction::Flat
    }
}

/// A metric to watch.
#[derive(Debug)]
pub struct MetricSpec {
    pub name: String,
    pub label: String,
    pub polarity: Polarity,
    /// The value that alerts when it is crossed.
    pub threshold: Option<Double>,
    pub kind: MetricKind,
    pub category: MetricCategory,
}

/// What a `MetricSpec` says.
#[verifier::ext_equal]
pub struct SpecView {
    pub name: Seq<char>,
    pub label: Seq<char>,
    pub polarity: Polarity,
    pub threshold: Option<Double>,
    pub kind: MetricKind,
    pub category: MetricCategory,
}

impl DeepView for MetricSpec {
    type V = SpecView;

    open spec fn deep_view(&self) -> SpecView {
        SpecView {
            name: self.name@,
            label: self.label@,
            polarity: self.polarity,
            threshold: self.threshold,
            kind: self.kind,
            category: self.category,
        }
    }
}

/// The built-in watch list as specs.
pub open spec fn default_list() -> Seq<SpecView> {
    curated().map_values(
        |c: (&'static str, &'static str, Polarity, MetricKind, MetricCategory)|
            SpecView {
                name: c.0@,
                label: c.1@,
                polarity: c.2,
                threshold: None,
                kind: c.3,
                category: c.4,
            },
    )
}

/// The built-in watch list as specs, without thresholds.
pub fn default_specs() -> (r: Vec<MetricSpec>)
    ensures
        r.deep_view() == default_list(),
{
    let list = curated_series();
    let mut r: Vec<MetricSpec> = Vec::new();
    for i in 0..list.len()
        invariant
            list@ == curated(),
            r.deep_view() =~= default_list().take(i as int),
    {
        let c = list[i];
        let e = MetricSpec {
            name: copy_of(c.0),
            label: copy_of(c.1),
            polarity: c.2,
            threshold: None,
            kind: c.3,
            category: c.4,
        };
        let ghost before = r.deep_view();
        let ghost view = e.deep_view();
        r.push(e);
        proof {
            assert(r.deep_view() =~= before.push(view));
            assert(view == default_list()[i as int]);
            assert(default_list().take(i + 1) =~= default_list().take(i as int).push(view));
        }
    }
    assert(default_list().take(default_list().len() as int) =~= default_list());
    r
}

/// A configured watch entry as a spec: without a label the name is the label.
pub open spec fn watch_view(w: WatchConfig) -> SpecView {
    SpecView {
        name: w.name@,
        label: match w.label {
            Some(l) => l@,
            None => w.name@,
        },
        polarity: w.polarity,
        threshold: w.threshold,
        kind: w.kind,
        category: w.category,
    }
}

/// The configured watch list as specs.
pub fn watch_specs(config: &MetricsConfig) -> (r: Vec<MetricSpec>)
    ensures
        r.deep_view() == config.watch@.map_values(|w: WatchConfig| watch_view(w)),
{
    let mut r: Vec<MetricSpec> = Vec::new();
    let ghost f = |w: WatchConfig| watch_view(w);
    for i in 0..config.watch.len()
        invariant
            f == (|w: WatchConfig| watch_view(w)),
            r.deep_view() =~= config.watch@.take(i as int).map_values(f),
    {
        let w = &config.watch[i];
        let label = match &w.label {
            Some(l) => copy_of(l.as_str()),
            None => copy_of(w.name.as_str()),
        };
        let e = MetricSpec {
            name: copy_of(w.name.as_str()),
            label,
            polarity: w.polarity,
            threshold: w.threshold,
            kind: w.kind,
            category: w.category,
        };
        let ghost before = r.deep_view();
        let ghost view = e.deep_view();
        r.push(e);
        proof {
            assert(r.deep_view() =~= before.push(view));
            assert(view == watch_view(config.watch@[i as int]));
            assert(config.watch@.take(i + 1).map_values(f) =~= config.watch@.take(
                i as int,
            ).map_values(f).push(view));
        }
    }
    assert(config.watch@.take(config.watch@.len() as int) =~= config.watch@);
    r
}

/// The histories of one pod's metrics, by metric name.
#[derive(Debug)]
pub struct MetricHistory {
    pub series: Vec<(String, Series)>,
}

impl MetricHistory {
    /// Every metric has one history.
    pub open spec fn wf(self) -> bool {
        distinct_names(self.series@)
    }

    /// The values kept for the metric `name`.
    pub open spec fn kept(self, name: Seq<char>) -> Seq<Double> {
        match lookup(self.series@, name) {
            Some(s) => s.values@,
            None => Seq::empty(),
        }
    }
}

/// `values` after one more scrape: for each spec with this name that the scrape
/// has a value for, that value is added.
pub open spec fn after_scrape(
    values: Seq<Double>,
    name: Seq<char>,
    specs: Seq<SpecView>,
    samples: Seq<SampleView>,
    window: int,
) -> Seq<Double>
    decreases specs.len(),
{
    if specs.len() == 0 {
        values
    } else {
        let before = after_scrape(values, name, specs.drop_last(), samples, window);
        match aggregated(samples, specs.last().name) {
            Some(v) if specs.last().name == name => recent(before.push(v), window),
            _ => before,
        }
    }
}

/// At least one.
pub open spec fn positive(n: int) -> int {
    if n > 0 {
        n
    } else {
        1
    }
}

impl Default for MetricHistory {
    fn default() -> (r: MetricHistory)
        ensures
            r.wf(),
            r.series@.len() == 0,
    {
        MetricHistory { series: Vec::new() }
    }
}

impl MetricHistory {
    /// Add one value to the history of the metric `name`.
    fn push(&mut self, name: &str, value: Double, window: usize)
        requires
            old(self).wf(),
        ensures
            final(self).wf(),
            forall|n: Seq<char>| #[trigger]
                final(self).kept(n) == (if n == name@ {
                    recent(old(self).kept(n).push(value), positive(window as int))
                } else {
                    old(self).kept(n)
                }),
    {
        let ghost given = self.series@;
        let at = position_of(&self.series, name);
        if at < self.series.len() {
            let (key, mut s) = self.series.remove(at);
            let ghost old_values = s.values@;
            s.push(value, window);
            let ghost new = s;
            let ghost k = key;
            self.series.insert(at, (key, s));
            proof {
                assert(self.series@ =~= given.update(at as int, (given[at as int].0, new)));
                assert forall|n: Seq<char>| #[trigger]
                    self.kept(n) == (if n == name@ {
                        recent(old(self).kept(n).push(value), positive(window as int))
                    } else {
                        old(self).kept(n)
                    }) by {
                    lemma_lookup_replaced(given, at as int, new, n);
                }
                lemma_lookup_replaced(given, at as int, new, name@);
            }
        } else {
            let mut s = Series::default();
            s.push(value, window);
            let e = (copy_of(name), s);
            let ghost added = e;
            self.series.push(e);
            proof {
                assert forall|n: Seq<char>| #[trigger]
                    self.kept(n) == (if n == name@ {
                        recent(old(self).kept(n).push(value), positive(window as int))
                    } else {
                        old(self).kept(n)
                    }) by {
                    lemma_lookup_added(given, added, n);
                    if n == name@ {
                        assert(Seq::<Double>::empty().push(value) =~= seq![value]);
                        assert(old(self).kept(n) =~= Seq::empty());
                    }
                }
                lemma_lookup_added(given, added, name@);
            }
        }
    }

    /// Take a scrape in.
    pub fn update(&mut self, samples: &Vec<Sample>, specs: &Vec<MetricSpec>, window: usize)
        requires
            old(self).wf(),
        ensures
            final(self).wf(),
            forall|n: Seq<char>| #[trigger]
                final(self).kept(n) == after_scrape(
                    old(self).kept(n),
                    n,
                    specs.deep_view(),
                    samples.deep_view(),
                    positive(window as int),
                ),
    {
        let ghost start = *self;
        let ghost all = specs.deep_view();
        for i in 0..specs.len()
            invariant
                self.wf(),
                all == specs.deep_view(),
                forall|n: Seq<char>| #[trigger]
                    self.kept(n) == after_scrape(
                        start.kept(n),
                        n,
                        all.take(i as int),
                        samples.deep_view(),
                        positive(window as int),
                    ),
        {
            proof {
                assert(all.take(i + 1).drop_last() =~= all.take(i as int));
                assert(all.take(i + 1).last() == specs@[i as int].deep_view());
            }
            if let Some(v) = aggregate_value(samples, specs[i].name.as_str()) {
                self.push(specs[i].name.as_str(), v, window);
            }
        }
        assert(all.take(all.len() as int) =~= all);
    }

    /// The history of the metric `name`, where there is one.
    pub fn series_for(&self, name: &str) -> (r: Option<&Series>)
        ensures
            match r {
                Some(s) => lookup(self.series@, name@) == Some(*s),
                None => lookup(self.series@, name@) is None,
            },
    {
        get(self.series.as_slice(), name)
    }
}

// ── Verdicts ─────────────────────────────────────────────────────────────────

/// The verdict on one watched metric.
#[derive(Debug)]
pub struct MetricVerdict {
    pub label: String,
    pub value: Double,
    pub instant: Direction,
    pub rolling: Direction,
    /// The movement is in the bad direction.
    pub worsening: bool,
    /// The movement is in the good direction.
    pub improving: bool,
    /// The value is on the wrong side of its threshold.
    pub breached: bool,
    /// The value is a change per scrape.
    pub is_rate: bool,
    pub category: MetricCategory,
    pub changed: bool,
    /// A metric that should be high is at zero.
    pub stalled: bool,
    /// The scrape had a value at all.
    pub present: bool,
}

/// What a `MetricVerdict` says.
#[verifier::ext_equal]
pub struct VerdictView {
    pub label: Seq<char>,
    pub value: Double,
    pub instant: Direction,
    pub rolling: Direction,
    pub worsening: bool,
    pub improving: bool,
    pub breached: bool,
    pub is_rate: bool,
    pub category: MetricCategory,
    pub changed: bool,
    pub stalled: bool,
    pub present: bool,
}

impl DeepView for MetricVerdict {
    type V = VerdictView;

    open spec fn deep_view(&self) -> VerdictView {
        VerdictView {
            label: self.label@,
            value: self.value,
            instant: self.instant,
            rolling: self.rolling,
            worsening: self.worsening,
            improving: self.improving,
            breached: self.breached,
            is_rate: self.is_rate,
            category: self.category,
            changed: self.changed,
            stalled: self.stalled,
            present: self.present,
        }
    }
}

/// A move in direction `d` is bad.
pub open spec fn bad_move(d: Direction, p: Polarity) -> bool {
    (d == Direction::Up && p == Polarity::LowerBetter) || (d == Direction::Down && p
        == Polarity::HigherBetter)
}

/// A move in direction `d` is good.
pub open spec fn good_move(d: Direction, p: Polarity) -> bool {
    (d == Direction::Down && p == Polarity::LowerBetter) || (d == Direction::Up && p
        == Polarity::HigherBetter)
}

/// The value is on the wrong side of its threshold.
pub open spec fn crossed(value: Double, threshold: Option<Double>, p: Polarity) -> bool {
    match threshold {
        Some(t) => match p {
            Polarity::LowerBetter => t.less(value),
            Polarity::HigherBetter => value.less(t),
            Polarity::Neutral => false,
        },
        None => false,
    }
}

fn is_worsening(d: Direction, p: Polarity) -> (r: bool)
    ensures
        r == bad_move(d, p),
{
    matches!((d, p), (Direction::Up, Polarity::LowerBetter) | (Direction::Down, Polarity::HigherBetter))
}

fn is_improving(d: Direction, p: Polarity) -> (r: bool)
    ensures
        r == good_move(d, p),
{
    matches!((d, p), (Direction::Down, Polarity::LowerBetter) | (Direction::Up, Polarity::HigherBetter))
}

/// Whether the value is on the wrong side of its threshold: above it where
/// lower is better, below it where higher is better.
pub fn threshold_breached(value: Double, threshold: Option<Double>, polarity: Polarity) -> (r: bool)
    ensures
        r == crossed(value, threshold, polarity),
{
    match threshold {
        Some(t) => match polarity {
            Polarity::LowerBetter => t.is_less(value),
            Polarity::HigherBetter => value.is_less(t),
            Polarity::Neutral => false,
        },
        None => false,
    }
}

/// The verdict on a metric without any value.
pub open spec fn absent_verdict(spec: SpecView) -> VerdictView {
    VerdictView {
        label: spec.label,
        value: Double { bits: 0 },
        instant: Direction::Flat,
        rolling: Direction::Flat,
        worsening: false,
        improving: false,
        breached: false,
        is_rate: spec.kind == MetricKind::Counter,
        category: spec.category,
        changed: false,
        stalled: false,
        present: false,
    }
}

/// The value that is shown: a counter's change, or 0 where it has none yet, and
/// a gauge's newest value.
pub open spec fn shown_value(spec: SpecView, kept: Seq<Double>) -> Double {
    if spec.kind == MetricKind::Counter {
        match rate_of(kept) {
            Some(r) => r,
            None => Double { bits: 0 },
        }
    } else {
        kept.last()
    }
}

/// The verdict on a metric with the given kept values.
pub open spec fn verdict_on(spec: SpecView, kept: Seq<Double>, eps: Double) -> VerdictView {
    if kept.len() == 0 {
        absent_verdict(spec)
    } else {
        let shown = shown_value(spec, kept);
        let rolling = rolling_move(kept, eps);
        VerdictView {
            label: spec.label,
            value: shown,
            instant: instant_move(kept, eps),
            rolling,
            worsening: bad_move(rolling, spec.polarity),
            improving: good_move(rolling, spec.polarity),
            breached: crossed(shown, spec.threshold, spec.polarity),
            is_rate: spec.kind == MetricKind::Counter,
            category: spec.category,
            changed: has_moved(kept, eps),
            stalled: spec.polarity == Polarity::HigherBetter && shown.zero(),
            present: true,
        }
    }
}

/// How urgent a verdict is: 0 is the most.
pub open spec fn urgency(v: VerdictView) -> int {
    if !v.present {
        4
    } else if v.breached {
        0
    } else if v.worsening || v.stalled {
        1
    } else if v.improving {
        3
    } else {
        2
    }
}

/// Verdict `a` comes before verdict `b`.
pub open spec fn more_urgent(a: VerdictView, b: VerdictView) -> bool {
    urgency(a) < urgency(b)
}

fn rank(v: &MetricVerdict) -> (r: u8)
    ensures
        r == urgency(v.deep_view()),
{
    if !v.present {
        4
    } else if v.breached {
        0
    } else if v.worsening || v.stalled {
        1
    } else if v.improving {
        3
    } else {
        2
    }
}

fn ranks_before(a: &MetricVerdict, b: &MetricVerdict) -> (r: bool)
    ensures
        r == more_urgent(a.deep_view(), b.deep_view()),
{
    rank(a) < rank(b)
}

/// The verdict on a metric without any value.
fn absent(spec: &MetricSpec) -> (r: MetricVerdict)
    ensures
        r.deep_view() == absent_verdict(spec.deep_view()),
{
    MetricVerdict {
        label: copy_of(spec.label.as_str()),
        value: Double { bits: 0 },
        instant: Direction::Flat,
        rolling: Direction::Flat,
        worsening: false,
        improving: false,
        breached: false,
        is_rate: spec.kind == MetricKind::Counter,
        category: spec.category,
        changed: false,
        stalled: false,
        present: false,
    }
}

/// The verdict on a metric with a history.
fn judge(spec: &MetricSpec, series: &Series, eps: Double) -> (r: MetricVerdict)
    ensures
        r.deep_view() == verdict_on(spec.deep_view(), series.values@, eps),
{
    let value = match series.current() {
        Some(v) => v,
        None => {
            return absent(spec);
        },
    };
    let is_rate = spec.kind == MetricKind::Counter;
    let shown = if is_rate {
        match series.counter_rate() {
            Some(rate) => rate,
            None => Double { bits: 0 },
        }
    } else {
        value
    };
    let rolling = series.rolling_direction(eps);
    MetricVerdict {
        label: copy_of(spec.label.as_str()),
        value: shown,
        instant: series.instant_direction(eps),
        rolling,
        worsening: is_worsening(rolling, spec.polarity),
        improving: is_improving(rolling, spec.polarity),
        breached: threshold_breached(shown, spec.threshold, spec.polarity),
        is_rate,
        category: spec.category,
        changed: series.moved(eps),
        stalled: spec.polarity == Polarity::HigherBetter && shown.is_zero(),
        present: true,
    }
}

/// The verdicts on the watched metrics before they are ranked.
pub open spec fn unranked_verdicts(
    history: MetricHistory,
    specs: Seq<SpecView>,
    eps: Double,
) -> Seq<VerdictView> {
    Seq::new(specs.len(), |i: int| verdict_on(specs[i], history.kept(specs[i].name), eps))
}

/// The ranked verdicts on the watched metrics.
pub open spec fn ranked_verdicts(
    history: MetricHistory,
    specs: Seq<SpecView>,
    eps: Double,
) -> Seq<VerdictView> {
    sorted(
        unranked_verdicts(history, specs, eps),
        |a: VerdictView, b: VerdictView| more_urgent(a, b),
    )
}

impl MetricHistory {
    /// One verdict for each watched metric, the most urgent first and metrics
    /// of equal urgency in the order of `specs`. A change of less than the
    /// fraction `eps` counts as none.
    pub fn verdicts(&self, specs: &Vec<MetricSpec>, eps: Double) -> (r: Vec<MetricVerdict>)
        ensures
            r.deep_view() == ranked_verdicts(*self, specs.deep_view(), eps),
    {
        let mut out: Vec<MetricVerdict> = Vec::new();
        let ghost all = specs.deep_view();
        let ghost want = unranked_verdicts(*self, all, eps);
        for i in 0..specs.len()
            invariant
                all == specs.deep_view(),
                want == unranked_verdicts(*self, all, eps),
                out.deep_view() =~= want.take(i as int),
        {
            let v = match self.series_for(specs[i].name.as_str()) {
                Some(s) => judge(&specs[i], s, eps),
                None => absent(&specs[i]),
            };
            let ghost before = out.deep_view();
            let ghost view = v.deep_view();
            out.push(v);
            proof {
                assert(all[i as int] == specs@[i as int].deep_view());
                assert(out.deep_view() =~= before.push(view));
                assert(want.take(i + 1) =~= want.take(i as int).push(want[i as int]));
            }
        }
        assert(want.take(want.len() as int) =~= want);
        let ghost given = out@;
        let ghost lt = |a: MetricVerdict, b: MetricVerdict|
            more_urgent(a.deep_view(), b.deep_view());
        let ghost lv = |a: VerdictView, b: VerdictView| more_urgent(a, b);
        let ghost view = |a: MetricVerdict| a.deep_view();
        let r = sort_by(out, ranks_before, Ghost(lt));
        proof {
            lemma_sorted_map(given, view, lt, lv);
            assert(given.map_values(view) =~= want);
            assert(r.deep_view() =~= r@.map_values(view));
        }
        r
    }
}

// ── Summary line ─────────────────────────────────────────────────────────────

/// The arrow for a metric that moved.
pub open spec fn arrow_of(d: Direction) -> Seq<char> {
    match d {
        Direction::Up => "↑"@,
        Direction::Down => "↓"@,
        Direction::Flat => Seq::empty(),
    }
}

/// The mark behind a metric's value.
pub open spec fn mark_of(v: VerdictView) -> Seq<char> {
    if v.breached {
        " ‼"@
    } else if v.stalled {
        " ⊘"@
    } else if v.worsening {
        " ⚠"@
    } else if v.improving {
        " ✓"@
    } else {
        Seq::empty()
    }
}

/// One metric in the summary line.
pub open spec fn verdict_text(v: VerdictView) -> Seq<char> {
    if !v.present {
        seq![' '] + v.label + "=(no data)"@
    } else {
        seq![' '] + v.label + seq!['='] + whole_text(v.value) + (if v.is_rate {
            "/s"@
        } else {
            Seq::empty()
        }) + (if v.changed {
            arrow_of(v.rolling)
        } else {
            Seq::empty()
        }) + mark_of(v)
    }
}

/// The arrow for a metric that moved.
pub fn arrow(d: Direction) -> (r: &'static str)
    ensures
        r@ == arrow_of(d),
{
    match d {
        Direction::Up => "↑",
        Direction::Down => "↓",
        Direction::Flat => empty_text(),
    }
}

/// The mark behind a metric's value.
fn mark(v: &MetricVerdict) -> (r: &'static str)
    ensures
        r@ == mark_of(v.deep_view()),
{
    if v.breached {
        " ‼"
    } else if v.stalled {
        " ⊘"
    } else if v.worsening {
        " ⚠"
    } else if v.improving {
        " ✓"
    } else {
        empty_text()
    }
}

/// One metric in the summary line.
fn verdict_line(v: &MetricVerdict) -> (r: String)
    ensures
        r@ == verdict_text(v.deep_view()),
{
    let mut r = String::new();
    r.push(' ');
    r.append(v.label.as_str());
    assert(r@ =~= seq![' '] + v.label@);
    if !v.present {
        r.append("=(no data)");
        return r;
    }
    r.push('=');
    assert(r@ =~= seq![' '] + v.label@ + seq!['=']);
    r.append(v.value.whole().as_str());
    r.append(if v.is_rate { "/s" } else { empty_text() });
    r.append(if v.changed { arrow(v.rolling) } else { empty_text() });
    r.append(mark(v));
    r
}

/// A one-line summary of a pod's metrics.
pub open spec fn summary_text(pod: Seq<char>, verdicts: Seq<VerdictView>) -> Seq<char> {
    "metrics["@ + pod + "]:"@ + glued(verdicts.map_values(|v: VerdictView| verdict_text(v)))
}

/// A one-line summary of a pod's metrics.
pub fn format_summary(pod: &str, verdicts: &Vec<MetricVerdict>) -> (r: String)
    ensures
        r@ == summary_text(pod@, verdicts.deep_view()),
{
    let mut r = copy_of("metrics[");
    r.append(pod);
    r.append("]:");
    let ghost head = r@;
    let ghost all = verdicts.deep_view();
    let ghost f = |v: VerdictView| verdict_text(v);
    assert(all.take(0).map_values(f) =~= Seq::empty());
    assert(head + Seq::<char>::empty() =~= head);
    for i in 0..verdicts.len()
        invariant
            all == verdicts.deep_view(),
            f == (|v: VerdictView| verdict_text(v)),
            r@ == head + glued(all.take(i as int).map_values(f)),
    {
        r.append(verdict_line(&verdicts[i]).as_str());
        proof {
            let done = all.take(i as int).map_values(f);
            let x = verdict_text(all[i as int]);
            assert(all.take(i + 1).map_values(f) =~= done.push(x));
            lemma_glued_push(done, x);
            assert(head + glued(done) + x =~= head + (glued(done) + x));
        }
    }
    assert(all.take(all.len() as int) =~= all);
    r
}

// ── Tracker ──────────────────────────────────────────────────────────────────

/// The histories of all pods, and what is watched.
#[derive(Debug)]
pub struct MetricsTracker {
    /// Histories by pod name.
    pub per_pod: Vec<(String, MetricHistory)>,
    /// What is traced of each pod's connections, by pod name.
    pub traces: Vec<(String, PodTrace)>,
    /// Values kept for each metric.
    pub window: usize,
    pub specs: Vec<MetricSpec>,
}

impl MetricsTracker {
    /// Every pod has one history and one trace, every history is in order, and the
    /// window and the watch list are not empty.
    pub open spec fn wf(self) -> bool {
        &&& distinct_names(self.per_pod@)
        &&& distinct_names(self.traces@)
        &&& forall|i: int| 0 <= i < self.per_pod@.len() ==> (#[trigger] self.per_pod@[i]).1.wf()
        &&& self.window >= 1
        &&& self.specs@.len() > 0
    }

    /// The values kept for the metric `name` of `pod`.
    pub open spec fn kept(self, pod: Seq<char>, name: Seq<char>) -> Seq<Double> {
        match lookup(self.per_pod@, pod) {
            Some(h) => h.kept(name),
            None => Seq::empty(),
        }
    }

    /// What is traced of the connections of `pod`.
    pub open spec fn trace(self, pod: Seq<char>) -> TraceView {
        match lookup(self.traces@, pod) {
            Some(t) => t.deep_view(),
            None => no_trace(),
        }
    }

    /// A tracker for the given watch list; an empty list stands for the built-in
    /// one, and at least one value is kept.
    pub fn new(window: usize, specs: Vec<MetricSpec>) -> (r: MetricsTracker)
        ensures
            r.wf(),
            r.per_pod@.len() == 0,
            r.traces@.len() == 0,
            r.window == positive(window as int),
            specs@.len() > 0 ==> r.specs == specs,
            specs@.len() == 0 ==> r.specs.deep_view() == default_list(),
    {
        let specs = if specs.len() == 0 {
            default_specs()
        } else {
            specs
        };
        assert(specs@.len() > 0) by {
            assert(default_list().len() == curated().len());
            assert(specs.deep_view().len() == specs@.len());
        }
        MetricsTracker {
            per_pod: Vec::new(),
            traces: Vec::new(),
            window: if window > 0 {
                window
            } else {
                1
            },
            specs,
        }
    }

    /// Take the samples of one pod in.
    fn take_in(&mut self, pod: &str, samples: &Vec<Sample>)
        requires
            old(self).wf(),
        ensures
            final(self).wf(),
            final(self).window == old(self).window,
            final(self).specs == old(self).specs,
            final(self).traces == old(self).traces,
            lookup(final(self).per_pod@, pod@) is Some,
            forall|p: Seq<char>, n: Seq<char>| #[trigger]
                final(self).kept(p, n) == (if p == pod@ {
                    after_scrape(
                        old(self).kept(p, n),
                        n,
                        old(self).specs.deep_view(),
                        samples.deep_view(),
                        old(self).window as int,
                    )
                } else {
                    old(self).kept(p, n)
                }),
    {
        let ghost given = self.per_pod@;
        let ghost start = *self;
        let at = position_of(&self.per_pod, pod);
        if at < self.per_pod.len() {
            let (key, mut h) = self.per_pod.remove(at);
            h.update(samples, &self.specs, self.window);
            let ghost new = h;
            self.per_pod.insert(at, (key, h));
            proof {
                assert(self.per_pod@ =~= given.update(at as int, (given[at as int].0, new)));
                lemma_lookup_replaced(given, at as int, new, pod@);
                assert forall|p: Seq<char>, n: Seq<char>| #[trigger]
                    self.kept(p, n) == (if p == pod@ {
                        after_scrape(
                            start.kept(p, n),
                            n,
                            start.specs.deep_view(),
                            samples.deep_view(),
                            start.window as int,
                        )
                    } else {
                        start.kept(p, n)
                    }) by {
                    lemma_lookup_replaced(given, at as int, new, p);
                }
                assert forall|i: int| 0 <= i < self.per_pod@.len() implies (
                #[trigger] self.per_pod@[i]).1.wf() by {
                    if i != at {
                        assert(given[i].1.wf());
                    }
                }
            }
        } else {
            let mut h = MetricHistory::default();
            let ghost none = h;
            h.update(samples, &self.specs, self.window);
            let e = (copy_of(pod), h);
            let ghost added = e;
            self.per_pod.push(e);
            proof {
                lemma_lookup_added(given, added, pod@);
                assert forall|p: Seq<char>, n: Seq<char>| #[trigger]
                    self.kept(p, n) == (if p == pod@ {
                        after_scrape(
                            start.kept(p, n),
                            n,
                            start.specs.deep_view(),
                            samples.deep_view(),
                            start.window as int,
                        )
                    } else {
                        start.kept(p, n)
                    }) by {
                    lemma_lookup_added(given, added, p);
                    if p == pod@ {
                        assert(none.kept(n) =~= Seq::empty());
                    }
                }
                assert forall|i: int| 0 <= i < self.per_pod@.len() implies (
                #[trigger] self.per_pod@[i]).1.wf() by {
                    if i < given.len() {
                        assert(given[i].1.wf());
                    }
                }
            }
        }
    }

    /// Take the samples of one pod into its trace.
    fn trace_in(&mut self, pod: &str, samples: &Vec<Sample>)
        requires
            old(self).wf(),
        ensures
            final(self).wf(),
            final(self).window == old(self).window,
            final(self).specs == old(self).specs,
            final(self).per_pod == old(self).per_pod,
            forall|p: Seq<char>| #[trigger]
                final(self).trace(p) == (if p == pod@ {
                    traced(old(self).trace(p), samples.deep_view(), old(self).window as int)
                } else {
                    old(self).trace(p)
                }),
    {
        let ghost given = self.traces@;
        let ghost start = *self;
        let at = position_of(&self.traces, pod);
        if at < self.traces.len() {
            let (key, mut t) = self.traces.remove(at);
            t.take_in(samples, self.window);
            let ghost new = t;
            self.traces.insert(at, (key, t));
            proof {
                assert(self.traces@ =~= given.update(at as int, (given[at as int].0, new)));
                lemma_lookup_replaced(given, at as int, new, pod@);
                assert forall|p: Seq<char>| #[trigger]
                    self.trace(p) == (if p == pod@ {
                        traced(start.trace(p), samples.deep_view(), start.window as int)
                    } else {
                        start.trace(p)
                    }) by {
                    lemma_lookup_replaced(given, at as int, new, p);
                }
            }
        } else {
            let mut t = PodTrace::default();
            t.take_in(samples, self.window);
            let e = (copy_of(pod), t);
            let ghost added = e;
            self.traces.push(e);
            proof {
                lemma_lookup_added(given, added, pod@);
                assert forall|p: Seq<char>| #[trigger]
                    self.trace(p) == (if p == pod@ {
                        traced(start.trace(p), samples.deep_view(), start.window as int)
                    } else {
                        start.trace(p)
                    }) by {
                    lemma_lookup_added(given, added, p);
                }
            }
        }
    }

    /// How stable the connections of one pod are; of a pod that was never seen
    /// nothing is known, and everything is zero.
    pub fn stability_for(&self, pod: &str) -> (r: PodStability)
        ensures
            r == judged(self.trace(pod@)),
    {
        match get(self.traces.as_slice(), pod) {
            Some(t) => t.judge(),
            None => PodTrace::default().judge(),
        }
    }

    /// Take the text that a pod exposes into its history, and sum it up in a
    /// line. A change of less than the fraction `eps` counts as none.
    pub fn observe(&mut self, pod: &str, metrics_text: &str, eps: Double) -> (r: String)
        requires
            old(self).wf(),
        ensures
            final(self).wf(),
            final(self).window == old(self).window,
            final(self).specs == old(self).specs,
            forall|p: Seq<char>, n: Seq<char>| #[trigger]
                final(self).kept(p, n) == (if p == pod@ {
                    after_scrape(
                        old(self).kept(p, n),
                        n,
                        old(self).specs.deep_view(),
                        scraped(metrics_text@),
                        old(self).window as int,
                    )
                } else {
                    old(self).kept(p, n)
                }),
            forall|p: Seq<char>| #[trigger]
                final(self).trace(p) == (if p == pod@ {
                    traced(old(self).trace(p), scraped(metrics_text@), old(self).window as int)
                } else {
                    old(self).trace(p)
                }),
            lookup(final(self).per_pod@, pod@) is Some,
            r@ == summary_text(
                pod@,
                ranked_verdicts(
                    lookup(final(self).per_pod@, pod@)->0,
                    old(self).specs.deep_view(),
                    eps,
                ),
            ),
    {
        let samples = parse_prometheus(metrics_text);
        let ghost start = *self;
        self.take_in(pod, &samples);
        let ghost kept = *self;
        self.trace_in(pod, &samples);
        proof {
            assert forall|p: Seq<char>, n: Seq<char>| #[trigger] self.kept(p, n) == kept.kept(p, n) by {
            }
            assert forall|p: Seq<char>| start.trace(p) == #[trigger] kept.trace(p) by {
            }
        }
        let verdicts = self.verdicts_for(pod, eps);
        format_summary(pod, &verdicts)
    }

    /// The ranked verdicts on one pod; none for a pod that was never seen.
    pub fn verdicts_for(&self, pod: &str, eps: Double) -> (r: Vec<MetricVerdict>)
        ensures
            r.deep_view() == (match lookup(self.per_pod@, pod@) {
                Some(h) => ranked_verdicts(h, self.specs.deep_view(), eps),
                None => Seq::empty(),
            }),
    {
        match get(self.per_pod.as_slice(), pod) {
            Some(h) => h.verdicts(&self.specs, eps),
            None => {
                let r: Vec<MetricVerdict> = Vec::new();
                assert(r.deep_view() =~= Seq::empty());
                r
            },
        }
    }
}

// ── Capture ──────────────────────────────────────────────────────────────────

/// `c` inside a JSON string.
pub open spec fn escaped_char(c: char) -> Seq<char> {
    if c == '"' {
        seq!['\\', '"']
    } else if c == '\\' {
        seq!['\\', '\\']
    } else if c == '\n' {
        seq!['\\', 'n']
    } else if c == '\r' {
        seq!['\\', 'r']
    } else if c == '\t' {
        seq!['\\', 't']
    } else {
        seq![c]
    }
}

/// `s` inside a JSON string.
pub open spec fn escaped(s: Seq<char>) -> Seq<char>
    decreases s.len(),
{
    if s.len() == 0 {
        s
    } else {
        escaped(s.drop_last()) + escaped_char(s.last())
    }
}

/// `s` as a JSON string.
pub open spec fn quoted(s: Seq<char>) -> Seq<char> {
    seq!['"'] + escaped(s) + seq!['"']
}

/// `s` as a JSON string: quotes, backslashes, line ends and tabs are escaped.
pub fn json_string(s: &str) -> (r: String)
    ensures
        r@ == quoted(s@),
{
    let v = chars_of(s);
    let mut r = String::new();
    r.push('"');
    assert(v@.take(0) =~= Seq::empty());
    assert(r@ =~= seq!['"'] + escaped(v@.take(0)));
    for i in 0..v.len()
        invariant
            r@ == seq!['"'] + escaped(v@.take(i as int)),
    {
        let c = v[i];
        let ghost before = r@;
        proof {
            assert(v@.take(i + 1).drop_last() =~= v@.take(i as int));
            assert(v@.take(i + 1).last() == c);
        }
        if c == '"' {
            r.push('\\');
            r.push('"');
        } else if c == '\\' {
            r.push('\\');
            r.push('\\');
        } else if c == '\n' {
            r.push('\\');
            r.push('n');
        } else if c == '\r' {
            r.push('\\');
            r.push('r');
        } else if c == '\t' {
            r.push('\\');
            r.push('t');
        } else {
            r.push(c);
        }
        assert(r@ =~= before + escaped_char(c));
        assert(r@ =~= seq!['"'] + escaped(v@.take(i + 1)));
    }
    r.push('"');
    assert(v@.take(v@.len() as int) =~= v@);
    assert(r@ =~= quoted(s@));
    r
}

/// The series and the value of one finite sample; `text` is how the value is
/// written.
pub open spec fn captured_pair(s: Sample, text: Seq<char>) -> Option<Pair> {
    if s.value.finite() {
        Some((series_text(s.name@, s.labels.deep_view()), text))
    } else {
        None
    }
}

/// The finite samples as pairs of series and value, in order.
pub open spec fn captured_pairs(samples: Seq<Sample>, texts: Seq<String>) -> Seq<Pair>
    decreases samples.len(),
{
    if samples.len() == 0 || texts.len() == 0 {
        Seq::empty()
    } else {
        let before = captured_pairs(samples.drop_last(), texts.drop_last());
        match captured_pair(samples.last(), texts.last()@) {
            Some(p) => before.push(p),
            None => before,
        }
    }
}

/// Pair `a` has the lesser name.
pub open spec fn name_less(a: Pair, b: Pair) -> bool {
    precedes(a.0, b.0)
}

/// A pair as a member of a JSON object.
pub open spec fn member_text(p: Pair) -> Seq<char> {
    quoted(p.0) + seq![':'] + p.1
}

/// Everything that was scraped from a pod at one moment as a JSON object: each
/// series once, with its last value, in the order of the names.
pub open spec fn capture_text(
    as_of: Seq<char>,
    pod: Seq<char>,
    samples: Seq<Sample>,
    texts: Seq<String>,
) -> Seq<char> {
    let pairs = sorted(
        with_pairs(Seq::empty(), captured_pairs(samples, texts)),
        |a: Pair, b: Pair| name_less(a, b),
    );
    "{\"as_of\":"@ + quoted(as_of) + ",\"pod\":"@ + quoted(pod) + ",\"metrics\":{"@ + joined(
        pairs.map_values(|p: Pair| member_text(p)),
        seq![','],
    ) + "}}"@
}

fn pair_name_less(a: &(String, String), b: &(String, String)) -> (r: bool)
    ensures
        r == name_less((a.0@, a.1@), (b.0@, b.1@)),
{
    is_before(a.0.as_str(), b.0.as_str())
}

/// One JSON line with everything that was scraped from a pod at one moment.
/// `texts[i]` is how the value of `samples[i]` is written; values that are not
/// finite are left out.
pub fn capture_record(as_of: &str, pod: &str, samples: &Vec<Sample>, texts: &Vec<String>) -> (r:
    String)
    requires
        samples@.len() == texts@.len(),
    ensures
        r@ == capture_text(as_of@, pod@, samples@, texts@),
{
    let mut pairs: Vec<(String, String)> = Vec::new();
    proof {
        assert(samples@.take(0) =~= Seq::empty());
        assert(pairs.deep_view() =~= Seq::empty());
    }
    for i in 0..samples.len()
        invariant
            samples@.len() == texts@.len(),
            pairs.deep_view() == with_pairs(
                Seq::empty(),
                captured_pairs(samples@.take(i as int), texts@.take(i as int)),
            ),
    {
        proof {
            assert(samples@.take(i + 1).drop_last() =~= samples@.take(i as int));
            assert(texts@.take(i + 1).drop_last() =~= texts@.take(i as int));
            let before = captured_pairs(samples@.take(i as int), texts@.take(i as int));
            match captured_pair(samples@[i as int], texts@[i as int]@) {
                Some(p) => {
                    assert(before.push(p).drop_last() =~= before);
                },
                None => {},
            }
        }
        if samples[i].value.is_finite() {
            let key = samples[i].series_key();
            pairs = put(&pairs, key.as_str(), texts[i].as_str());
        }
    }
    proof {
        assert(samples@.take(samples@.len() as int) =~= samples@);
        assert(texts@.take(texts@.len() as int) =~= texts@);
    }
    let ghost given = pairs@;
    let ghost lt = |a: (String, String), b: (String, String)|
        name_less((a.0@, a.1@), (b.0@, b.1@));
    let ghost lv = |a: Pair, b: Pair| name_less(a, b);
    let ghost view = |a: (String, String)| (a.0@, a.1@);
    let ghost unsorted = pairs.deep_view();
    let ordered = sort_by(pairs, pair_name_less, Ghost(lt));
    let ghost all = ordered.deep_view();
    proof {
        lemma_sorted_map(given, view, lt, lv);
        assert(given.map_values(view) =~= unsorted);
        assert(all =~= ordered@.map_values(view));
    }
    let mut members: Vec<String> = Vec::new();
    let ghost f = |p: Pair| member_text(p);
    for i in 0..ordered.len()
        invariant
            all == ordered.deep_view(),
            f == (|p: Pair| member_text(p)),
            members.deep_view() =~= all.take(i as int).map_values(f),
    {
        let mut m = json_string(ordered[i].0.as_str());
        m.push(':');
        m.append(ordered[i].1.as_str());
        let ghost before = members.deep_view();
        let ghost text = m@;
        members.push(m);
        proof {
            assert(all[i as int] == (ordered@[i as int].0@, ordered@[i as int].1@));
            assert(text =~= member_text(all[i as int]));
            assert(members.deep_view() =~= before.push(text));
            assert(all.take(i + 1).map_values(f) =~= all.take(i as int).map_values(f).push(text));
        }
    }
    proof {
        assert(all.take(all.len() as int) =~= all);
        reveal_strlit(",");
        assert(","@ =~= seq![',']);
    }
    let mut r = copy_of("{\"as_of\":");
    r.append(json_string(as_of).as_str());
    r.append(",\"pod\":");
    r.append(json_string(pod).as_str());
    r.append(",\"metrics\":{");
    r.append(join(&members, ",").as_str());
    r.append("}}");
    r
}

/// `pod` as part of a file name: a character stays where `keep` says so or it
/// is `-` or `_`, and becomes `_` otherwise.
pub open spec fn safe_name(pod: Seq<char>, keep: Seq<bool>) -> Seq<char> {
    Seq::new(
        pod.len(),
        |i: int|
            if keep[i] || pod[i] == '-' || pod[i] == '_' {
                pod[i]
            } else {
                '_'
            },
    )
}

/// The name of the file that a pod's captures go to, where `keep[i]` says
/// whether the i-th character of the pod's name is a letter or a digit.
pub fn capture_name(pod: &str, keep: &Vec<bool>) -> (r: String)
    requires
        keep@.len() == pod@.len(),
    ensures
        r@ == "metrics-"@ + safe_name(pod@, keep@) + ".jsonl"@,
{
    let v = chars_of(pod);
    let mut r = copy_of("metrics-");
    let ghost head = r@;
    let ghost safe = safe_name(pod@, keep@);
    for i in 0..v.len()
        invariant
            v@ == pod@,
            keep@.len() == pod@.len(),
            safe == safe_name(pod@, keep@),
            r@ =~= head + safe.take(i as int),
    {
        let c = v[i];
        if keep[i] || c == '-' || c == '_' {
            r.push(c);
        } else {
            r.push('_');
        }
        assert(safe.take(i + 1) =~= safe.take(i as int).push(safe[i as int]));
    }
    assert(safe.take(safe.len() as int) =~= safe);
    r.append(".jsonl");
    r
}

/// The name of the file that a pod's captures go to: only letters, digits, `-`
/// and `_` of the pod's name are kept.
pub fn capture_file(pod: &str) -> (r: String)
    ensures
        r@ == "metrics-"@ + safe_name(
            pod@,
            pod@.map_values(|c: char| alphanumeric(c)),
        ) + ".jsonl"@,
{
    let v = chars_of(pod);
    let mut keep: Vec<bool> = Vec::new();
    let ghost want = pod@.map_values(|c: char| alphanumeric(c));
    for i in 0..v.len()
        invariant
            v@ == pod@,
            want == pod@.map_values(|c: char| alphanumeric(c)),
            keep@ =~= want.take(i as int),
    {
        keep.push(is_alphanumeric(v[i]));
    }
    assert(keep@ =~= want);
    capture_name(pod, &keep)
}

// ── Laws ─────────────────────────────────────────────────────────────────────

/// A metric matches its own name.
pub proof fn lemma_name_matches_itself(name: Seq<char>)
    ensures
        names_match(name, name),
{
    assert(name.subrange(0, name.len() as int) =~= name);
    assert(name.skip(name.len() as int) =~= Seq::empty());
}

proof fn lemma_suffix_appended(s: Seq<char>, t: Seq<char>)
    requires
        suffixes_only(s),
        suffixes_only(t),
    ensures
        suffixes_only(s + t),
    decreases s.len(),
{
    if s.len() == 0 {
        assert(s + t =~= t);
    } else {
        reveal_strlit("_total");
        reveal_strlit("_bytes");
        reveal_strlit("_milliseconds");
        reveal_strlit("_seconds");
        reveal_strlit("_ratio");
        let n = leading_suffix(s)->0;
        lemma_suffix_appended(s.skip(n), t);
        assert((s + t).skip(n) =~= s.skip(n) + t);
        let u = s + t;
        assert(u.subrange(0, s.len() as int) =~= s);
        lemma_leading_suffix_kept(s, u);
    }
}

proof fn lemma_leading_suffix_kept(s: Seq<char>, u: Seq<char>)
    requires
        leading_suffix(s) is Some,
        s.len() <= u.len(),
        u.subrange(0, s.len() as int) == s,
    ensures
        leading_suffix(u) == leading_suffix(s),
{
    reveal_strlit("_total");
    reveal_strlit("_bytes");
    reveal_strlit("_milliseconds");
    reveal_strlit("_seconds");
    reveal_strlit("_ratio");
    let n = leading_suffix(s)->0;
    assert(n <= s.len());
    assert(s.subrange(0, n) =~= u.subrange(0, n));
    assert(s[1] == u[1] && s[2] == u[2]);
    assert forall|p: Seq<char>, k: int|
        0 <= k < p.len() && k < n && #[trigger] p[k] != s[k] implies !#[trigger] begins_with(
        u,
        p,
    ) && !begins_with(s, p) by {
        assert(u[k] == s[k]);
        if begins_with(u, p) {
            assert(u.subrange(0, p.len() as int)[k] == p[k]);
        }
        if begins_with(s, p) {
            assert(s.subrange(0, p.len() as int)[k] == p[k]);
        }
    }
    assert("_total"@[1] == 't');
    assert("_bytes"@[1] == 'b');
    assert("_milliseconds"@[1] == 'm');
    assert("_seconds"@[1] == 's');
    assert("_ratio"@[1] == 'r');
    if begins_with(s, "_total"@) {
        assert(s[1] == s.subrange(0, 6)[1]);
        assert(begins_with(u, "_total"@));
    } else if begins_with(s, "_bytes"@) {
        assert(s[1] == s.subrange(0, 6)[1]);
        assert(begins_with(u, "_bytes"@));
    } else if begins_with(s, "_milliseconds"@) {
        assert(s[1] == s.subrange(0, 13)[1]);
        assert(begins_with(u, "_milliseconds"@));
    } else if begins_with(s, "_seconds"@) {
        assert(s[1] == s.subrange(0, 8)[1]);
        assert(begins_with(u, "_seconds"@));
    } else {
        assert(s[1] == s.subrange(0, 6)[1]);
        assert(begins_with(u, "_ratio"@));
    }
}

/// A name that matches still matches with one more type or unit suffix.
pub proof fn lemma_name_matches_suffixed(
    actual: Seq<char>,
    configured: Seq<char>,
    suffix: Seq<char>,
)
    requires
        names_match(actual, configured),
        suffixes_only(suffix),
    ensures
        names_match(actual + suffix, configured),
{
    let n = configured.len() as int;
    assert((actual + suffix).subrange(0, n) =~= actual.subrange(0, n));
    assert((actual + suffix).skip(n) =~= actual.skip(n) + suffix);
    lemma_suffix_appended(actual.skip(n), suffix);
}

/// The window is never exceeded, and the newest value is always kept.
pub proof fn lemma_window(values: Seq<Double>, v: Double, window: int)
    requires
        window >= 1,
    ensures
        recent(values.push(v), window).len() <= window,
        recent(values.push(v), window).len() > 0,
        recent(values.push(v), window).last() == v,
{
}

/// The least change that counts is a positive number.
proof fn lemma_noise_positive(prev: Double, eps: Double)
    ensures
        !noise_level(prev, eps).nan(),
        noise_level(prev, eps).place() > 0,
{
    let least = ratio(1, 1_000_000_000);
    let t = two(1074);
    lemma_pow2_pos(1074);
    lemma2_to64();
    lemma2_to64_rest();
    lemma_integer_exact(1);
    lemma_integer_exact(1_000_000_000);
    assert(1 * t == t);
    assert(steps_of(0) == 0);
    lemma_pow2_adds(30, 1044);
    lemma_pow2_strictly_increases(52, 1044);
    assert(t * t >= (1_000_000_000 * t) * two(1044)) by (nonlinear_arith)
        requires
            t == 0x4000_0000 * two(1044),
            t > 0,
            two(1044) > 0,
    ;
    lemma_nearest_infinite(t * t, 1_000_000_000 * t, 1044);
    lemma_pow2_strictly_increases(1074, 1080);
    assert(t * t < (1_000_000_000 * t) * two(1080)) by (nonlinear_arith)
        requires
            t < two(1080),
            t > 0,
    ;
    lemma_nearest_bound(t * t, 1_000_000_000 * t, 1080);
    assert(least.place() > 0 && !least.nan());
}

/// A value that stays the same has not moved either way.
pub proof fn lemma_unchanged_is_flat(value: Double, eps: Double)
    requires
        value.finite(),
    ensures
        movement(value, value, eps) == Direction::Flat,
{
    lemma_noise_positive(value, eps);
    assert(sum(value, negated(value)) == (Double { bits: 0 }));
}

/// Verdicts come out by urgency, one for each watched metric.
pub proof fn lemma_verdicts_ranked(history: MetricHistory, specs: Seq<SpecView>, eps: Double)
    ensures
        ({
            let r = ranked_verdicts(history, specs, eps);
            &&& r.len() == specs.len()
            &&& forall|i: int, j: int|
                0 <= i < j < r.len() ==> urgency(#[trigger] r[i]) <= urgency(#[trigger] r[j])
        }),
{
    let lt = |a: VerdictView, b: VerdictView| more_urgent(a, b);
    let given = unranked_verdicts(history, specs, eps);
    lemma_sorted_ordered(given, lt);
    let r = sorted(given, lt);
    assert forall|i: int, j: int| 0 <= i < j < r.len() implies urgency(#[trigger] r[i]) <= urgency(
        #[trigger] r[j],
    ) by {
        assert(!lt(r[j], r[i]));
    }
}

/// A metric that was scraped is judged by the value that is shown: a gauge's newest
/// value, a counter's change since the scrape before, and zero for a counter that
/// has none yet. It is breached exactly where that value is on the wrong side of
/// the threshold, and stalled exactly where it should be high and is zero.
pub proof fn lemma_judged_by_shown_value(spec: SpecView, kept: Seq<Double>, eps: Double)
    requires
        kept.len() > 0,
    ensures
        ({
            let v = verdict_on(spec, kept, eps);
            let n = kept.len() as int;
            &&& v.present && v.label == spec.label && v.category == spec.category
            &&& v.is_rate <==> spec.kind == MetricKind::Counter
            &&& spec.kind == MetricKind::Gauge ==> v.value == kept[n - 1]
            &&& spec.kind == MetricKind::Counter && n >= 2 && (kept[n - 2].less(kept[n - 1])
                || kept[n - 2].equals(kept[n - 1])) ==> v.value == sum(
                kept[n - 1],
                negated(kept[n - 2]),
            )
            &&& spec.kind == MetricKind::Counter && (n == 1 || !(kept[n - 2].less(kept[n - 1])
                || kept[n - 2].equals(kept[n - 1]))) ==> v.value == (Double { bits: 0 })
            &&& v.breached <==> {
                ||| spec.polarity == Polarity::LowerBetter && spec.threshold is Some
                    && spec.threshold->0.less(v.value)
                ||| spec.polarity == Polarity::HigherBetter && spec.threshold is Some
                    && v.value.less(spec.threshold->0)
            }
            &&& v.stalled <==> spec.polarity == Polarity::HigherBetter && v.value.magnitude() == 0
        }),
{
}

/// Whether a metric gets worse or better goes by the way that it moves over the
/// window, and by whether it should be high or low.
pub proof fn lemma_worse_or_better(spec: SpecView, kept: Seq<Double>, eps: Double)
    requires
        kept.len() > 0,
    ensures
        ({
            let v = verdict_on(spec, kept, eps);
            &&& v.rolling == rolling_move(kept, eps) && v.instant == instant_move(kept, eps)
            &&& v.worsening <==> {
                ||| v.rolling == Direction::Up && spec.polarity == Polarity::LowerBetter
                ||| v.rolling == Direction::Down && spec.polarity == Polarity::HigherBetter
            }
            &&& v.improving <==> {
                ||| v.rolling == Direction::Down && spec.polarity == Polarity::LowerBetter
                ||| v.rolling == Direction::Up && spec.polarity == Polarity::HigherBetter
            }
            &&& !(v.worsening && v.improving)
        }),
{
}

/// A metric that the scrapes never had is shown as missing and nothing else.
pub proof fn lemma_missing_metric(spec: SpecView, eps: Double)
    ensures
        ({
            let v = verdict_on(spec, Seq::empty(), eps);
            &&& !v.present && v.label == spec.label && v.category == spec.category
            &&& !v.breached && !v.worsening && !v.improving && !v.stalled && !v.changed
            &&& v.value.magnitude() == 0
        }),
{
}

/// The order of the verdicts: breaches come first, then what gets worse or has
/// stalled, then what is flat, then what gets better, and last what is missing.
/// Every watched metric has its verdict among them.
pub proof fn lemma_ranking(history: MetricHistory, specs: Seq<SpecView>, eps: Double)
    ensures
        ({
            let r = ranked_verdicts(history, specs, eps);
            &&& r.to_multiset() == Seq::new(
                specs.len(),
                |i: int| verdict_on(specs[i], history.kept(specs[i].name), eps),
            ).to_multiset()
            &&& forall|i: int, j: int|
                #![trigger r[i], r[j]]
                0 <= i < j < r.len() ==> {
                    let (a, b) = (r[i], r[j]);
                    let bad = |v: VerdictView| v.worsening || v.stalled;
                    &&& b.present ==> a.present
                    &&& b.present && b.breached ==> a.breached
                    &&& b.present && bad(b) ==> a.breached || bad(a)
                    &&& b.present && !b.improving ==> a.breached || bad(a) || !a.improving
                }
        }),
{
    let lt = |a: VerdictView, b: VerdictView| more_urgent(a, b);
    let given = unranked_verdicts(history, specs, eps);
    lemma_sorted_ordered(given, lt);
    let r = sorted(given, lt);
    assert(given =~= Seq::new(
        specs.len(),
        |i: int| verdict_on(specs[i], history.kept(specs[i].name), eps),
    ));
    assert forall|i: int, j: int|
        #![trigger r[i], r[j]]
        0 <= i < j < r.len() implies {
        let (a, b) = (r[i], r[j]);
        let bad = |v: VerdictView| v.worsening || v.stalled;
        &&& b.present ==> a.present
        &&& b.present && b.breached ==> a.breached
        &&& b.present && bad(b) ==> a.breached || bad(a)
        &&& b.present && !b.improving ==> a.breached || bad(a) || !a.improving
    } by {
        assert(!lt(r[j], r[i]));
    }
}

/// The change of a counter of integers: what was added since the value before, and
/// nothing where it went down or has no value before.
pub proof fn lemma_counter_change(values: Seq<Double>, a: int, b: int)
    requires
        0 <= a < EXACT,
        0 <= b < EXACT,
    ensures
        ({
            let grown = values.push(of_integer(a)).push(of_integer(b));
            &&& b >= a ==> rate_of(grown) == Some(of_integer(b - a))
            &&& b < a ==> rate_of(grown) is None
            &&& rate_of(seq![of_integer(a)]) is None
            &&& rate_of(Seq::empty()) is None
        }),
{
    lemma_integer_order(a, b);
    lemma_integer_difference(b, a);
}

/// The noise level of integers is the fraction of the value before.
proof fn lemma_noise_integer(prev: int, k: int)
    requires
        -EXACT < prev < EXACT,
        0 <= k < EXACT,
        -EXACT < prev * k < EXACT,
    ensures
        ({
            let size = if prev < 0 {
                -prev
            } else {
                prev
            };
            let level = noise_level(of_integer(prev), of_integer(k));
            &&& size * k >= 1 ==> level == of_integer(size * k)
            &&& size * k == 0 ==> of_integer(0).less(level) && level.less(of_integer(1))
        }),
{
    let size = if prev < 0 {
        -prev
    } else {
        prev
    };
    assert((-prev) * k == -(prev * k)) by (nonlinear_arith);
    assert(size * k >= 0) by (nonlinear_arith)
        requires
            size >= 0,
            k >= 0,
    ;
    lemma_integer_absolute(prev);
    lemma_integer_product(size, k);
    let tiny = ratio(1, 1_000_000_000);
    lemma_tiny();
    lemma_integer_exact(size * k);
    lemma_integer_exact(1);
    lemma_integer_exact(0);
    if size * k >= 1 {
        lemma_integer_order(size * k, 1);
    } else {
        lemma_integer_order(0, 0);
    }
}

/// A billionth lies between zero and one.
proof fn lemma_tiny()
    ensures
        of_integer(0).less(ratio(1, 1_000_000_000)),
        ratio(1, 1_000_000_000).less(of_integer(1)),
        ratio(1, 1_000_000_000).finite(),
        !ratio(1, 1_000_000_000).negative(),
{
    let t = two(1074);
    let b = 1_000_000_000int;
    lemma_integer_exact(1);
    lemma_integer_exact(0);
    lemma_integer_exact(b);
    lemma2_to64();
    lemma2_to64_rest();
    lemma_pow2_pos(1074);
    lemma_pow2_pos(1000);
    lemma_pow2_pos(1043);
    lemma_pow2_adds(31, 1043);
    lemma_pow2_adds(53, 1000);
    lemma_pow2_adds(21, 1053);
    lemma_pow2_adds(1053, 20);
    lemma_pow2_strictly_increases(1073, 1074);
    lemma_pow2_strictly_increases(1000, 1043);
    assert(1 * t == t && b * t > 0);
    assert((1 * t) * t == t * t);
    assert(t * t >= 0) by (nonlinear_arith)
        requires
            t > 0,
    ;
    lemma_nearest_scaled(t, b, t);
    let m = nearest_magnitude(t, b);
    let q = ratio(1, b);
    assert(q == assembled(false, m));
    assert(0 <= t < b * two(1073)) by {
        assert(two(1073) * 2 == t) by {
            lemma_pow2_adds(1073, 1);
        }
        assert(b * two(1073) >= 2 * two(1073)) by (nonlinear_arith)
            requires
                b == 1_000_000_000,
                two(1073) >= 0,
        ;
        lemma_pow2_pos(1073);
        assert(b * two(1073) > t) by (nonlinear_arith)
            requires
                b == 1_000_000_000,
                two(1073) * 2 == t,
                two(1073) > 0,
        ;
    }
    lemma_nearest_bound(t, b, 1073);
    assert(q.finite() && !q.negative() && q.magnitude() == m);
    // A billionth of a number of steps, to within half a place.
    assert(t < (EXACT * b) * two(1000)) by (nonlinear_arith)
        requires
            t == 0x8000_0000 * two(1043),
            two(1043) == 0x800_0000_0000 * two(1000),
            b == 1_000_000_000,
            EXACT == 0x20_0000_0000_0000,
            two(1000) > 0,
    ;
    lemma_nearest_distance(t, b, 1000);
    let st = q.steps();
    assert(0 < st < t) by (nonlinear_arith)
        requires
            2 * t - b * two(1000) <= 2 * (b * st) <= 2 * t + b * two(1000),
            t == 0x8000_0000 * two(1043),
            two(1043) == 0x800_0000_0000 * two(1000),
            b == 1_000_000_000,
            two(1000) > 0,
    ;
    lemma_less_steps(q, of_integer(1));
    lemma_less_steps(of_integer(0), q);
    assert(0 * t == 0);
}

/// Which way an integer has moved: up or down by more than the given multiple of
/// the value before, and at all where that is nothing; else it is flat.
pub proof fn lemma_movement_of_integers(prev: int, cur: int, k: int)
    requires
        -EXACT < prev < EXACT,
        -EXACT < cur < EXACT,
        -EXACT < cur - prev < EXACT,
        0 <= k < EXACT,
        -EXACT < prev * k < EXACT,
    ensures
        ({
            let least = if prev < 0 {
                -prev * k
            } else {
                prev * k
            };
            let m = movement(of_integer(prev), of_integer(cur), of_integer(k));
            &&& m == Direction::Up <==> cur - prev > least
            &&& m == Direction::Down <==> prev - cur > least
            &&& m == Direction::Flat <==> cur - prev <= least && prev - cur <= least
        }),
{
    let size = if prev < 0 {
        -prev
    } else {
        prev
    };
    let delta = cur - prev;
    lemma_noise_integer(prev, k);
    lemma_integer_difference(cur, prev);
    assert((-prev) * k == -(prev * k)) by (nonlinear_arith);
    let n = size * k;
    assert(n >= 0) by (nonlinear_arith)
        requires
            size >= 0,
            k >= 0,
            n == size * k,
    ;
    let level = noise_level(of_integer(prev), of_integer(k));
    lemma_integer_exact(delta);
    lemma_integer_order(delta, 0);
    lemma_integer_order(delta, 1);
    lemma_integer_order(delta, -1);
    lemma_integer_order(0, 1);
    lemma_integer_exact(1);
    lemma_integer_exact(0);
    lemma_integer_exact(-1);
    lemma_integer_negated(1);
    if n >= 1 {
        lemma_integer_exact(n);
        lemma_integer_negated(n);
        lemma_integer_order(n, delta);
        lemma_integer_order(delta, -n);
    } else {
        assert(of_integer(1).place() == -of_integer(-1).place());
    }
}

/// The newest value counts as changed where it differs from the one before by more
/// than the given multiple of that.
pub proof fn lemma_changed_integers(values: Seq<Double>, prev: int, cur: int, k: int)
    requires
        -EXACT < prev < EXACT,
        -EXACT < cur < EXACT,
        -EXACT < cur - prev < EXACT,
        0 <= k < EXACT,
        -EXACT < prev * k < EXACT,
    ensures
        ({
            let least = if prev < 0 {
                -prev * k
            } else {
                prev * k
            };
            let kept = values.push(of_integer(prev)).push(of_integer(cur));
            &&& has_moved(kept, of_integer(k)) <==> cur - prev > least || prev - cur > least
            &&& instant_move(kept, of_integer(k)) == movement(
                of_integer(prev),
                of_integer(cur),
                of_integer(k),
            )
            &&& !has_moved(seq![of_integer(cur)], of_integer(k))
            &&& instant_move(seq![of_integer(cur)], of_integer(k)) == Direction::Flat
        }),
{
    let size = if prev < 0 {
        -prev
    } else {
        prev
    };
    let delta = cur - prev;
    let dist = if delta < 0 {
        -delta
    } else {
        delta
    };
    lemma_noise_integer(prev, k);
    lemma_integer_difference(cur, prev);
    lemma_integer_absolute(delta);
    assert((-prev) * k == -(prev * k)) by (nonlinear_arith);
    let n = size * k;
    assert(n >= 0) by (nonlinear_arith)
        requires
            size >= 0,
            k >= 0,
            n == size * k,
    ;
    lemma_integer_order(dist, 0);
    lemma_integer_order(dist, 1);
    lemma_integer_exact(0);
    lemma_integer_exact(1);
    lemma_integer_exact(dist);
    if n >= 1 {
        lemma_integer_order(n, dist);
    }
}

/// The sum of integers is exact as long as every partial sum is one of up to 53
/// bits.
pub proof fn lemma_total_of_integers(counts: Seq<int>)
    requires
        forall|i: int| 0 <= i < counts.len() ==> 0 <= #[trigger] counts[i],
        whole_sum(counts) < EXACT,
    ensures
        total(counts.map_values(|n: int| of_integer(n))) == of_integer(whole_sum(counts)),
        whole_sum(counts) >= 0,
    decreases counts.len(),
{
    let values = counts.map_values(|n: int| of_integer(n));
    if counts.len() > 0 {
        let rest = counts.drop_last();
        assert forall|i: int| 0 <= i < rest.len() implies 0 <= #[trigger] rest[i] by {
            assert(rest[i] == counts[i]);
        }
        assert(counts[counts.len() - 1] >= 0);
        lemma_whole_sum_positive(rest);
        lemma_total_of_integers(rest);
        assert(values.drop_last() =~= rest.map_values(|n: int| of_integer(n)));
        if counts.len() == 1 {
            assert(whole_sum(rest) == 0);
        } else {
            lemma_integer_sum(whole_sum(rest), counts.last());
        }
    }
}

/// The sum of integers.
pub open spec fn whole_sum(counts: Seq<int>) -> int
    decreases counts.len(),
{
    if counts.len() == 0 {
        0
    } else {
        whole_sum(counts.drop_last()) + counts.last()
    }
}

proof fn lemma_whole_sum_positive(counts: Seq<int>)
    requires
        forall|i: int| 0 <= i < counts.len() ==> 0 <= #[trigger] counts[i],
    ensures
        whole_sum(counts) >= 0,
    decreases counts.len(),
{
    if counts.len() > 0 {
        let rest = counts.drop_last();
        assert forall|i: int| 0 <= i < rest.len() implies 0 <= #[trigger] rest[i] by {
            assert(rest[i] == counts[i]);
        }
        lemma_whole_sum_positive(rest);
        assert(counts[counts.len() - 1] >= 0);
    }
}

/// The value of a metric in a scrape is the sum over the samples that count towards
/// it, and it is absent only where none does. A sample counts where its name
/// matches, it is no part of a histogram and its value is finite.
pub proof fn lemma_aggregated(samples: Seq<SampleView>, configured: Seq<char>)
    ensures
        ({
            let mine = |s: SampleView|
                if names_match(s.name, configured) && s.value.finite() && !(finishes_with(
                    s.name,
                    "_bucket"@,
                )) && !(finishes_with(s.name, "_count"@)) && !(finishes_with(s.name, "_sum"@)) {
                    Some(s.value)
                } else {
                    None
                };
            let values = samples.filter_map(mine);
            &&& values.len() > 0 ==> aggregated(samples, configured) == Some(total(values))
            &&& values.len() == 0 ==> aggregated(samples, configured) is None
        }),
{
    let mine = |s: SampleView|
        if names_match(s.name, configured) && s.value.finite() && !(finishes_with(
            s.name,
            "_bucket"@,
        )) && !(finishes_with(s.name, "_count"@)) && !(finishes_with(s.name, "_sum"@)) {
            Some(s.value)
        } else {
            None
        };
    assert(mine =~= (|s: SampleView| counted_value(s, configured))) by {
        assert forall|s: SampleView| #[trigger] mine(s) == counted_value(s, configured) by {}
    }
}

/// Suffixes of types and units make no difference to a name, whatever follows them.
/// Anything else that follows makes it another name.
pub proof fn lemma_suffixes_tolerated(name: Seq<char>, rest: Seq<char>)
    ensures
        names_match(name + "_total"@ + rest, name) == names_match(name + rest, name),
        names_match(name + "_bytes"@ + rest, name) == names_match(name + rest, name),
        names_match(name + "_milliseconds"@ + rest, name) == names_match(name + rest, name),
        names_match(name + "_seconds"@ + rest, name) == names_match(name + rest, name),
        names_match(name + "_ratio"@ + rest, name) == names_match(name + rest, name),
        rest.len() > 0 && !begins_with(rest, "_total"@) && !begins_with(rest, "_bytes"@)
            && !begins_with(rest, "_milliseconds"@) && !begins_with(rest, "_seconds"@)
            && !begins_with(rest, "_ratio"@) ==> !names_match(name + rest, name),
{
    reveal_strlit("_total");
    reveal_strlit("_bytes");
    reveal_strlit("_milliseconds");
    reveal_strlit("_seconds");
    reveal_strlit("_ratio");
    lemma_suffix_dropped(name, "_total"@, rest);
    lemma_suffix_dropped(name, "_bytes"@, rest);
    lemma_suffix_dropped(name, "_milliseconds"@, rest);
    lemma_suffix_dropped(name, "_seconds"@, rest);
    lemma_suffix_dropped(name, "_ratio"@, rest);
    lemma_name_then(name, rest);
}

/// What follows the name decides.
proof fn lemma_name_then(name: Seq<char>, rest: Seq<char>)
    ensures
        names_match(name + rest, name) == suffixes_only(rest),
{
    let s = name + rest;
    assert(s.subrange(0, name.len() as int) =~= name);
    assert(s.take(name.len() as int) =~= name);
    assert(s.skip(name.len() as int) =~= rest);
}

/// One of the suffixes can be left out.
proof fn lemma_suffix_dropped(name: Seq<char>, suffix: Seq<char>, rest: Seq<char>)
    requires
        suffix == "_total"@ || suffix == "_bytes"@ || suffix == "_milliseconds"@ || suffix
            == "_seconds"@ || suffix == "_ratio"@,
    ensures
        names_match(name + suffix + rest, name) == names_match(name + rest, name),
{
    reveal_strlit("_total");
    reveal_strlit("_bytes");
    reveal_strlit("_milliseconds");
    reveal_strlit("_seconds");
    reveal_strlit("_ratio");
    let t = suffix + rest;
    assert(name + suffix + rest =~= name + t);
    lemma_name_then(name, t);
    lemma_name_then(name, rest);
    assert(t.subrange(0, suffix.len() as int) =~= suffix);
    assert(begins_with(t, suffix));
    assert(t[1] == suffix[1]);
    assert(forall|p: Seq<char>|
        p.len() > 1 && #[trigger] begins_with(t, p) ==> t.subrange(0, p.len() as int)[1] == p[1]);
    assert(leading_suffix(t) == Some(suffix.len() as int));
    assert(t.skip(suffix.len() as int) =~= rest);
}

/// A metric whose name is watched once has the value of the scrape added to its
/// history, if the scrape has one, and of the history only the window is kept.
pub proof fn lemma_history_grows(
    values: Seq<Double>,
    specs: Seq<SpecView>,
    samples: Seq<SampleView>,
    window: int,
    i: int,
)
    requires
        0 <= i < specs.len(),
        forall|j: int| 0 <= j < specs.len() && j != i ==> (#[trigger] specs[j]).name != specs[i].name,
        window >= 1,
    ensures
        ({
            let after = after_scrape(values, specs[i].name, specs, samples, window);
            match aggregated(samples, specs[i].name) {
                Some(v) => {
                    &&& after.len() == (if values.len() + 1 > window {
                        window
                    } else {
                        values.len() as int + 1
                    })
                    &&& after.last() == v
                    &&& forall|k: int|
                        1 <= k < after.len() ==> #[trigger] after[after.len() - 1 - k]
                            == values[values.len() - k]
                },
                None => after == values,
            }
        }),
    decreases specs.len(),
{
    let rest = specs.drop_last();
    let name = specs[i].name;
    if i == specs.len() - 1 {
        lemma_history_untouched(values, name, rest, samples, window);
    } else {
        assert(rest[i] == specs[i]);
        assert forall|j: int| 0 <= j < rest.len() && j != i implies (#[trigger] rest[j]).name
            != rest[i].name by {
            assert(rest[j] == specs[j]);
        }
        lemma_history_grows(values, rest, samples, window, i);
        assert(specs[specs.len() - 1].name != name);
    }
}

/// The history of a metric that is not watched stays.
pub proof fn lemma_history_untouched(
    values: Seq<Double>,
    name: Seq<char>,
    specs: Seq<SpecView>,
    samples: Seq<SampleView>,
    window: int,
)
    requires
        forall|j: int| 0 <= j < specs.len() ==> (#[trigger] specs[j]).name != name,
    ensures
        after_scrape(values, name, specs, samples, window) == values,
    decreases specs.len(),
{
    if specs.len() > 0 {
        let rest = specs.drop_last();
        assert forall|j: int| 0 <= j < rest.len() implies (#[trigger] rest[j]).name != name by {
            assert(rest[j] == specs[j]);
        }
        lemma_history_untouched(values, name, rest, samples, window);
        assert(specs[specs.len() - 1].name != name);
    }
}

/// Over the window the older half is held against the newer: where each of them
/// has one value throughout, the two values decide. Of an odd number of values the
/// newer half has one more.
pub proof fn lemma_halves_compared(older: int, newer: int, n: int, m: int, eps: Double)
    requires
        0 <= older,
        0 <= newer,
        1 <= n,
        m == n || m == n + 1,
        older * n < EXACT,
        newer * m < EXACT,
        n < EXACT && m < EXACT,
    ensures
        rolling_move(
            Seq::new(n as nat, |i: int| of_integer(older)) + Seq::new(
                m as nat,
                |i: int| of_integer(newer),
            ),
            eps,
        ) == movement(of_integer(older), of_integer(newer), eps),
{
    let a = Seq::new(n as nat, |i: int| of_integer(older));
    let b = Seq::new(m as nat, |i: int| of_integer(newer));
    let all = a + b;
    assert(all.take(n) =~= a);
    assert(all.skip(n) =~= b);
    lemma_mean_of_copies(older, n);
    lemma_mean_of_copies(newer, m);
}

/// The mean of one integer, taken any number of times.
proof fn lemma_mean_of_copies(x: int, n: int)
    requires
        0 <= x,
        1 <= n < EXACT,
        x * n < EXACT,
    ensures
        mean_of(Seq::new(n as nat, |i: int| of_integer(x))) == of_integer(x),
{
    let counts = Seq::new(n as nat, |i: int| x);
    lemma_copies_sum(x, n);
    lemma_total_of_integers(counts);
    assert(counts.map_values(|k: int| of_integer(k)) =~= Seq::new(
        n as nat,
        |i: int| of_integer(x),
    ));
    assert(x * n >= 0) by (nonlinear_arith)
        requires
            x >= 0,
            n >= 1,
    ;
    lemma_integer_quotient(x, n);
}

proof fn lemma_copies_sum(x: int, n: int)
    requires
        n >= 0,
    ensures
        whole_sum(Seq::new(n as nat, |i: int| x)) == x * n,
    decreases n,
{
    let s = Seq::new(n as nat, |i: int| x);
    if n > 0 {
        lemma_copies_sum(x, n - 1);
        assert(s.drop_last() =~= Seq::new((n - 1) as nat, |i: int| x));
        assert(x * n == x * (n - 1) + x) by (nonlinear_arith);
    } else {
        assert(x * 0 == 0);
    }
}

/// What a summary line says of a metric: its label, its value, what kind of value
/// it is, and what is wrong with it.
pub proof fn lemma_summary_entry(v: VerdictView)
    ensures
        !v.present ==> verdict_text(v) == seq![' '] + v.label + "=(no data)"@,
        v.present && !v.is_rate && !v.changed && !v.breached && !v.stalled && !v.worsening
            && !v.improving ==> verdict_text(v) == seq![' '] + v.label + seq!['='] + whole_text(
            v.value,
        ),
        v.breached ==> mark_of(v) == " ‼"@,
        !v.breached && v.stalled ==> mark_of(v) == " ⊘"@,
        !v.breached && !v.stalled && v.worsening ==> mark_of(v) == " ⚠"@,
        !v.breached && !v.stalled && !v.worsening && v.improving ==> mark_of(v) == " ✓"@,
        !v.breached && !v.stalled && !v.worsening && !v.improving ==> mark_of(v).len() == 0,
        v.present ==> finishes_with(verdict_text(v), mark_of(v)),
        arrow_of(Direction::Up) == "↑"@ && arrow_of(Direction::Down) == "↓"@,
        arrow_of(Direction::Flat).len() == 0,
{
    if v.present {
        let s = verdict_text(v);
        let k = mark_of(v);
        assert(s.subrange(s.len() - k.len(), s.len() as int) =~= k);
        assert(s.skip(s.len() - k.len()) =~= k);
        if !v.is_rate && !v.changed && !v.breached && !v.stalled && !v.worsening && !v.improving {
            assert(s =~= seq![' '] + v.label + seq!['='] + whole_text(v.value));
        }
    }
}

/// A line of a scrape: a name and a value, with or without a time behind them. What
/// is no number is no sample.
pub proof fn lemma_line_read(name: Seq<char>, value: Seq<char>, stamp: Seq<char>)
    requires
        name.len() > 0,
        name[0] != '#',
        forall|i: int| 0 <= i < name.len() ==> !space(#[trigger] name[i]) && name[i] != '{',
        value.len() > 0,
        forall|i: int| 0 <= i < value.len() ==> !space(#[trigger] value[i]),
        stamp.len() > 0,
        !space(stamp.last()),
    ensures
        ({
            let plain = line_sample(name + seq![' '] + value);
            &&& written_double(value) matches Some(d) ==> plain == Some(
                SampleView { name, labels: Seq::empty(), value: d },
            )
            &&& written_double(value) is None ==> plain is None
            &&& line_sample(name + seq![' '] + value + seq![' '] + stamp) == plain
        }),
{
    lemma_line_parts(name, value, Seq::empty());
    assert(name + seq![' '] + value + Seq::<char>::empty() =~= name + seq![' '] + value);
    lemma_line_parts(name, value, seq![' '] + stamp);
    assert(name + seq![' '] + value + (seq![' '] + stamp) =~= name + seq![' '] + value + seq![' ']
        + stamp);
    lemma_plain_series(name);
}

/// A series without braces is a name.
proof fn lemma_plain_series(name: Seq<char>)
    requires
        forall|i: int| 0 <= i < name.len() ==> #[trigger] name[i] != '{',
    ensures
        series_parts(name) == Some((name, Seq::<(Seq<char>, Seq<char>)>::empty())),
{
    lemma_char_index(name, '{');
}

/// How a line falls into the series and the value.
proof fn lemma_line_parts(series: Seq<char>, value: Seq<char>, more: Seq<char>)
    requires
        series.len() > 0,
        series[0] != '#',
        forall|i: int| 0 <= i < series.len() ==> !space(#[trigger] series[i]),
        value.len() > 0,
        forall|i: int| 0 <= i < value.len() ==> !space(#[trigger] value[i]),
        more.len() == 0 || (space(more[0]) && !space(more.last())),
    ensures
        line_sample(series + seq![' '] + value + more) == (match (
            series_parts(series),
            written_double(value),
        ) {
            (Some((name, labels)), Some(d)) if name.len() > 0 => Some(
                SampleView { name, labels, value: d },
            ),
            _ => None,
        }),
{
    let s = series + seq![' '] + value + more;
    let k = series.len() as int;
    assert(!space(series[0]) && s[0] == series[0]);
    assert(!space(value[value.len() - 1]));
    assert(s.last() == (if more.len() > 0 {
        more.last()
    } else {
        value.last()
    }));
    let none = Seq::<char>::empty();
    lemma_trimmed(none, s, none);
    assert(none + s + none =~= s);
    lemma_char_index(s, ' ');
    assert(s[k] == ' ');
    let i = char_index(s, ' ');
    if i < k {
        assert(s[i] == series[i]);
        assert(!space(series[i]));
    }
    assert(i == k);
    assert(s.subrange(0, k) =~= series);
    let tail = value + more;
    assert(s.subrange(k, s.len() as int) =~= seq![' '] + tail + none);
    assert(tail[0] == value[0] && !space(value[0]));
    assert(tail.last() == s.last());
    lemma_trimmed(seq![' '], tail, none);
    lemma_words(none, value, more);
}

/// Comments and empty lines hold no sample.
pub proof fn lemma_comment_line(note: Seq<char>)
    requires
        note.len() == 0 || !space(note.last()),
    ensures
        line_sample(seq!['#'] + note) is None,
        line_sample(Seq::empty()) is None,
{
    let none = Seq::<char>::empty();
    let s = seq!['#'] + note;
    assert(s[0] == '#');
    assert(s.last() == (if note.len() > 0 {
        note.last()
    } else {
        '#'
    }));
    lemma_trimmed(none, s, none);
    assert(none + s + none =~= s);
}

/// A label of a series is what stands in front of the equals sign, and its value
/// what stands in quotes behind it.
pub proof fn lemma_label_read(key: Seq<char>, value: Seq<char>)
    requires
        key.len() > 0,
        !space(key[0]),
        !space(key.last()),
        forall|i: int| 0 <= i < key.len() ==> #[trigger] key[i] != '=',
        value.len() > 0,
        value[0] != '"',
        value.last() != '"',
    ensures
        label_pair(key + seq!['=', '"'] + value + seq!['"']) == Some((key, value)),
{
    let none = Seq::<char>::empty();
    let quoted = seq!['"'] + value + seq!['"'];
    let p = key + seq!['=', '"'] + value + seq!['"'];
    let k = key.len() as int;
    assert(p[0] == key[0] && p.last() == '"');
    lemma_trimmed(none, p, none);
    assert(none + p + none =~= p);
    lemma_char_index(p, '=');
    assert(p[k] == '=');
    let i = char_index(p, '=');
    if i < k {
        assert(p[i] == key[i]);
    }
    assert(p.subrange(0, k) =~= key);
    assert(p.subrange(k + 1, p.len() as int) =~= quoted);
    lemma_trimmed(none, key, none);
    assert(none + key + none =~= key);
    assert(quoted[0] == '"' && quoted.last() == '"');
    lemma_trimmed(none, quoted, none);
    assert(none + quoted + none =~= quoted);
    let open = value + seq!['"'];
    assert(quoted.drop_first() =~= open);
    assert(open[0] == value[0]);
    assert(stripped_start(open, '"') == open);
    assert(open.drop_last() =~= value);
    assert(stripped_end(open, '"') == stripped_end(value, '"'));
}

/// The labels of a series stand in braces behind its name.
pub proof fn lemma_series_read(name: Seq<char>, inner: Seq<char>)
    requires
        forall|i: int| 0 <= i < name.len() ==> #[trigger] name[i] != '{',
    ensures
        series_parts(name) == Some((name, Seq::<(Seq<char>, Seq<char>)>::empty())),
        series_parts(name + seq!['{'] + inner + seq!['}']) == Some((name, label_pairs(inner))),
{
    lemma_plain_series(name);
    let s = name + seq!['{'] + inner + seq!['}'];
    let k = name.len() as int;
    let n = s.len() as int;
    lemma_char_index(s, '{');
    assert(s[k] == '{');
    let i = char_index(s, '{');
    if i < k {
        assert(s[i] == name[i]);
    }
    let pat = seq!['}'];
    assert(s.subrange(n - 1, n) =~= pat);
    assert(occurs_at(s, pat, n - 1));
    lemma_rfind_upto(s, pat, n);
    assert(!occurs_at(s, pat, n));
    assert(last(s, pat) == Some(n - 1));
    assert(s.subrange(0, k) =~= name);
    assert(s.subrange(k + 1, n - 1) =~= inner);
}

/// A pair is among the labels exactly where one of the pieces between the commas
/// holds it.
pub proof fn lemma_labels_read(inner: Seq<char>, pair: (Seq<char>, Seq<char>))
    ensures
        label_pairs(inner).contains(pair) <==> exists|i: int|
            0 <= i < pieces(inner, ',').len() && label_pair(#[trigger] pieces(inner, ',')[i])
                == Some(pair),
{
    let parts = pieces(inner, ',');
    let f = |p: Seq<char>| label_pair(p);
    let lt = |a: (Seq<char>, Seq<char>), b: (Seq<char>, Seq<char>)| pair_before(a, b);
    let found = parts.filter_map(f);
    lemma_filter_map_member(parts, f, pair);
    lemma_pair_order();
    lemma_sorted_ordered(found, lt);
    found.to_multiset_ensures();
    sorted(found, lt).to_multiset_ensures();
    assert(sorted(found, lt).to_multiset().count(pair) == found.to_multiset().count(pair));
}

/// Label pairs can be sorted.
proof fn lemma_pair_order()
    ensures
        strict_weak_order(
            |a: (Seq<char>, Seq<char>), b: (Seq<char>, Seq<char>)| pair_before(a, b),
        ),
{
    let lt = |a: (Seq<char>, Seq<char>), b: (Seq<char>, Seq<char>)| pair_before(a, b);
    assert forall|a: (Seq<char>, Seq<char>)| !#[trigger] lt(a, a) by {
        lemma_precedes_irreflexive(a.0);
        lemma_precedes_irreflexive(a.1);
    }
    assert forall|
        a: (Seq<char>, Seq<char>),
        b: (Seq<char>, Seq<char>),
        c: (Seq<char>, Seq<char>),
    | #[trigger]
        lt(a, b) && #[trigger] lt(b, c) implies lt(a, c) by {
        if precedes(a.0, b.0) && precedes(b.0, c.0) {
            lemma_precedes_transitive(a.0, b.0, c.0);
        }
        if precedes(a.1, b.1) && precedes(b.1, c.1) {
            lemma_precedes_transitive(a.1, b.1, c.1);
        }
    }
    assert forall|
        a: (Seq<char>, Seq<char>),
        b: (Seq<char>, Seq<char>),
        c: (Seq<char>, Seq<char>),
    | !#[trigger]
        lt(a, b) && !#[trigger] lt(b, c) implies !lt(a, c) by {
        lemma_chain(a.0, b.0, c.0);
        lemma_chain(a.1, b.1, c.1);
        lemma_precedes_irreflexive(a.0);
        lemma_precedes_irreflexive(a.1);
    }
}

/// What stands between two texts in their order.
proof fn lemma_chain(a: Seq<char>, b: Seq<char>, c: Seq<char>)
    ensures
        precedes(a, c) ==> precedes(a, b) || precedes(b, c),
        a == c && a != b ==> precedes(a, b) || precedes(b, c),
        precedes(c, b) && precedes(b, a) ==> precedes(c, a),
        !(precedes(a, c) && precedes(c, a)),
{
    lemma_precedes_total(a, b);
    lemma_precedes_total(b, c);
    lemma_precedes_total(a, c);
    if precedes(a, c) && precedes(c, a) {
        lemma_precedes_transitive(a, c, a);
    }
    lemma_precedes_irreflexive(a);
    if precedes(c, b) && precedes(b, a) {
        lemma_precedes_transitive(c, b, a);
    }
    if precedes(a, c) && precedes(c, b) {
        lemma_precedes_transitive(a, c, b);
    }
}

/// A scrape is read line by line.
pub proof fn lemma_scrape_lines(line: Seq<char>, rest: Seq<char>)
    requires
        forall|i: int| 0 <= i < line.len() ==> #[trigger] line[i] != '\n',
        line.len() == 0 || line.last() != '\r',
    ensures
        scraped(Seq::empty()).len() == 0,
        scraped(line + seq!['\n'] + rest) == (match line_sample(line) {
            Some(s) => seq![s],
            None => Seq::empty(),
        }) + scraped(rest),
{
    reveal(Seq::filter_map);
    let f = |l: Seq<char>| line_sample(l);
    lemma_lines(line, rest);
    lemma_filter_map_first(line, lines(rest), f);
}

/// The first item is mapped first.
proof fn lemma_filter_map_first<A, B>(x: A, items: Seq<A>, f: spec_fn(A) -> Option<B>)
    ensures
        (seq![x] + items).filter_map(f) == (match f(x) {
            Some(y) => seq![y],
            None => Seq::empty(),
        }) + items.filter_map(f),
    decreases items.len(),
{
    reveal(Seq::filter_map);
    let all = seq![x] + items;
    let head = match f(x) {
        Some(y) => seq![y],
        None => Seq::empty(),
    };
    if items.len() > 0 {
        let less = items.drop_last();
        assert(all.drop_last() =~= seq![x] + less);
        assert(all.last() == items.last());
        lemma_filter_map_first(x, less, f);
        assert(all.filter_map(f) =~= head + items.filter_map(f));
    } else {
        assert(all =~= seq![x]);
        Seq::lemma_filter_map_singleton(x, f);
        assert(items.filter_map(f) =~= Seq::empty());
        assert(all.filter_map(f) =~= head + items.filter_map(f));
    }
}

/// The series of a sample is its name, with its labels in braces.
pub proof fn lemma_series_named(name: Seq<char>, key: Seq<char>, value: Seq<char>)
    ensures
        series_text(name, Seq::empty()) == name,
        series_text(name, seq![(key, value)]) =~= name + seq!['{'] + key + seq!['=', '"'] + value
            + seq!['"', '}'],
{
    let f = |p: (Seq<char>, Seq<char>)| pair_text(p);
    let one = seq![(key, value)];
    assert(one.map_values(f) =~= seq![pair_text((key, value))]);
}

/// Texts are written in JSON with quotes, backslashes and line ends escaped.
pub proof fn lemma_escaped(s: Seq<char>, c: char)
    ensures
        escaped(Seq::empty()).len() == 0,
        c == '"' || c == '\\' ==> escaped(s.push(c)) == escaped(s) + seq!['\\', c],
        c == '\n' ==> escaped(s.push(c)) == escaped(s) + seq!['\\', 'n'],
        c == '\r' ==> escaped(s.push(c)) == escaped(s) + seq!['\\', 'r'],
        c == '\t' ==> escaped(s.push(c)) == escaped(s) + seq!['\\', 't'],
        c != '"' && c != '\\' && c != '\n' && c != '\r' && c != '\t' ==> escaped(s.push(c))
            == escaped(s) + seq![c],
        quoted(s) == seq!['"'] + escaped(s) + seq!['"'],
{
    assert(s.push(c).drop_last() =~= s);
}

/// Of the samples the finite ones are captured, each under the name of its series.
pub proof fn lemma_captured(samples: Seq<Sample>, texts: Seq<String>, s: Sample, text: String)
    requires
        samples.len() == texts.len(),
    ensures
        captured_pairs(Seq::empty(), Seq::empty()).len() == 0,
        s.value.finite() ==> captured_pairs(samples.push(s), texts.push(text)) == captured_pairs(
            samples,
            texts,
        ).push((series_text(s.name@, s.labels.deep_view()), text@)),
        !s.value.finite() ==> captured_pairs(samples.push(s), texts.push(text)) == captured_pairs(
            samples,
            texts,
        ),
{
    assert(samples.push(s).drop_last() =~= samples);
    assert(texts.push(text).drop_last() =~= texts);
}

/// In the name of a file a pod keeps its letters and digits, dashes and underscores;
/// everything else becomes an underscore.
pub proof fn lemma_safe_name(pod: Seq<char>, keep: Seq<bool>, i: int)
    requires
        pod.len() == keep.len(),
        0 <= i < pod.len(),
    ensures
        safe_name(pod, keep).len() == pod.len(),
        keep[i] || pod[i] == '-' || pod[i] == '_' ==> safe_name(pod, keep)[i] == pod[i],
        !keep[i] && pod[i] != '-' && pod[i] != '_' ==> safe_name(pod, keep)[i] == '_',
{
}

/// In the built-in list more is better exactly for the throughput, and what is
/// labelled as a rate is counted. No threshold is set.
pub proof fn lemma_built_in_list(i: int)
    requires
        0 <= i < default_list().len(),
    ensures
        default_list()[i].threshold is None,
        default_list()[i].polarity == Polarity::HigherBetter <==> default_list()[i].category
            == MetricCategory::Throughput,
        default_list()[i].kind == MetricKind::Counter <==> default_list()[i].label.len() > 2
            && default_list()[i].label.last() == 's' && default_list()[i].label[default_list()[i].label.len()
            - 2] == '/',
{
    reveal_strlit("consumer lag");
    reveal_strlit("backlog bytes");
    reveal_strlit("unacked");
    reveal_strlit("reconnections");
    reveal_strlit("idle partitions");
    reveal_strlit("throughput rps");
    reveal_strlit("consumed/s");
    reveal_strlit("written/s");
    reveal_strlit("sink sent/s");
    reveal_strlit("source chan fill");
    reveal_strlit("decoded chan depth");
    reveal_strlit("batcher chan depth");
    reveal_strlit("writer chan fill");
    reveal_strlit("backpressure");
    reveal_strlit("mem rss ratio");
    reveal_strlit("unhealthy");
    reveal_strlit("dlq rows/s");
}

/// A metric of the configuration is watched as it is configured, under its name
/// where it has no label.
pub proof fn lemma_watched(w: WatchConfig)
    ensures
        w.label matches Some(l) ==> watch_view(w).label == l@,
        w.label is None ==> watch_view(w).label == w.name@,
        watch_view(w).name == w.name@,
        watch_view(w).polarity == w.polarity,
        watch_view(w).threshold == w.threshold,
        watch_view(w).kind == w.kind,
        watch_view(w).category == w.category,
{
}

/// A line without a value is no sample, and the mean of no values is zero.
pub proof fn lemma_nothing_to_read(series: Seq<char>)
    requires
        forall|i: int| 0 <= i < series.len() ==> !space(#[trigger] series[i]),
    ensures
        line_sample(series) is None,
        mean_of(Seq::empty()) == of_integer(0),
{
    let none = Seq::<char>::empty();
    if series.len() > 0 {
        assert(!space(series[0]) && !space(series[series.len() - 1]));
        lemma_trimmed(none, series, none);
        assert(none + series + none =~= series);
        lemma_char_index(series, ' ');
        let i = char_index(series, ' ');
        if i < series.len() {
            assert(!space(series[i]));
        }
    }
}

} // verus!
