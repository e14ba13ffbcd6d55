//! What a number of log lines add up to.

use crate::decimal::{read_i64, signed};
use crate::kube::json::{document, parse_document, JsonEntry, JsonEntryView, JsonValueView};
use crate::kube::logs::{field, field_text, get_field, get_field_text, get_or_empty, get_text, or_empty, text_under};
use crate::kube::normalise::{normalise_message, normalised};
use crate::kube::quantity::as_integer;
use crate::kube::signals::{
    has_any, memory_needles, operational_events, operations, operations_among, reconnect_needles,
    tells_backpressure, tells_of_backpressure, tells_oom_warning, tells_reconnect,
    tells_transform_error, transform_needles,
};
use crate::kube::{lemma_push_contains, LogStats};
use crate::names::{insert_name, names_of};
use crate::order::{is_before, lemma_precedes_irreflexive, lemma_precedes_total, lemma_precedes_transitive, precedes};
use crate::tally::{count, lemma_count_is_filter, lemma_count_positive, lemma_count_step};
use crate::text::{chars_of, copy_of, lowercase, same, to_lowercase};
use vstd::prelude::*;

verus! {

// ── Ranking ──────────────────────────────────────────────────────────────────

/// The text is `x`.
pub open spec fn is_text(x: Seq<char>) -> spec_fn(Seq<char>) -> bool {
    |y: Seq<char>| y == x
}

/// The entry `a` comes before `b`: it counts more, or as much and its name comes
/// first.
pub open spec fn outranks(a: (Seq<char>, usize), b: (Seq<char>, usize)) -> bool {
    a.1 > b.1 || (a.1 == b.1 && precedes(a.0, b.0))
}

/// Every entry of the list comes before every later one.
pub open spec fn in_rank(list: Seq<(Seq<char>, usize)>) -> bool {
    forall|i: int, j: int| 0 <= i < j < list.len() ==> #[trigger] outranks(list[i], list[j])
}

/// `list` has each text of `given` once, with how often it occurs, the most
/// frequent one first.
pub open spec fn ranking(list: Seq<(Seq<char>, usize)>, given: Seq<Seq<char>>) -> bool {
    &&& in_rank(list)
    &&& forall|i: int|
        0 <= i < list.len() ==> given.contains((#[trigger] list[i]).0) && list[i].1 == count(
            given,
            is_text(list[i].0),
        )
    &&& forall|x: Seq<char>| #[trigger]
        given.contains(x) ==> listed(list, x)
}

/// The list has an entry for `x`.
pub open spec fn listed(list: Seq<(Seq<char>, usize)>, x: Seq<char>) -> bool {
    exists|i: int| 0 <= i < list.len() && (#[trigger] list[i]).0 == x
}

/// How often `name` occurs in the list.
fn occurrences(list: &Vec<String>, name: &str) -> (r: usize)
    ensures
        r == count(list.deep_view(), is_text(name@)),
{
    let mut n: usize = 0;
    let ghost all = list.deep_view();
    for i in 0..list.len()
        invariant
            all == list.deep_view(),
            n == count(all.take(i as int), is_text(name@)),
            n <= i,
    {
        proof {
            lemma_count_step(all, is_text(name@), i as int);
            assert(all[i as int] == list@[i as int]@);
        }
        if same(list[i].as_str(), name) {
            n = n + 1;
        }
    }
    assert(all.take(all.len() as int) =~= all);
    n
}

/// Put an entry in its place, behind all that come before it.
fn insert_ranked(list: &mut Vec<(String, usize)>, name: &str, n: usize)
    requires
        in_rank(old(list).deep_view()),
        forall|i: int| 0 <= i < old(list).deep_view().len() ==> (#[trigger] old(list).deep_view()[i]).0 != name@,
    ensures
        in_rank(final(list).deep_view()),
        exists|k: int|
            0 <= k <= old(list).deep_view().len() && final(list).deep_view() == (#[trigger] old(
                list,
            ).deep_view().insert(k, (name@, n))),
{
    let mut i: usize = 0;
    let ghost before = list.deep_view();
    let ghost new = (name@, n);
    while i < list.len() && (list[i].1 > n || (list[i].1 == n && is_before(
        list[i].0.as_str(),
        name,
    )))
        invariant
            before == list.deep_view(),
            in_rank(before),
            new == (name@, n),
            i <= before.len(),
            forall|j: int| 0 <= j < i ==> #[trigger] outranks(before[j], new),
        decreases before.len() - i,
    {
        assert(before[i as int] == (list@[i as int].0@, list@[i as int].1));
        i = i + 1;
    }
    let ghost at = i as int;
    proof {
        if i < before.len() {
            assert(before[at] == (list@[at].0@, list@[at].1));
            lemma_precedes_total(name@, before[at].0);
            assert(outranks(new, before[at]));
        }
        assert forall|j: int| at <= j < before.len() implies #[trigger] outranks(new, before[j]) by {
            if j > at {
                assert(outranks(before[at], before[j]));
                if new.1 == before[at].1 && before[at].1 == before[j].1 {
                    lemma_precedes_transitive(new.0, before[at].0, before[j].0);
                }
            }
        }
    }
    list.insert(i, (copy_of(name), n));
    let ghost after = list.deep_view();
    proof {
        assert(after =~= before.insert(at, new));
        assert forall|a: int, b: int| 0 <= a < b < after.len() implies #[trigger] outranks(
            after[a],
            after[b],
        ) by {
            if b < at {
                assert(outranks(before[a], before[b]));
            } else if b == at {
                assert(outranks(before[a], new));
            } else if a == at {
                assert(outranks(new, before[b - 1]));
            } else if a < at {
                assert(outranks(before[a], before[b - 1]));
            } else {
                assert(outranks(before[a - 1], before[b - 1]));
            }
        }
    }
}

/// The texts of the list, each once, in ascending order.
fn distinct(list: &Vec<String>) -> (r: Vec<String>)
    ensures
        names_of(r.deep_view(), list.deep_view()),
{
    let mut r: Vec<String> = Vec::new();
    let ghost all = list.deep_view();
    assert(r.deep_view() =~= Seq::empty());
    for i in 0..list.len()
        invariant
            all == list.deep_view(),
            names_of(r.deep_view(), all.take(i as int)),
    {
        let ghost before = r.deep_view();
        let ghost seen = all.take(i as int);
        insert_name(&mut r, list[i].as_str());
        proof {
            assert(all.take(i + 1) =~= seen.push(list@[i as int]@));
            assert forall|x: Seq<char>| #[trigger] r.deep_view().contains(x) <==> all.take(
                i + 1,
            ).contains(x) by {
                assert(before.contains(x) <==> seen.contains(x));
                lemma_push_contains(before, list@[i as int]@, x);
                lemma_push_contains(seen, list@[i as int]@, x);
            }
        }
    }
    assert(all.take(all.len() as int) =~= all);
    r
}

/// Count the texts of the list, the most frequent one first.
pub fn sort_desc(list: &Vec<String>) -> (r: Vec<(String, usize)>)
    ensures
        ranking(r.deep_view(), list.deep_view()),
{
    let names = distinct(list);
    let ghost all = list.deep_view();
    let ghost known = names.deep_view();
    let mut r: Vec<(String, usize)> = Vec::new();
    assert(r.deep_view() =~= Seq::empty());
    for i in 0..names.len()
        invariant
            all == list.deep_view(),
            known == names.deep_view(),
            names_of(known, all),
            in_rank(r.deep_view()),
            forall|j: int|
                0 <= j < r.deep_view().len() ==> all.contains((#[trigger] r.deep_view()[j]).0)
                    && r.deep_view()[j].1 == count(all, is_text(r.deep_view()[j].0)),
            forall|j: int|
                0 <= j < r.deep_view().len() ==> known.take(i as int).contains(
                    (#[trigger] r.deep_view()[j]).0,
                ),
            forall|k: int| 0 <= k < i ==> listed(r.deep_view(), #[trigger] known[k]),
    {
        let name = names[i].as_str();
        let ghost before = r.deep_view();
        proof {
            assert(known[i as int] == name@);
            assert forall|j: int| 0 <= j < before.len() implies (#[trigger] before[j]).0 != name@ by {
                let first = known.take(i as int);
                assert(first.contains(before[j].0));
                let k = choose|k: int| 0 <= k < first.len() && first[k] == before[j].0;
                assert(precedes(known[k], known[i as int]));
                lemma_precedes_irreflexive(name@);
            }
            assert(known.contains(known[i as int]));
        }
        let n: usize = occurrences(list, name);
        insert_ranked(&mut r, name, n);
        proof {
            let after = r.deep_view();
            let at = choose|at: int|
                0 <= at <= before.len() && after == (#[trigger] before.insert(at, (name@, n)));
            assert(after[at] == (name@, n));
            assert forall|j: int| 0 <= j < after.len() implies all.contains((#[trigger] after[j]).0)
                && after[j].1 == count(all, is_text(after[j].0)) by {
                if j < at {
                    assert(after[j] == before[j]);
                } else if j > at {
                    assert(after[j] == before[j - 1]);
                }
            }
            assert(known.take(i + 1) =~= known.take(i as int).push(name@));
            assert forall|j: int| 0 <= j < after.len() implies known.take(i + 1).contains(
                (#[trigger] after[j]).0,
            ) by {
                lemma_push_contains(known.take(i as int), name@, after[j].0);
                if j < at {
                    assert(after[j] == before[j]);
                } else if j > at {
                    assert(after[j] == before[j - 1]);
                }
            }
            assert forall|k: int| 0 <= k < i + 1 implies listed(after, #[trigger] known[k]) by {
                if k == i {
                    assert(after[at].0 == known[k]);
                } else {
                    assert(listed(before, known[k]));
                    let j = choose|j: int|
                        0 <= j < before.len() && (#[trigger] before[j]).0 == known[k];
                    let m = if j < at { j } else { j + 1 };
                    assert(after[m] == before[j]);
                }
            }
        }
    }
    proof {
        let out = r.deep_view();
        assert forall|x: Seq<char>| #[trigger] all.contains(x) implies listed(out, x) by {
            assert(known.contains(x));
            let k = choose|k: int| 0 <= k < known.len() && known[k] == x;
            assert(listed(out, known[k]));
        }
    }
    r
}

// ── What one line tells ──────────────────────────────────────────────────────

/// What the statistics take from a log line that is JSON.
#[derive(Debug, Clone)]
pub struct LogFact {
    pub level: Option<String>,
    /// The message; empty where there is none.
    pub message: String,
    /// The message in lower case.
    pub lower: String,
    /// Resident memory in megabytes.
    pub rss_mb: Option<i64>,
    pub throughput_rps: Option<i64>,
}

/// What the statistics take from a log line, as a model.
#[verifier::ext_equal]
pub struct FactView {
    pub level: Option<Seq<char>>,
    pub message: Seq<char>,
    pub lower: Seq<char>,
    pub rss_mb: Option<i64>,
    pub throughput_rps: Option<i64>,
}

impl DeepView for LogFact {
    type V = FactView;

    open spec fn deep_view(&self) -> FactView {
        FactView {
            level: self.level.deep_view(),
            message: self.message@,
            lower: self.lower@,
            rss_mb: self.rss_mb,
            throughput_rps: self.throughput_rps,
        }
    }
}

/// A number that is written as a number or as a string.
pub open spec fn lenient_integer(v: Option<JsonValueView>) -> Option<int> {
    match v {
        None => None,
        Some(x) => match (x.integer, x.text) {
            (Some(n), _) => Some(n as int),
            (None, Some(t)) => signed(t),
            (None, None) => None,
        },
    }
}

/// The integer of a value.
pub open spec fn integer_of(v: Option<JsonValueView>) -> Option<i64> {
    match v {
        Some(x) => x.integer,
        None => None,
    }
}

/// What the statistics take from a document whose message in lower case is
/// `lower`.
pub open spec fn told(f: FactView, doc: Seq<JsonEntryView>, lower: Seq<char>) -> bool {
    &&& f.level == text_under(doc, "level"@)
    &&& f.message == or_empty(field_text(doc, "message"@))
    &&& f.lower == lower
    &&& f.rss_mb == integer_of(field(doc, "rss_mb"@))
    &&& as_integer(f.throughput_rps) == lenient_integer(field(doc, "throughput_rps"@))
}

/// The facts of the lines: one for each line that is JSON.
pub open spec fn facts_told(facts: Seq<FactView>, lines: Seq<Seq<char>>) -> bool
    decreases lines.len(),
{
    if lines.len() == 0 {
        facts.len() == 0
    } else {
        match document(lines.last()) {
            None => facts_told(facts, lines.drop_last()),
            Some(doc) => facts.len() > 0 && told(
                facts.last(),
                doc,
                lowercase(or_empty(field_text(doc, "message"@))),
            ) && facts_told(facts.drop_last(), lines.drop_last()),
        }
    }
}

/// The throughput, which some lines write as a string.
fn json_as_i64(doc: &Vec<JsonEntry>, name: &str) -> (r: Option<i64>)
    ensures
        as_integer(r) == lenient_integer(field(doc.deep_view(), name@)),
{
    match get_field(doc, name) {
        None => None,
        Some(v) => match v.integer {
            Some(n) => Some(n),
            None => match &v.text {
                Some(t) => read_i64(chars_of(t.as_str()).as_slice()),
                None => None,
            },
        },
    }
}

/// The integer under a field.
fn field_integer(doc: &Vec<JsonEntry>, name: &str) -> (r: Option<i64>)
    ensures
        r == integer_of(field(doc.deep_view(), name@)),
{
    match get_field(doc, name) {
        Some(v) => v.integer,
        None => None,
    }
}

/// What the statistics take from a document, given its message in lower case.
pub fn fact_of(doc: &Vec<JsonEntry>, lower: &str) -> (r: LogFact)
    ensures
        told(r.deep_view(), doc.deep_view(), lower@),
{
    LogFact {
        level: get_text(doc, "level"),
        message: get_or_empty(get_field_text(doc, "message")),
        lower: copy_of(lower),
        rss_mb: field_integer(doc, "rss_mb"),
        throughput_rps: json_as_i64(doc, "throughput_rps"),
    }
}

/// The facts of the lines.
fn gather_facts(lines: &Vec<String>) -> (r: Vec<LogFact>)
    ensures
        facts_told(r.deep_view(), lines.deep_view()),
        r@.len() <= lines@.len(),
{
    let ghost all = lines.deep_view();
    let mut r: Vec<LogFact> = Vec::new();
    assert(r.deep_view() =~= Seq::empty());
    for i in 0..lines.len()
        invariant
            all == lines.deep_view(),
            facts_told(r.deep_view(), all.take(i as int)),
            r@.len() <= i,
    {
        let line = lines[i].as_str();
        let ghost before = r.deep_view();
        assert(all.take(i + 1).drop_last() =~= all.take(i as int));
        assert(all.take(i + 1).last() == line@);
        if let Some(doc) = parse_document(line) {
            let message = get_or_empty(get_field_text(&doc, "message"));
            let lower = to_lowercase(message.as_str());
            let fact = fact_of(&doc, lower.as_str());
            let ghost f = fact.deep_view();
            r.push(fact);
            assert(r.deep_view() =~= before.push(f));
            assert(r.deep_view().drop_last() =~= before);
        }
    }
    assert(all.take(all.len() as int) =~= all);
    r
}

// ── Adding up ────────────────────────────────────────────────────────────────

/// The levels of the lines.
pub open spec fn levels(facts: Seq<FactView>) -> Seq<Seq<char>>
    decreases facts.len(),
{
    if facts.len() == 0 {
        Seq::empty()
    } else {
        match facts.last().level {
            Some(level) => levels(facts.drop_last()).push(level),
            None => levels(facts.drop_last()),
        }
    }
}

/// The shapes of the messages.
pub open spec fn shapes(facts: Seq<FactView>) -> Seq<Seq<char>>
    decreases facts.len(),
{
    if facts.len() == 0 {
        Seq::empty()
    } else if facts.last().message.len() > 0 {
        shapes(facts.drop_last()).push(normalised(facts.last().message))
    } else {
        shapes(facts.drop_last())
    }
}

/// The operational events that the messages tell of.
pub open spec fn events(facts: Seq<FactView>) -> Seq<Seq<char>>
    decreases facts.len(),
{
    if facts.len() == 0 {
        Seq::empty()
    } else if facts.last().message.len() > 0 {
        events(facts.drop_last()) + operations_among(facts.last().lower, operations())
    } else {
        events(facts.drop_last())
    }
}

/// There is a message, and it tells of lost rows.
pub open spec fn of_transform_error() -> spec_fn(FactView) -> bool {
    |f: FactView| f.message.len() > 0 && has_any(f.lower, transform_needles())
}

/// There is a message, and it warns of memory running out.
pub open spec fn of_oom_warning() -> spec_fn(FactView) -> bool {
    |f: FactView| f.message.len() > 0 && has_any(f.lower, memory_needles())
}

/// There is a message, and it tells of rows backing up.
pub open spec fn of_backpressure() -> spec_fn(FactView) -> bool {
    |f: FactView| f.message.len() > 0 && tells_backpressure(f.lower)
}

/// There is a message, and it tells of a consumer that reconnects.
pub open spec fn of_reconnect() -> spec_fn(FactView) -> bool {
    |f: FactView| f.message.len() > 0 && has_any(f.lower, reconnect_needles())
}

/// The first of the readings that is there.
pub open spec fn first_reading(facts: Seq<FactView>, pick: spec_fn(FactView) -> Option<i64>) -> Option<
    i64,
>
    decreases facts.len(),
{
    if facts.len() == 0 {
        None
    } else {
        match first_reading(facts.drop_last(), pick) {
            Some(n) => Some(n),
            None => pick(facts.last()),
        }
    }
}

/// The last of the readings that is there.
pub open spec fn last_reading(facts: Seq<FactView>, pick: spec_fn(FactView) -> Option<i64>) -> Option<
    i64,
>
    decreases facts.len(),
{
    if facts.len() == 0 {
        None
    } else {
        match pick(facts.last()) {
            Some(n) => Some(n),
            None => last_reading(facts.drop_last(), pick),
        }
    }
}

/// Resident memory.
pub open spec fn memory() -> spec_fn(FactView) -> Option<i64> {
    |f: FactView| f.rss_mb
}

/// Throughput.
pub open spec fn throughput() -> spec_fn(FactView) -> Option<i64> {
    |f: FactView| f.throughput_rps
}

/// The first `n` entries of a list, or all of them where it has fewer.
pub open spec fn at_most<T>(list: Seq<T>, n: int) -> Seq<T> {
    if list.len() > n {
        list.take(n)
    } else {
        list
    }
}

/// The first reading of the throughput was positive, and the last one is zero.
pub open spec fn collapsed(facts: Seq<FactView>) -> bool {
    match (first_reading(facts, throughput()), last_reading(facts, throughput())) {
        (Some(a), Some(b)) => a > 0 && b == 0,
        _ => false,
    }
}

/// What `total` log lines with the given facts add up to, but for the collapse of
/// a throughput.
pub open spec fn summed(s: LogStats, facts: Seq<FactView>, total: int, top: int) -> bool {
    &&& s.total == total
    &&& ranking(s.by_level.deep_view(), levels(facts))
    &&& exists|all: Seq<(Seq<char>, usize)>|
        ranking(all, shapes(facts)) && s.top_messages.deep_view() == #[trigger] at_most(all, top)
    &&& ranking(s.operational.deep_view(), events(facts))
    &&& s.rss_first_mb == first_reading(facts, memory())
    &&& s.rss_last_mb == last_reading(facts, memory())
    &&& s.last_throughput_rps == last_reading(facts, throughput())
    &&& s.transform_errors == count(facts, of_transform_error())
    &&& s.oom_warnings == count(facts, of_oom_warning())
    &&& s.backpressure == count(facts, of_backpressure())
    &&& s.reconnects == count(facts, of_reconnect())
}

/// What `total` log lines with the given facts add up to.
pub open spec fn added_up(s: LogStats, facts: Seq<FactView>, total: int, top: int) -> bool {
    summed(s, facts, total, top) && s.throughput_collapsed == collapsed(facts)
}

/// The levels of the lines.
fn collect_levels(facts: &Vec<LogFact>) -> (r: Vec<String>)
    ensures
        r.deep_view() == levels(facts.deep_view()),
{
    let ghost all = facts.deep_view();
    let mut r: Vec<String> = Vec::new();
    assert(r.deep_view() =~= levels(all.take(0)));
    for i in 0..facts.len()
        invariant
            all == facts.deep_view(),
            r.deep_view() == levels(all.take(i as int)),
    {
        let ghost before = r.deep_view();
        assert(all.take(i + 1).drop_last() =~= all.take(i as int));
        assert(all.take(i + 1).last() == facts@[i as int].deep_view());
        if let Some(level) = &facts[i].level {
            r.push(copy_of(level.as_str()));
            assert(r.deep_view() =~= before.push(level@));
        }
    }
    assert(all.take(all.len() as int) =~= all);
    r
}

/// Whether there is a message.
fn has_message(f: &LogFact) -> (r: bool)
    ensures
        r == (f.message@.len() > 0),
{
    chars_of(f.message.as_str()).len() > 0
}

/// The shapes of the messages.
fn collect_shapes(facts: &Vec<LogFact>) -> (r: Vec<String>)
    ensures
        r.deep_view() == shapes(facts.deep_view()),
{
    let ghost all = facts.deep_view();
    let mut r: Vec<String> = Vec::new();
    assert(r.deep_view() =~= shapes(all.take(0)));
    for i in 0..facts.len()
        invariant
            all == facts.deep_view(),
            r.deep_view() == shapes(all.take(i as int)),
    {
        let ghost before = r.deep_view();
        assert(all.take(i + 1).drop_last() =~= all.take(i as int));
        assert(all.take(i + 1).last() == facts@[i as int].deep_view());
        let f = &facts[i];
        if has_message(f) {
            r.push(normalise_message(f.message.as_str()));
            assert(r.deep_view() =~= before.push(normalised(f.message@)));
        }
    }
    assert(all.take(all.len() as int) =~= all);
    r
}

/// The operational events that the messages tell of.
fn collect_events(facts: &Vec<LogFact>) -> (r: Vec<String>)
    ensures
        r.deep_view() == events(facts.deep_view()),
{
    let ghost all = facts.deep_view();
    let mut r: Vec<String> = Vec::new();
    assert(r.deep_view() =~= events(all.take(0)));
    for i in 0..facts.len()
        invariant
            all == facts.deep_view(),
            r.deep_view() == events(all.take(i as int)),
    {
        let ghost before = r.deep_view();
        assert(all.take(i + 1).drop_last() =~= all.take(i as int));
        assert(all.take(i + 1).last() == facts@[i as int].deep_view());
        let f = &facts[i];
        if has_message(f) {
            let mut found = operational_events(f.lower.as_str());
            let ghost more = found.deep_view();
            r.append(&mut found);
            assert(r.deep_view() =~= before + more);
        }
    }
    assert(all.take(all.len() as int) =~= all);
    r
}

/// How many messages tell of lost rows, of memory running out, of rows backing
/// up and of reconnects.
fn count_alerts(facts: &Vec<LogFact>) -> (r: (usize, usize, usize, usize))
    ensures
        r.0 == count(facts.deep_view(), of_transform_error()),
        r.1 == count(facts.deep_view(), of_oom_warning()),
        r.2 == count(facts.deep_view(), of_backpressure()),
        r.3 == count(facts.deep_view(), of_reconnect()),
{
    let ghost all = facts.deep_view();
    let mut lost: usize = 0;
    let mut memory: usize = 0;
    let mut pressure: usize = 0;
    let mut reconnects: usize = 0;
    for i in 0..facts.len()
        invariant
            all == facts.deep_view(),
            lost == count(all.take(i as int), of_transform_error()),
            memory == count(all.take(i as int), of_oom_warning()),
            pressure == count(all.take(i as int), of_backpressure()),
            reconnects == count(all.take(i as int), of_reconnect()),
            lost <= i && memory <= i && pressure <= i && reconnects <= i,
    {
        proof {
            lemma_count_step(all, of_transform_error(), i as int);
            lemma_count_step(all, of_oom_warning(), i as int);
            lemma_count_step(all, of_backpressure(), i as int);
            lemma_count_step(all, of_reconnect(), i as int);
            assert(all[i as int] == facts@[i as int].deep_view());
        }
        let f = &facts[i];
        if has_message(f) {
            let lower = f.lower.as_str();
            if tells_transform_error(lower) {
                lost = lost + 1;
            }
            if tells_oom_warning(lower) {
                memory = memory + 1;
            }
            if tells_of_backpressure(lower) {
                pressure = pressure + 1;
            }
            if tells_reconnect(lower) {
                reconnects = reconnects + 1;
            }
        }
    }
    assert(all.take(all.len() as int) =~= all);
    (lost, memory, pressure, reconnects)
}

/// The first and the last reading of resident memory and of the throughput.
fn readings(facts: &Vec<LogFact>) -> (r: (Option<i64>, Option<i64>, Option<i64>, Option<i64>))
    ensures
        r.0 == first_reading(facts.deep_view(), memory()),
        r.1 == last_reading(facts.deep_view(), memory()),
        r.2 == first_reading(facts.deep_view(), throughput()),
        r.3 == last_reading(facts.deep_view(), throughput()),
{
    let ghost all = facts.deep_view();
    let mut a: Option<i64> = None;
    let mut b: Option<i64> = None;
    let mut c: Option<i64> = None;
    let mut d: Option<i64> = None;
    for i in 0..facts.len()
        invariant
            all == facts.deep_view(),
            a == first_reading(all.take(i as int), memory()),
            b == last_reading(all.take(i as int), memory()),
            c == first_reading(all.take(i as int), throughput()),
            d == last_reading(all.take(i as int), throughput()),
    {
        assert(all.take(i + 1).drop_last() =~= all.take(i as int));
        assert(all.take(i + 1).last() == facts@[i as int].deep_view());
        let f = &facts[i];
        if f.rss_mb.is_some() {
            if a.is_none() {
                a = f.rss_mb;
            }
            b = f.rss_mb;
        }
        if f.throughput_rps.is_some() {
            if c.is_none() {
                c = f.throughput_rps;
            }
            d = f.throughput_rps;
        }
    }
    assert(all.take(all.len() as int) =~= all);
    (a, b, c, d)
}

/// What `total` log lines with the given facts add up to, with the `top_n` most
/// frequent messages.
pub fn aggregate_facts(facts: &Vec<LogFact>, total: usize, top_n: usize) -> (r: LogStats)
    ensures
        added_up(r, facts.deep_view(), total as int, top_n as int),
{
    let (lost, memory_warnings, pressure, reconnects) = count_alerts(facts);
    let (rss_first, rss_last, rps_first, rps_last) = readings(facts);
    let by_level = sort_desc(&collect_levels(facts));
    let operational = sort_desc(&collect_events(facts));
    let mut top = sort_desc(&collect_shapes(facts));
    let ghost all = top.deep_view();
    if top.len() > top_n {
        top.truncate(top_n);
    }
    assert(top.deep_view() =~= at_most(all, top_n as int));
    let throughput_collapsed = match (rps_first, rps_last) {
        (Some(x), Some(y)) => x > 0 && y == 0,
        _ => false,
    };
    LogStats {
        total,
        by_level,
        top_messages: top,
        operational,
        rss_first_mb: rss_first,
        rss_last_mb: rss_last,
        last_throughput_rps: rps_last,
        transform_errors: lost,
        oom_warnings: memory_warnings,
        backpressure: pressure,
        reconnects,
        throughput_collapsed,
    }
}

/// What the log lines add up to: levels, the most frequent messages, operational
/// events, alerts, and the course of memory and throughput. Lines that are not
/// JSON are only counted.
pub fn aggregate_log_stats(lines: &Vec<String>, top_n: usize) -> (r: LogStats)
    ensures
        exists|facts: Seq<FactView>| #[trigger]
            facts_told(facts, lines.deep_view()) && added_up(
                r,
                facts,
                lines@.len() as int,
                top_n as int,
            ),
{
    let facts = gather_facts(lines);
    aggregate_facts(&facts, lines.len(), top_n)
}

// ── Collapse ─────────────────────────────────────────────────────────────────

/// The lines of one pod tell that its throughput has collapsed: it was at work,
/// and it is at zero now.
pub open spec fn tells_collapse(lines: Seq<Seq<char>>) -> bool {
    exists|facts: Seq<FactView>| #[trigger] facts_told(facts, lines) && collapsed(facts)
}

/// There is one way only to read the facts of the lines.
pub proof fn lemma_facts_unique(a: Seq<FactView>, b: Seq<FactView>, lines: Seq<Seq<char>>)
    requires
        facts_told(a, lines),
        facts_told(b, lines),
    ensures
        a == b,
    decreases lines.len(),
{
    if lines.len() == 0 {
        assert(a =~= b);
    } else {
        match document(lines.last()) {
            None => lemma_facts_unique(a, b, lines.drop_last()),
            Some(_) => {
                lemma_facts_unique(a.drop_last(), b.drop_last(), lines.drop_last());
                assert(a.last() =~= b.last());
                assert(a =~= a.drop_last().push(a.last()));
                assert(b =~= b.drop_last().push(b.last()));
            },
        }
    }
}

/// Whether the lines of one pod tell that its throughput has collapsed.
pub fn has_collapsed(lines: &Vec<String>) -> (r: bool)
    ensures
        r == tells_collapse(lines.deep_view()),
{
    let facts = gather_facts(lines);
    let (_, _, first, last) = readings(&facts);
    proof {
        let all = facts.deep_view();
        if tells_collapse(lines.deep_view()) {
            let other = choose|other: Seq<FactView>| #[trigger]
                facts_told(other, lines.deep_view()) && collapsed(other);
            lemma_facts_unique(all, other, lines.deep_view());
        }
    }
    match (first, last) {
        (Some(a), Some(b)) => a > 0 && b == 0,
        _ => false,
    }
}

// ── Laws ─────────────────────────────────────────────────────────────────────

/// A ranking tells of every text once how often it occurs, the most frequent first
/// and, of equally frequent ones, the first of the alphabet first.
pub proof fn lemma_ranking_counts(list: Seq<(Seq<char>, usize)>, given: Seq<Seq<char>>)
    requires
        ranking(list, given),
    ensures
        forall|i: int|
            0 <= i < list.len() ==> (#[trigger] list[i]).1 == given.filter(
                |x: Seq<char>| x == list[i].0,
            ).len() && list[i].1 > 0,
        forall|i: int, j: int|
            0 <= i < j < list.len() ==> (#[trigger] list[i]).1 > (#[trigger] list[j]).1 || list[i].1
                == list[j].1 && precedes(list[i].0, list[j].0),
        forall|x: Seq<char>| #[trigger]
            given.contains(x) <==> exists|i: int| 0 <= i < list.len() && (#[trigger] list[i]).0 == x,
{
    assert forall|i: int| 0 <= i < list.len() implies (#[trigger] list[i]).1 == given.filter(
        |x: Seq<char>| x == list[i].0,
    ).len() && list[i].1 > 0 by {
        let p = |x: Seq<char>| x == list[i].0;
        lemma_count_is_filter(given, p);
        assert(is_text(list[i].0) =~= p);
        lemma_count_positive(given, p);
        let k = choose|k: int| 0 <= k < given.len() && given[k] == list[i].0;
        assert(p(given[k]));
    }
    assert forall|i: int, j: int| 0 <= i < j < list.len() implies (#[trigger] list[i]).1 > (
    #[trigger] list[j]).1 || list[i].1 == list[j].1 && precedes(list[i].0, list[j].0) by {
        assert(outranks(list[i], list[j]));
    }
    assert forall|x: Seq<char>| #[trigger] given.contains(x) <==> exists|i: int|
        0 <= i < list.len() && (#[trigger] list[i]).0 == x by {
        if given.contains(x) {
            assert(listed(list, x));
        }
        if exists|i: int| 0 <= i < list.len() && (#[trigger] list[i]).0 == x {
            let i = choose|i: int| 0 <= i < list.len() && (#[trigger] list[i]).0 == x;
            assert(given.contains(list[i].0));
        }
    }
}

/// What the statistics take from a line: the level, the message among the fields,
/// resident memory where it is an integer, and throughput also where it is written
/// as a string.
pub proof fn lemma_fact_told(f: FactView, doc: Seq<JsonEntryView>, lower: Seq<char>)
    requires
        told(f, doc, lower),
    ensures
        f.level == text_under(doc, "level"@),
        field_text(doc, "message"@) matches Some(m) ==> f.message == m,
        field_text(doc, "message"@) is None ==> f.message.len() == 0,
        f.lower == lower,
        field(doc, "rss_mb"@) matches Some(v) ==> f.rss_mb == v.integer,
        field(doc, "rss_mb"@) is None ==> f.rss_mb is None,
        field(doc, "throughput_rps"@) is None ==> f.throughput_rps is None,
        field(doc, "throughput_rps"@) matches Some(v) ==> {
            &&& v.integer is Some ==> f.throughput_rps == v.integer
            &&& v.integer is None && v.text is None ==> f.throughput_rps is None
            &&& v.integer is None && v.text is Some ==> as_integer(f.throughput_rps) == signed(
                v.text->0,
            )
        },
{
    reveal_strlit("");
}

/// Each line that is JSON adds one fact, with its message in lower case, and any
/// other line adds none.
pub proof fn lemma_facts_line_by_line(
    facts: Seq<FactView>,
    lines: Seq<Seq<char>>,
    f: FactView,
    line: Seq<char>,
)
    requires
        facts_told(facts, lines),
    ensures
        document(line) is None ==> facts_told(facts, lines.push(line)),
        document(line) matches Some(doc) ==> (told(
            f,
            doc,
            lowercase(or_empty(field_text(doc, "message"@))),
        ) ==> facts_told(facts.push(f), lines.push(line))),
        facts_told(Seq::empty(), Seq::empty()),
{
    assert(lines.push(line).drop_last() =~= lines);
    assert(facts.push(f).drop_last() =~= facts);
}

/// One more fact adds its level, the shape of its message, and the events that the
/// message tells of; a fact without a message adds no shape and no event.
pub proof fn lemma_facts_add_up(facts: Seq<FactView>, f: FactView)
    ensures
        f.level matches Some(l) ==> levels(facts.push(f)) == levels(facts).push(l),
        f.level is None ==> levels(facts.push(f)) == levels(facts),
        f.message.len() > 0 ==> shapes(facts.push(f)) == shapes(facts).push(normalised(f.message)),
        f.message.len() == 0 ==> shapes(facts.push(f)) == shapes(facts),
        f.message.len() > 0 ==> events(facts.push(f)) == events(facts) + operations_among(
            f.lower,
            operations(),
        ),
        f.message.len() == 0 ==> events(facts.push(f)) == events(facts),
        levels(Seq::empty()).len() == 0 && shapes(Seq::empty()).len() == 0 && events(
            Seq::empty(),
        ).len() == 0,
{
    assert(facts.push(f).drop_last() =~= facts);
}

/// The alerts are counted over the messages that there are: each message that
/// tells of lost rows, of memory running out, of backpressure or of a reconnect is
/// one.
pub proof fn lemma_alerts_counted(s: LogStats, facts: Seq<FactView>, total: int, top: int)
    requires
        added_up(s, facts, total, top),
    ensures
        s.total == total,
        s.transform_errors == facts.filter(
            |f: FactView| f.message.len() > 0 && has_any(f.lower, transform_needles()),
        ).len(),
        s.oom_warnings == facts.filter(
            |f: FactView| f.message.len() > 0 && has_any(f.lower, memory_needles()),
        ).len(),
        s.backpressure == facts.filter(
            |f: FactView| f.message.len() > 0 && tells_backpressure(f.lower),
        ).len(),
        s.reconnects == facts.filter(
            |f: FactView| f.message.len() > 0 && has_any(f.lower, reconnect_needles()),
        ).len(),
        ranking(s.by_level.deep_view(), levels(facts)),
        ranking(s.operational.deep_view(), events(facts)),
        s.top_messages@.len() <= top || top < 0,
        s.rss_first_mb == first_reading(facts, |f: FactView| f.rss_mb),
        s.rss_last_mb == last_reading(facts, |f: FactView| f.rss_mb),
        s.last_throughput_rps == last_reading(facts, |f: FactView| f.throughput_rps),
{
    let a = |f: FactView| f.message.len() > 0 && has_any(f.lower, transform_needles());
    let b = |f: FactView| f.message.len() > 0 && has_any(f.lower, memory_needles());
    let c = |f: FactView| f.message.len() > 0 && tells_backpressure(f.lower);
    let d = |f: FactView| f.message.len() > 0 && has_any(f.lower, reconnect_needles());
    assert(of_transform_error() =~= a);
    assert(of_oom_warning() =~= b);
    assert(of_backpressure() =~= c);
    assert(of_reconnect() =~= d);
    lemma_count_is_filter(facts, a);
    lemma_count_is_filter(facts, b);
    lemma_count_is_filter(facts, c);
    lemma_count_is_filter(facts, d);
    assert(memory() =~= (|f: FactView| f.rss_mb));
    assert(throughput() =~= (|f: FactView| f.throughput_rps));
    let all = choose|all: Seq<(Seq<char>, usize)>|
        ranking(all, shapes(facts)) && s.top_messages.deep_view() == #[trigger] at_most(all, top);
    assert(s.top_messages.deep_view().len() == s.top_messages@.len());
    assert(s.top_messages.deep_view() == at_most(all, top));
}

/// The most frequent messages are the first of the ranking of all messages.
pub proof fn lemma_top_messages(s: LogStats, facts: Seq<FactView>, total: int, top: int)
    requires
        added_up(s, facts, total, top),
        top >= 0,
    ensures
        exists|all: Seq<(Seq<char>, usize)>| #[trigger]
            ranking(all, shapes(facts)) && s.top_messages@.len() <= all.len()
                && s.top_messages.deep_view() == all.take(s.top_messages@.len() as int) && (
            s.top_messages@.len() == all.len() || s.top_messages@.len() == top),
{
    let all = choose|all: Seq<(Seq<char>, usize)>|
        ranking(all, shapes(facts)) && s.top_messages.deep_view() == #[trigger] at_most(all, top);
    assert(s.top_messages.deep_view().len() == s.top_messages@.len());
    assert(all.take(all.len() as int) =~= all);
    assert(s.top_messages.deep_view() == at_most(all, top));
    assert(ranking(all, shapes(facts)));
}

/// The first reading is that of the first fact that has one, and the last that of
/// the last.
pub proof fn lemma_first_and_last(
    facts: Seq<FactView>,
    pick: spec_fn(FactView) -> Option<i64>,
    i: int,
)
    requires
        0 <= i < facts.len(),
        pick(facts[i]) is Some,
    ensures
        (forall|j: int| 0 <= j < i ==> pick(#[trigger] facts[j]) is None) ==> first_reading(
            facts,
            pick,
        ) == pick(facts[i]),
        (forall|j: int| i < j < facts.len() ==> pick(#[trigger] facts[j]) is None)
            ==> last_reading(facts, pick) == pick(facts[i]),
    decreases facts.len(),
{
    let rest = facts.drop_last();
    assert forall|j: int| 0 <= j < rest.len() implies #[trigger] rest[j] == facts[j] by {}
    if i < rest.len() {
        lemma_first_and_last(rest, pick, i);
        if forall|j: int| 0 <= j < i ==> pick(#[trigger] facts[j]) is None {
            assert forall|j: int| 0 <= j < i implies pick(#[trigger] rest[j]) is None by {
                assert(pick(facts[j]) is None);
            }
        }
        if forall|j: int| i < j < facts.len() ==> pick(#[trigger] facts[j]) is None {
            assert forall|j: int| i < j < rest.len() implies pick(#[trigger] rest[j]) is None by {
                assert(pick(facts[j]) is None);
            }
            assert(pick(facts[facts.len() - 1]) is None);
        }
    } else {
        if forall|j: int| 0 <= j < i ==> pick(#[trigger] facts[j]) is None {
            assert forall|j: int| 0 <= j < rest.len() implies pick(#[trigger] rest[j]) is None by {
                assert(pick(facts[j]) is None);
            }
            lemma_no_reading(rest, pick);
        }
    }
}

/// Without any reading there is neither a first nor a last.
pub proof fn lemma_no_reading(facts: Seq<FactView>, pick: spec_fn(FactView) -> Option<i64>)
    requires
        forall|j: int| 0 <= j < facts.len() ==> pick(#[trigger] facts[j]) is None,
    ensures
        first_reading(facts, pick) is None,
        last_reading(facts, pick) is None,
    decreases facts.len(),
{
    if facts.len() > 0 {
        let rest = facts.drop_last();
        assert forall|j: int| 0 <= j < rest.len() implies pick(#[trigger] rest[j]) is None by {
            assert(rest[j] == facts[j]);
        }
        lemma_no_reading(rest, pick);
        assert(pick(facts[facts.len() - 1]) is None);
    }
}

/// The throughput has collapsed exactly where the first reading was above zero and
/// the last one is zero: a pod that was idle from the start has not collapsed.
pub proof fn lemma_collapse(lines: Seq<Seq<char>>, facts: Seq<FactView>)
    requires
        facts_told(facts, lines),
    ensures
        tells_collapse(lines) <==> {
            let first = first_reading(facts, |f: FactView| f.throughput_rps);
            let last = last_reading(facts, |f: FactView| f.throughput_rps);
            first is Some && last is Some && first->0 > 0 && last->0 == 0
        },
{
    assert(throughput() =~= (|f: FactView| f.throughput_rps));
    if tells_collapse(lines) {
        let other = choose|other: Seq<FactView>| #[trigger]
            facts_told(other, lines) && collapsed(other);
        lemma_facts_unique(facts, other, lines);
    }
}

} // verus!
