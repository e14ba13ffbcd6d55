//! Signals in log messages. They are matched on fragments of the message in
//! lower case, so that the rest of it does not matter.

use crate::kube::LogSignal;
use crate::text::{
    ascii_upper, chars_of, copy_of, has, lemma_lowercase_add, lemma_lowercase_upper, lines, lowercase,
    occurs_at, split_lines, text_contains, text_of, to_lowercase, trim, trimmed,
};
use vstd::prelude::*;

verus! {

/// One of the fragments stands in `s`.
pub open spec fn has_any(s: Seq<char>, needles: Seq<Seq<char>>) -> bool {
    exists|i: int| 0 <= i < needles.len() && has(s, #[trigger] needles[i])
}

/// The texts behind a slice of string slices.
pub open spec fn views(list: Seq<&str>) -> Seq<Seq<char>> {
    Seq::new(list.len(), |i: int| list[i]@)
}

/// Whether one of the fragments stands in `s`.
fn contains_any(s: &str, needles: &[&str]) -> (r: bool)
    ensures
        r == has_any(s@, views(needles@)),
{
    for i in 0..needles.len()
        invariant
            forall|j: int| 0 <= j < i ==> !(has(s@, #[trigger] views(needles@)[j])),
    {
        assert(views(needles@)[i as int] == needles@[i as int]@);
        if text_contains(s, needles[i]) {
            return true;
        }
    }
    false
}

// ── Kinds of signals ─────────────────────────────────────────────────────────

/// The kinds of signals, each with the fragments that tell of it.
pub open spec fn patterns() -> Seq<(Seq<char>, Seq<Seq<char>>)> {
    seq![
        ("OOM"@, seq!["oomkill"@, "exit 137"@, "killed"@]),
        ("error"@, seq!["error"@, "panic"@, "fatal"@]),
        (
            "ramp"@,
            seq!["subscrib"@, "partition batch"@, "dropping partition batch"@, "ramp"@],
        ),
        ("config"@, seq!["batcher_worker"@, "auto-tune"@, "auto.tun"@]),
        ("no_consumers"@, seq!["no_consumers"@]),
    ]
}

/// The kinds of signals, each with the fragments that tell of it.
pub fn signal_patterns() -> (r: &'static [(&'static str, &'static [&'static str])])
    ensures
        r@.len() == patterns().len(),
        forall|i: int|
            0 <= i < r@.len() ==> (#[trigger] r@[i]).0@ == patterns()[i].0 && views(r@[i].1@)
                == patterns()[i].1,
{
    let r: &'static [(&'static str, &'static [&'static str])] = &[
        ("OOM", &["oomkill", "exit 137", "killed"]),
        ("error", &["error", "panic", "fatal"]),
        ("ramp", &["subscrib", "partition batch", "dropping partition batch", "ramp"]),
        ("config", &["batcher_worker", "auto-tune", "auto.tun"]),
        ("no_consumers", &["no_consumers"]),
    ];
    assert(views(r@[0].1@) =~= patterns()[0].1);
    assert(views(r@[1].1@) =~= patterns()[1].1);
    assert(views(r@[2].1@) =~= patterns()[2].1);
    assert(views(r@[3].1@) =~= patterns()[3].1);
    assert(views(r@[4].1@) =~= patterns()[4].1);
    r
}

/// A signal as a value.
#[verifier::ext_equal]
pub struct SignalView {
    pub pod: Seq<char>,
    pub kind: Seq<char>,
    pub line: Seq<char>,
}

impl DeepView for LogSignal {
    type V = SignalView;

    open spec fn deep_view(&self) -> SignalView {
        SignalView { pod: self.pod@, kind: self.kind@, line: self.line@ }
    }
}

/// The signals of the given kinds in a line whose lower-case form is `lower`.
pub open spec fn signals_among(
    pod: Seq<char>,
    line: Seq<char>,
    lower: Seq<char>,
    kinds: Seq<(Seq<char>, Seq<Seq<char>>)>,
) -> Seq<SignalView>
    decreases kinds.len(),
{
    if kinds.len() == 0 {
        Seq::empty()
    } else {
        let rest = signals_among(pod, line, lower, kinds.drop_last());
        if has_any(lower, kinds.last().1) {
            rest.push(SignalView { pod, kind: kinds.last().0, line: trimmed(line) })
        } else {
            rest
        }
    }
}

/// The signals in the lines of a pod's log.
pub open spec fn signals_in(pod: Seq<char>, log: Seq<Seq<char>>) -> Seq<SignalView>
    decreases log.len(),
{
    if log.len() == 0 {
        Seq::empty()
    } else {
        signals_in(pod, log.drop_last()) + signals_among(
            pod,
            log.last(),
            lowercase(log.last()),
            patterns(),
        )
    }
}

/// The signals in one line, given its lower-case form: one for each kind that
/// it tells of.
pub fn line_signals(pod: &str, line: &str, lower: &str) -> (r: Vec<LogSignal>)
    ensures
        r.deep_view() == signals_among(pod@, line@, lower@, patterns()),
{
    let kinds = signal_patterns();
    let shown = text_of(trim(chars_of(line).as_slice()).as_slice());
    let mut r: Vec<LogSignal> = Vec::new();
    let ghost all = patterns();
    assert(r.deep_view() =~= signals_among(pod@, line@, lower@, all.take(0)));
    for i in 0..kinds.len()
        invariant
            all == patterns(),
            kinds@.len() == all.len(),
            forall|j: int|
                0 <= j < kinds@.len() ==> (#[trigger] kinds@[j]).0@ == all[j].0 && views(
                    kinds@[j].1@,
                ) == all[j].1,
            shown@ == trimmed(line@),
            r.deep_view() == signals_among(pod@, line@, lower@, all.take(i as int)),
    {
        let (kind, needles) = kinds[i];
        let ghost before = r.deep_view();
        assert(all.take(i + 1).drop_last() =~= all.take(i as int));
        assert(all.take(i + 1).last() == all[i as int]);
        assert(kinds@[i as int].0@ == all[i as int].0);
        if contains_any(lower, needles) {
            r.push(
                LogSignal {
                    pod: copy_of(pod),
                    kind: copy_of(kind),
                    line: copy_of(shown.as_str()),
                },
            );
            assert(r.deep_view() =~= before.push(
                SignalView { pod: pod@, kind: kind@, line: trimmed(line@) },
            ));
        }
    }
    assert(all.take(all.len() as int) =~= all);
    r
}

/// The signals in a pod's log: one for each line and each kind that the line
/// tells of.
pub fn scan_log_signals(pod: &str, log_text: &str) -> (r: Vec<LogSignal>)
    ensures
        r.deep_view() == signals_in(pod@, lines(log_text@)),
{
    let list = split_lines(chars_of(log_text).as_slice());
    let ghost all = list.deep_view();
    let mut r: Vec<LogSignal> = Vec::new();
    assert(r.deep_view() =~= signals_in(pod@, all.take(0)));
    for i in 0..list.len()
        invariant
            all == list.deep_view(),
            r.deep_view() == signals_in(pod@, all.take(i as int)),
    {
        let ghost before = r.deep_view();
        assert(all.take(i + 1).drop_last() =~= all.take(i as int));
        assert(all.take(i + 1).last() == list@[i as int]@);
        let line = list[i].as_str();
        let lower = to_lowercase(line);
        let mut found = line_signals(pod, line, lower.as_str());
        let ghost more = found.deep_view();
        r.append(&mut found);
        assert(r.deep_view() =~= before + more);
    }
    assert(all.take(all.len() as int) =~= all);
    r
}

// ── Alerts ───────────────────────────────────────────────────────────────────

/// Fragments that tell of rows lost to a dead-letter queue.
pub open spec fn transform_needles() -> Seq<Seq<char>> {
    seq![
        "capturing dropped rows to dlq"@,
        "transform/dq error"@,
        "datafusion error"@,
        "parsererror"@,
        "sql error"@,
        "dropped rows to dlq"@,
    ]
}

/// Fragments that tell of memory running out.
pub open spec fn memory_needles() -> Seq<Seq<char>> {
    seq!["oom kill imminent"@, "rss exceeds"@, "high memory warning"@, "memory pressure"@]
}

/// Fragments that tell of a consumer that reconnects.
pub open spec fn reconnect_needles() -> Seq<Seq<char>> {
    seq![
        "broker notification of closed consumer"@,
        "is not valid: disconnected"@,
        "unexpectedeof"@,
        "reconnecting"@,
        "reconnect"@,
    ]
}

/// A message in lower case that tells of rows backing up.
pub open spec fn tells_backpressure(lower: Seq<char>) -> bool {
    has(lower, "channel"@) && has(lower, "full"@) || has(lower, "backpressure"@) || has(
        lower,
        "throttle"@,
    )
}

/// Whether a message in lower case tells of rows lost to a dead-letter queue.
pub fn tells_transform_error(lower: &str) -> (r: bool)
    ensures
        r == has_any(lower@, transform_needles()),
{
    let needles = [
        "capturing dropped rows to dlq",
        "transform/dq error",
        "datafusion error",
        "parsererror",
        "sql error",
        "dropped rows to dlq",
    ];
    assert(views(needles@) =~= transform_needles());
    contains_any(lower, &needles)
}

/// Whether a message in lower case tells of memory running out.
pub fn tells_oom_warning(lower: &str) -> (r: bool)
    ensures
        r == has_any(lower@, memory_needles()),
{
    let needles = ["oom kill imminent", "rss exceeds", "high memory warning", "memory pressure"];
    assert(views(needles@) =~= memory_needles());
    contains_any(lower, &needles)
}

/// Whether a message in lower case tells of rows backing up.
pub fn tells_of_backpressure(lower: &str) -> (r: bool)
    ensures
        r == tells_backpressure(lower@),
{
    (text_contains(lower, "channel") && text_contains(lower, "full")) || text_contains(
        lower,
        "backpressure",
    ) || text_contains(lower, "throttle")
}

/// Whether a message in lower case tells of a consumer that reconnects.
pub fn tells_reconnect(lower: &str) -> (r: bool)
    ensures
        r == has_any(lower@, reconnect_needles()),
{
    let needles = [
        "broker notification of closed consumer",
        "is not valid: disconnected",
        "unexpectedeof",
        "reconnecting",
        "reconnect",
    ];
    assert(views(needles@) =~= reconnect_needles());
    contains_any(lower, &needles)
}

/// Whether a message tells of a transform error, or of rows diverted to a
/// dead-letter queue: data is lost while the pipeline reports to be healthy.
pub fn is_transform_error(message: &str) -> (r: bool)
    ensures
        r == has_any(lowercase(message@), transform_needles()),
{
    tells_transform_error(to_lowercase(message).as_str())
}

/// Whether a message warns that memory is running out, before the kernel kills
/// the pod.
pub fn is_oom_warning(message: &str) -> (r: bool)
    ensures
        r == has_any(lowercase(message@), memory_needles()),
{
    tells_oom_warning(to_lowercase(message).as_str())
}

/// Whether a message tells of backpressure: a channel that is nearly full, or a
/// throttle.
pub fn is_backpressure(message: &str) -> (r: bool)
    ensures
        r == tells_backpressure(lowercase(message@)),
{
    tells_of_backpressure(to_lowercase(message).as_str())
}

/// Whether a message tells of a consumer that reconnects.
pub fn is_reconnect(message: &str) -> (r: bool)
    ensures
        r == has_any(lowercase(message@), reconnect_needles()),
{
    tells_reconnect(to_lowercase(message).as_str())
}

/// From how many reconnects on there is a storm.
pub const STORM: usize = 10;

/// Whether so many reconnects are a storm rather than churn.
pub fn is_reconnect_storm(reconnects: usize) -> (r: bool)
    ensures
        r == (reconnects >= STORM),
{
    reconnects >= STORM
}

// ── Operational events ───────────────────────────────────────────────────────

/// Operational events: a fragment of a message, and what it is counted as.
pub open spec fn operations() -> Seq<(Seq<char>, Seq<char>)> {
    seq![
        ("success after"@, "subscribe ok"@),
        ("servicenotready"@, "subscribe failed (ServiceNotReady)"@),
        ("broker notification of closed consumer"@, "consumer closed by broker"@),
        ("could not close consumer"@, "consumer close failed"@),
        ("is not valid: disconnected"@, "disconnected"@),
        ("unexpectedeof"@, "TLS EOF"@),
        ("oomkill"@, "OOMKill"@),
        ("hash_salt is absent"@, "HASH_SALT absent"@),
    ]
}

/// What a message in lower case is counted as.
pub open spec fn operations_among(
    lower: Seq<char>,
    events: Seq<(Seq<char>, Seq<char>)>,
) -> Seq<Seq<char>>
    decreases events.len(),
{
    if events.len() == 0 {
        Seq::empty()
    } else {
        let rest = operations_among(lower, events.drop_last());
        if has(lower, events.last().0) {
            rest.push(events.last().1)
        } else {
            rest
        }
    }
}

/// The operational events as values.
fn operation_list() -> (r: &'static [(&'static str, &'static str)])
    ensures
        r@.len() == operations().len(),
        forall|i: int|
            0 <= i < r@.len() ==> (#[trigger] r@[i]).0@ == operations()[i].0 && r@[i].1@
                == operations()[i].1,
{
    &[
        ("success after", "subscribe ok"),
        ("servicenotready", "subscribe failed (ServiceNotReady)"),
        ("broker notification of closed consumer", "consumer closed by broker"),
        ("could not close consumer", "consumer close failed"),
        ("is not valid: disconnected", "disconnected"),
        ("unexpectedeof", "TLS EOF"),
        ("oomkill", "OOMKill"),
        ("hash_salt is absent", "HASH_SALT absent"),
    ]
}

/// What a message in lower case is counted as.
pub fn operational_events(lower: &str) -> (r: Vec<String>)
    ensures
        r.deep_view() == operations_among(lower@, operations()),
{
    let list = operation_list();
    let ghost all = operations();
    let mut r: Vec<String> = Vec::new();
    assert(r.deep_view() =~= operations_among(lower@, all.take(0)));
    for i in 0..list.len()
        invariant
            all == operations(),
            list@.len() == all.len(),
            forall|j: int|
                0 <= j < list@.len() ==> (#[trigger] list@[j]).0@ == all[j].0 && list@[j].1@
                    == all[j].1,
            r.deep_view() == operations_among(lower@, all.take(i as int)),
    {
        let (needle, label) = list[i];
        let ghost before = r.deep_view();
        assert(all.take(i + 1).drop_last() =~= all.take(i as int));
        assert(all.take(i + 1).last() == all[i as int]);
        assert(list@[i as int].0@ == all[i as int].0);
        if text_contains(lower, needle) {
            r.push(copy_of(label));
            assert(r.deep_view() =~= before.push(label@));
        }
    }
    assert(all.take(all.len() as int) =~= all);
    r
}

// ── Laws ─────────────────────────────────────────────────────────────────────

/// What stands in a text stands in it whatever is around the text.
proof fn lemma_has_within(a: Seq<char>, s: Seq<char>, b: Seq<char>, pat: Seq<char>)
    requires
        has(s, pat),
    ensures
        has(a + s + b, pat),
{
    let i = choose|i: int| #[trigger] occurs_at(s, pat, i);
    let t = a + s + b;
    let k = a.len() + i;
    assert(t.subrange(k, k + pat.len()) =~= s.subrange(i, i + pat.len()));
    assert(occurs_at(t, pat, k));
}

/// Text around a message never hides one of the fragments.
pub proof fn lemma_surroundings_irrelevant(
    a: Seq<char>,
    lower: Seq<char>,
    b: Seq<char>,
    needles: Seq<Seq<char>>,
)
    ensures
        has_any(lower, needles) ==> has_any(a + lower + b, needles),
        tells_backpressure(lower) ==> tells_backpressure(a + lower + b),
{
    if has_any(lower, needles) {
        let i = choose|i: int| 0 <= i < needles.len() && has(lower, #[trigger] needles[i]);
        lemma_has_within(a, lower, b, needles[i]);
    }
    if has(lower, "channel"@) {
        lemma_has_within(a, lower, b, "channel"@);
    }
    if has(lower, "full"@) {
        lemma_has_within(a, lower, b, "full"@);
    }
    if has(lower, "backpressure"@) {
        lemma_has_within(a, lower, b, "backpressure"@);
    }
    if has(lower, "throttle"@) {
        lemma_has_within(a, lower, b, "throttle"@);
    }
}

/// A message that tells of a transform error does so whatever text is around it
/// and in whatever case it is written.
pub proof fn lemma_transform_error_stable(a: Seq<char>, message: Seq<char>, b: Seq<char>)
    ensures
        has_any(lowercase(message), transform_needles()) ==> has_any(
            lowercase(a + message + b),
            transform_needles(),
        ),
        has_any(lowercase(ascii_upper(message)), transform_needles()) == has_any(
            lowercase(message),
            transform_needles(),
        ),
{
    lemma_signals_stable(a, message, b, transform_needles());
}

/// The same of any signal that is told by fragments, and of backpressure.
pub proof fn lemma_signals_stable(
    a: Seq<char>,
    message: Seq<char>,
    b: Seq<char>,
    needles: Seq<Seq<char>>,
)
    ensures
        has_any(lowercase(message), needles) ==> has_any(lowercase(a + message + b), needles),
        has_any(lowercase(ascii_upper(message)), needles) == has_any(lowercase(message), needles),
        tells_backpressure(lowercase(message)) ==> tells_backpressure(lowercase(a + message + b)),
        tells_backpressure(lowercase(ascii_upper(message))) == tells_backpressure(
            lowercase(message),
        ),
{
    lemma_lowercase_add(a + message, b);
    lemma_lowercase_add(a, message);
    lemma_surroundings_irrelevant(lowercase(a), lowercase(message), lowercase(b), needles);
    lemma_lowercase_upper(message);
}

/// Each of these fragments by itself tells of lost rows, and nothing else does.
pub proof fn lemma_transform_fragments(lower: Seq<char>)
    ensures
        has_any(lower, transform_needles()) <==> has(
            lower,
            "capturing dropped rows to dlq"@,
        ) || has(
            lower,
            "transform/dq error"@,
        ) || has(
            lower,
            "datafusion error"@,
        ) || has(
            lower,
            "parsererror"@,
        ) || has(
            lower,
            "sql error"@,
        ) || has(
            lower,
            "dropped rows to dlq"@,
        ),
{
    let list = transform_needles();
    assert(list[0] == "capturing dropped rows to dlq"@);
    assert(list[1] == "transform/dq error"@);
    assert(list[2] == "datafusion error"@);
    assert(list[3] == "parsererror"@);
    assert(list[4] == "sql error"@);
    assert(list[5] == "dropped rows to dlq"@);
    if has_any(lower, list) {
        let i = choose|i: int| 0 <= i < list.len() && has(lower, #[trigger] list[i]);
        assert(has(lower, list[i]));
    }
}

/// Each of these fragments by itself warns of memory running out, and nothing else
/// does.
pub proof fn lemma_memory_fragments(lower: Seq<char>)
    ensures
        has_any(lower, memory_needles()) <==> has(
            lower,
            "oom kill imminent"@,
        ) || has(
            lower,
            "rss exceeds"@,
        ) || has(
            lower,
            "high memory warning"@,
        ) || has(
            lower,
            "memory pressure"@,
        ),
{
    let list = memory_needles();
    assert(list[0] == "oom kill imminent"@);
    assert(list[1] == "rss exceeds"@);
    assert(list[2] == "high memory warning"@);
    assert(list[3] == "memory pressure"@);
    if has_any(lower, list) {
        let i = choose|i: int| 0 <= i < list.len() && has(lower, #[trigger] list[i]);
        assert(has(lower, list[i]));
    }
}

/// Each of these fragments by itself tells of a reconnect, and nothing else does.
pub proof fn lemma_reconnect_fragments(lower: Seq<char>)
    ensures
        has_any(lower, reconnect_needles()) <==> has(
            lower,
            "broker notification of closed consumer"@,
        ) || has(
            lower,
            "is not valid: disconnected"@,
        ) || has(
            lower,
            "unexpectedeof"@,
        ) || has(
            lower,
            "reconnecting"@,
        ) || has(
            lower,
            "reconnect"@,
        ),
{
    let list = reconnect_needles();
    assert(list[0] == "broker notification of closed consumer"@);
    assert(list[1] == "is not valid: disconnected"@);
    assert(list[2] == "unexpectedeof"@);
    assert(list[3] == "reconnecting"@);
    assert(list[4] == "reconnect"@);
    if has_any(lower, list) {
        let i = choose|i: int| 0 <= i < list.len() && has(lower, #[trigger] list[i]);
        assert(has(lower, list[i]));
    }
}

/// A channel that is full, a throttle or the word itself tells of backpressure.
pub proof fn lemma_backpressure_fragments(lower: Seq<char>)
    ensures
        has(lower, "channel"@) && has(lower, "full"@) ==> tells_backpressure(lower),
        has(lower, "backpressure"@) ==> tells_backpressure(lower),
        has(lower, "throttle"@) ==> tells_backpressure(lower),
        !(has(lower, "channel"@)) && !(has(lower, "backpressure"@)) && !(has(lower, "throttle"@))
            ==> !tells_backpressure(lower),
        !(has(lower, "full"@)) && !(has(lower, "backpressure"@)) && !(has(lower, "throttle"@))
            ==> !tells_backpressure(lower),
{
}

/// The events among a list that the message tells of: those whose fragment stands
/// in it.
proof fn lemma_operations_member(
    lower: Seq<char>,
    events: Seq<(Seq<char>, Seq<char>)>,
    label: Seq<char>,
)
    ensures
        operations_among(lower, events).contains(label) <==> exists|i: int|
            0 <= i < events.len() && (#[trigger] events[i]).1 == label && has(lower, events[i].0),
    decreases events.len(),
{
    let r = operations_among(lower, events);
    if events.len() > 0 {
        let rest = events.drop_last();
        let done = operations_among(lower, rest);
        lemma_operations_member(lower, rest, label);
        let n = events.len() - 1;
        if r.contains(label) {
            let k = choose|k: int| 0 <= k < r.len() && r[k] == label;
            if k < done.len() {
                assert(done[k] == label);
                let i = choose|i: int|
                    0 <= i < rest.len() && (#[trigger] rest[i]).1 == label && has(lower, rest[i].0);
                assert(events[i] == rest[i]);
            } else {
                assert(events[n].1 == label);
            }
        }
        if exists|i: int|
            0 <= i < events.len() && (#[trigger] events[i]).1 == label && has(lower, events[i].0) {
            let i = choose|i: int|
                0 <= i < events.len() && (#[trigger] events[i]).1 == label && has(
                    lower,
                    events[i].0,
                );
            if i < rest.len() {
                assert(rest[i] == events[i]);
                let k = choose|k: int| 0 <= k < done.len() && done[k] == label;
                assert(r[k] == label);
            } else {
                assert(r[r.len() - 1] == label);
            }
        }
    }
}

/// Which fragment is counted as which event.
pub proof fn lemma_operation_fragments(lower: Seq<char>)
    ensures
        has(lower, "success after"@) ==> operations_among(lower, operations()).contains(
            "subscribe ok"@,
        ),
        has(lower, "servicenotready"@) ==> operations_among(lower, operations()).contains(
            "subscribe failed (ServiceNotReady)"@,
        ),
        has(lower, "broker notification of closed consumer"@) ==> operations_among(lower, operations()).contains(
            "consumer closed by broker"@,
        ),
        has(lower, "could not close consumer"@) ==> operations_among(lower, operations()).contains(
            "consumer close failed"@,
        ),
        has(lower, "is not valid: disconnected"@) ==> operations_among(lower, operations()).contains(
            "disconnected"@,
        ),
        has(lower, "unexpectedeof"@) ==> operations_among(lower, operations()).contains(
            "TLS EOF"@,
        ),
        has(lower, "oomkill"@) ==> operations_among(lower, operations()).contains(
            "OOMKill"@,
        ),
        has(lower, "hash_salt is absent"@) ==> operations_among(lower, operations()).contains(
            "HASH_SALT absent"@,
        ),
        forall|label: Seq<char>| #[trigger]
            operations_among(lower, operations()).contains(label) ==> {
                ||| label == "subscribe ok"@ && has(lower, "success after"@)
                ||| label == "subscribe failed (ServiceNotReady)"@ && has(lower, "servicenotready"@)
                ||| label == "consumer closed by broker"@ && has(lower, "broker notification of closed consumer"@)
                ||| label == "consumer close failed"@ && has(lower, "could not close consumer"@)
                ||| label == "disconnected"@ && has(lower, "is not valid: disconnected"@)
                ||| label == "TLS EOF"@ && has(lower, "unexpectedeof"@)
                ||| label == "OOMKill"@ && has(lower, "oomkill"@)
                ||| label == "HASH_SALT absent"@ && has(lower, "hash_salt is absent"@)
            },
{
    let list = operations();
    assert(list[0] == ("success after"@, "subscribe ok"@));
    lemma_operations_member(lower, list, "subscribe ok"@);
    assert(list[1] == ("servicenotready"@, "subscribe failed (ServiceNotReady)"@));
    lemma_operations_member(lower, list, "subscribe failed (ServiceNotReady)"@);
    assert(list[2] == ("broker notification of closed consumer"@, "consumer closed by broker"@));
    lemma_operations_member(lower, list, "consumer closed by broker"@);
    assert(list[3] == ("could not close consumer"@, "consumer close failed"@));
    lemma_operations_member(lower, list, "consumer close failed"@);
    assert(list[4] == ("is not valid: disconnected"@, "disconnected"@));
    lemma_operations_member(lower, list, "disconnected"@);
    assert(list[5] == ("unexpectedeof"@, "TLS EOF"@));
    lemma_operations_member(lower, list, "TLS EOF"@);
    assert(list[6] == ("oomkill"@, "OOMKill"@));
    lemma_operations_member(lower, list, "OOMKill"@);
    assert(list[7] == ("hash_salt is absent"@, "HASH_SALT absent"@));
    lemma_operations_member(lower, list, "HASH_SALT absent"@);
    assert forall|label: Seq<char>| #[trigger] operations_among(lower, list).contains(
        label,
    ) implies exists|i: int|
        0 <= i < list.len() && (#[trigger] list[i]).1 == label && has(lower, list[i].0) by {
        lemma_operations_member(lower, list, label);
    }
}

/// The signals among kinds: one for each kind of which a fragment stands in the
/// line.
proof fn lemma_signals_member(
    pod: Seq<char>,
    line: Seq<char>,
    lower: Seq<char>,
    kinds: Seq<(Seq<char>, Seq<Seq<char>>)>,
    x: SignalView,
)
    ensures
        signals_among(pod, line, lower, kinds).contains(x) <==> x.pod == pod && x.line == trimmed(
            line,
        ) && exists|i: int|
            0 <= i < kinds.len() && (#[trigger] kinds[i]).0 == x.kind && has_any(lower, kinds[i].1),
    decreases kinds.len(),
{
    let r = signals_among(pod, line, lower, kinds);
    if kinds.len() > 0 {
        let rest = kinds.drop_last();
        let done = signals_among(pod, line, lower, rest);
        lemma_signals_member(pod, line, lower, rest, x);
        let n = kinds.len() - 1;
        if r.contains(x) {
            let k = choose|k: int| 0 <= k < r.len() && r[k] == x;
            if k < done.len() {
                assert(done[k] == x);
                let i = choose|i: int|
                    0 <= i < rest.len() && (#[trigger] rest[i]).0 == x.kind && has_any(
                        lower,
                        rest[i].1,
                    );
                assert(kinds[i] == rest[i]);
            } else {
                assert(kinds[n].0 == x.kind);
            }
        }
        if x.pod == pod && x.line == trimmed(line) && exists|i: int|
            0 <= i < kinds.len() && (#[trigger] kinds[i]).0 == x.kind && has_any(lower, kinds[i].1) {
            let i = choose|i: int|
                0 <= i < kinds.len() && (#[trigger] kinds[i]).0 == x.kind && has_any(
                    lower,
                    kinds[i].1,
                );
            if i < rest.len() {
                assert(rest[i] == kinds[i]);
                let k = choose|k: int| 0 <= k < done.len() && done[k] == x;
                assert(r[k] == x);
            } else {
                assert(r[r.len() - 1] =~= x);
            }
        }
    }
}

/// Which fragments of a line make it a signal of which kind. A signal tells the
/// pod and the line without the whitespace around it.
pub proof fn lemma_signal_kinds(pod: Seq<char>, line: Seq<char>, x: SignalView)
    ensures
        signals_in(pod, seq![line]).contains(x) <==> x.pod == pod && x.line == trimmed(line) && {
            let lower = lowercase(line);
            ||| x.kind == "OOM"@ && (has(lower, "oomkill"@) || has(lower, "exit 137"@) || has(lower, "killed"@))
            ||| x.kind == "error"@ && (has(lower, "error"@) || has(lower, "panic"@) || has(lower, "fatal"@))
            ||| x.kind == "ramp"@ && (has(lower, "subscrib"@) || has(lower, "partition batch"@) || has(lower, "dropping partition batch"@) || has(lower, "ramp"@))
            ||| x.kind == "config"@ && (has(lower, "batcher_worker"@) || has(lower, "auto-tune"@) || has(lower, "auto.tun"@))
            ||| x.kind == "no_consumers"@ && (has(lower, "no_consumers"@))
        },
{
    let lower = lowercase(line);
    let kinds = patterns();
    lemma_signals_member(pod, line, lower, kinds, x);
    assert(seq![line].drop_last() =~= Seq::empty());
    assert(seq![line].last() == line);
    reveal_with_fuel(signals_in, 2);
    assert(signals_in(pod, seq![line]) =~= signals_among(pod, line, lower, kinds));
    assert(kinds[0].0 == "OOM"@);
    assert(kinds[0].1[0] == "oomkill"@);
    assert(kinds[0].1[1] == "exit 137"@);
    assert(kinds[0].1[2] == "killed"@);
    assert(has_any(lower, kinds[0].1) <==> (has(lower, "oomkill"@) || has(lower, "exit 137"@) || has(lower, "killed"@))) by {
        let list = kinds[0].1;
        if has_any(lower, list) {
            let j = choose|j: int| 0 <= j < list.len() && has(lower, #[trigger] list[j]);
            assert(has(lower, list[j]));
        }
    }
    assert(kinds[1].0 == "error"@);
    assert(kinds[1].1[0] == "error"@);
    assert(kinds[1].1[1] == "panic"@);
    assert(kinds[1].1[2] == "fatal"@);
    assert(has_any(lower, kinds[1].1) <==> (has(lower, "error"@) || has(lower, "panic"@) || has(lower, "fatal"@))) by {
        let list = kinds[1].1;
        if has_any(lower, list) {
            let j = choose|j: int| 0 <= j < list.len() && has(lower, #[trigger] list[j]);
            assert(has(lower, list[j]));
        }
    }
    assert(kinds[2].0 == "ramp"@);
    assert(kinds[2].1[0] == "subscrib"@);
    assert(kinds[2].1[1] == "partition batch"@);
    assert(kinds[2].1[2] == "dropping partition batch"@);
    assert(kinds[2].1[3] == "ramp"@);
    assert(has_any(lower, kinds[2].1) <==> (has(lower, "subscrib"@) || has(lower, "partition batch"@) || has(lower, "dropping partition batch"@) || has(lower, "ramp"@))) by {
        let list = kinds[2].1;
        if has_any(lower, list) {
            let j = choose|j: int| 0 <= j < list.len() && has(lower, #[trigger] list[j]);
            assert(has(lower, list[j]));
        }
    }
    assert(kinds[3].0 == "config"@);
    assert(kinds[3].1[0] == "batcher_worker"@);
    assert(kinds[3].1[1] == "auto-tune"@);
    assert(kinds[3].1[2] == "auto.tun"@);
    assert(has_any(lower, kinds[3].1) <==> (has(lower, "batcher_worker"@) || has(lower, "auto-tune"@) || has(lower, "auto.tun"@))) by {
        let list = kinds[3].1;
        if has_any(lower, list) {
            let j = choose|j: int| 0 <= j < list.len() && has(lower, #[trigger] list[j]);
            assert(has(lower, list[j]));
        }
    }
    assert(kinds[4].0 == "no_consumers"@);
    assert(kinds[4].1[0] == "no_consumers"@);
    assert(has_any(lower, kinds[4].1) <==> (has(lower, "no_consumers"@))) by {
        let list = kinds[4].1;
        if has_any(lower, list) {
            let j = choose|j: int| 0 <= j < list.len() && has(lower, #[trigger] list[j]);
            assert(has(lower, list[j]));
        }
    }
}

/// The signals of a log are those of its parts, one after the other.
pub proof fn lemma_signals_add_up(pod: Seq<char>, a: Seq<Seq<char>>, b: Seq<Seq<char>>)
    ensures
        signals_in(pod, a + b) == signals_in(pod, a) + signals_in(pod, b),
    decreases b.len(),
{
    if b.len() == 0 {
        assert(a + b =~= a);
        assert(signals_in(pod, a) + signals_in(pod, b) =~= signals_in(pod, a));
    } else {
        lemma_signals_add_up(pod, a, b.drop_last());
        assert((a + b).drop_last() =~= a + b.drop_last());
        assert((a + b).last() == b.last());
        assert(signals_in(pod, a + b) =~= signals_in(pod, a) + signals_in(pod, b));
    }
}

} // verus!
