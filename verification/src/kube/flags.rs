//! Pods whose logs show a signal.

use crate::kube::json::{document, parse_document, JsonEntry, JsonEntryView};
use crate::kube::logs::{field_text, get_field_text};
use crate::kube::signals::{
    has_any, is_oom_warning, is_transform_error, memory_needles, transform_needles,
};
use crate::kube::{lemma_push_contains, PodLogs};
use crate::text::{copy_of, lowercase};
use vstd::prelude::*;

verus! {

/// The message of a log line: what its field says, or the line itself.
pub open spec fn message_in(doc: Option<Seq<JsonEntryView>>, line: Seq<char>) -> Seq<char> {
    match doc {
        Some(d) => match field_text(d, "message"@) {
            Some(t) => t,
            None => line,
        },
        None => line,
    }
}

/// The message of a log line, given the document that it is.
pub fn document_message(doc: &Option<Vec<JsonEntry>>, line: &str) -> (r: String)
    ensures
        r@ == message_in(doc.deep_view(), line@),
{
    match doc {
        Some(d) => match get_field_text(d, "message") {
            Some(t) => t,
            None => copy_of(line),
        },
        None => copy_of(line),
    }
}

/// The message of a log line: what its field says, or the line itself.
pub fn line_message(line: &str) -> (r: String)
    ensures
        r@ == message_in(document(line@), line@),
{
    document_message(&parse_document(line), line)
}

/// `pred` answers `answer` on a text that reads `s`.
pub open spec fn answers<F: Fn(&str) -> bool>(pred: F, s: Seq<char>, answer: bool) -> bool {
    exists|t: &str| t@ == s && #[trigger] call_ensures(pred, (t,), answer)
}

/// `pred` answers yes on one of the messages, where `flag` is set, and no on all
/// of them, where it is not.
pub open spec fn flagged_by<F: Fn(&str) -> bool>(pred: F, lines: Seq<String>, flag: bool) -> bool {
    if flag {
        exists|j: int|
            0 <= j < lines.len() && answers(
                pred,
                message_in(document(lines[j]@), (#[trigger] lines[j])@),
                true,
            )
    } else {
        forall|j: int|
            0 <= j < lines.len() ==> answers(
                pred,
                message_in(document(lines[j]@), (#[trigger] lines[j])@),
                false,
            )
    }
}

/// The names of the pods whose flag is set.
pub open spec fn chosen(logs: Seq<PodLogs>, flags: Seq<bool>) -> Seq<Seq<char>>
    decreases logs.len(),
{
    if logs.len() == 0 {
        Seq::empty()
    } else {
        let rest = chosen(logs.drop_last(), flags.drop_last());
        if flags.last() {
            rest.push(logs.last().pod@)
        } else {
            rest
        }
    }
}

/// Whether `pred` answers yes on the message of one of the lines.
fn any_line<F: Fn(&str) -> bool>(lines: &Vec<String>, pred: &F) -> (r: bool)
    requires
        forall|t: &str| call_requires(*pred, (t,)),
    ensures
        flagged_by(*pred, lines@, r),
{
    for i in 0..lines.len()
        invariant
            forall|t: &str| call_requires(*pred, (t,)),
            forall|j: int|
                0 <= j < i ==> answers(
                    *pred,
                    message_in(document(lines@[j]@), (#[trigger] lines@[j])@),
                    false,
                ),
    {
        let message = line_message(lines[i].as_str());
        let t = message.as_str();
        let yes = pred(t);
        assert(t@ == message_in(document(lines@[i as int]@), lines@[i as int]@));
        assert(answers(*pred, t@, yes));
        if yes {
            return true;
        }
    }
    false
}

/// The names of the pods one of whose recent messages `pred` accepts.
pub fn pods_matching<F: Fn(&str) -> bool>(pod_logs: &Vec<PodLogs>, pred: F) -> (r: Vec<String>)
    requires
        forall|t: &str| call_requires(pred, (t,)),
    ensures
        exists|flags: Seq<bool>|
            flags.len() == pod_logs@.len() && r.deep_view() == #[trigger] chosen(pod_logs@, flags)
                && forall|i: int|
                0 <= i < flags.len() ==> flagged_by(pred, pod_logs@[i].lines@, #[trigger] flags[i]),
{
    let mut r: Vec<String> = Vec::new();
    let ghost mut flags: Seq<bool> = Seq::empty();
    assert(r.deep_view() =~= Seq::empty());
    for i in 0..pod_logs.len()
        invariant
            forall|t: &str| call_requires(pred, (t,)),
            flags.len() == i,
            r.deep_view() == chosen(pod_logs@.take(i as int), flags),
            forall|j: int|
                0 <= j < flags.len() ==> flagged_by(pred, pod_logs@[j].lines@, #[trigger] flags[j]),
    {
        let yes = any_line(&pod_logs[i].lines, &pred);
        let ghost before = r.deep_view();
        let ghost earlier = flags;
        proof {
            flags = flags.push(yes);
            assert(flags.drop_last() =~= earlier);
            assert(pod_logs@.take(i + 1).drop_last() =~= pod_logs@.take(i as int));
            assert forall|j: int| 0 <= j < flags.len() implies flagged_by(
                pred,
                pod_logs@[j].lines@,
                #[trigger] flags[j],
            ) by {
                if j < i {
                    assert(flags[j] == earlier[j]);
                }
            }
        }
        if yes {
            r.push(copy_of(pod_logs[i].pod.as_str()));
            assert(r.deep_view() =~= before.push(pod_logs@[i as int].pod@));
        }
    }
    assert(pod_logs@.take(pod_logs@.len() as int) =~= pod_logs@);
    assert(r.deep_view() == chosen(pod_logs@, flags));
    r
}

/// One of the messages, in lower case, has one of the fragments.
pub open spec fn tells_any(lines: Seq<String>, needles: Seq<Seq<char>>) -> bool {
    exists|j: int|
        0 <= j < lines.len() && has_any(
            lowercase(message_in(document(lines[j]@), (#[trigger] lines[j])@)),
            needles,
        )
}

/// The names of the pods one of whose messages has one of the fragments.
pub open spec fn pods_telling(logs: Seq<PodLogs>, needles: Seq<Seq<char>>) -> Seq<Seq<char>>
    decreases logs.len(),
{
    if logs.len() == 0 {
        Seq::empty()
    } else {
        let rest = pods_telling(logs.drop_last(), needles);
        if tells_any(logs.last().lines@, needles) {
            rest.push(logs.last().pod@)
        } else {
            rest
        }
    }
}

/// Flags that say which pods tell of something choose those pods.
proof fn lemma_chosen(logs: Seq<PodLogs>, flags: Seq<bool>, needles: Seq<Seq<char>>)
    requires
        flags.len() == logs.len(),
        forall|i: int| 0 <= i < logs.len() ==> #[trigger] flags[i] == tells_any(logs[i].lines@, needles),
    ensures
        chosen(logs, flags) == pods_telling(logs, needles),
    decreases logs.len(),
{
    if logs.len() > 0 {
        let a = logs.drop_last();
        let b = flags.drop_last();
        assert forall|i: int| 0 <= i < a.len() implies #[trigger] b[i] == tells_any(
            a[i].lines@,
            needles,
        ) by {
            assert(b[i] == flags[i]);
        }
        lemma_chosen(a, b, needles);
        assert(flags[flags.len() - 1] == tells_any(logs[logs.len() - 1].lines@, needles));
    }
}

/// Where `pred` looks for the fragments, the flags that it sets say which pods
/// tell of them.
proof fn lemma_flags<F: Fn(&str) -> bool>(
    pred: F,
    logs: Seq<PodLogs>,
    flags: Seq<bool>,
    needles: Seq<Seq<char>>,
)
    requires
        flags.len() == logs.len(),
        forall|t: &str, yes: bool| #[trigger]
            call_ensures(pred, (t,), yes) ==> yes == has_any(lowercase(t@), needles),
        forall|i: int|
            0 <= i < flags.len() ==> flagged_by(pred, logs[i].lines@, #[trigger] flags[i]),
    ensures
        chosen(logs, flags) == pods_telling(logs, needles),
{
    assert forall|i: int| 0 <= i < flags.len() implies #[trigger] flags[i] == tells_any(
        logs[i].lines@,
        needles,
    ) by {
        let lines = logs[i].lines@;
        assert(flagged_by(pred, lines, flags[i]));
        if flags[i] {
            let j = choose|j: int|
                0 <= j < lines.len() && answers(
                    pred,
                    message_in(document(lines[j]@), (#[trigger] lines[j])@),
                    true,
                );
            assert(has_any(lowercase(message_in(document(lines[j]@), lines[j]@)), needles));
        } else {
            assert forall|j: int| 0 <= j < lines.len() implies !has_any(
                lowercase(message_in(document(lines[j]@), (#[trigger] lines[j])@)),
                needles,
            ) by {
                assert(answers(pred, message_in(document(lines[j]@), lines[j]@), false));
            }
        }
    }
    lemma_chosen(logs, flags, needles);
}

/// The names of the pods whose recent logs tell of a transform error, so that
/// they can be marked.
pub fn pods_with_transform_errors(pod_logs: &Vec<PodLogs>) -> (r: Vec<String>)
    ensures
        r.deep_view() == pods_telling(pod_logs@, transform_needles()),
{
    let r = pods_matching(pod_logs, is_transform_error);
    proof {
        let flags = choose|flags: Seq<bool>|
            flags.len() == pod_logs@.len() && r.deep_view() == #[trigger] chosen(pod_logs@, flags)
                && forall|i: int|
                0 <= i < flags.len() ==> flagged_by(
                    is_transform_error,
                    pod_logs@[i].lines@,
                    #[trigger] flags[i],
                );
        lemma_flags(is_transform_error, pod_logs@, flags, transform_needles());
    }
    r
}

/// The names of the pods whose recent logs warn that memory runs out.
pub fn pods_with_memory_warnings(pod_logs: &Vec<PodLogs>) -> (r: Vec<String>)
    ensures
        r.deep_view() == pods_telling(pod_logs@, memory_needles()),
{
    let r = pods_matching(pod_logs, is_oom_warning);
    proof {
        let flags = choose|flags: Seq<bool>|
            flags.len() == pod_logs@.len() && r.deep_view() == #[trigger] chosen(pod_logs@, flags)
                && forall|i: int|
                0 <= i < flags.len() ==> flagged_by(
                    is_oom_warning,
                    pod_logs@[i].lines@,
                    #[trigger] flags[i],
                );
        lemma_flags(is_oom_warning, pod_logs@, flags, memory_needles());
    }
    r
}

/// The message is what the field says, where it says anything, and else the line.
pub proof fn lemma_message_in(doc: Seq<JsonEntryView>, line: Seq<char>)
    ensures
        message_in(None, line) == line,
        field_text(doc, "message"@) matches Some(t) ==> message_in(Some(doc), line) == t,
        field_text(doc, "message"@) is None ==> message_in(Some(doc), line) == line,
{
}

/// A pod is named exactly where the message of one of its lines has one of the
/// fragments.
pub proof fn lemma_pods_telling(logs: Seq<PodLogs>, needles: Seq<Seq<char>>, pod: Seq<char>)
    ensures
        pods_telling(logs, needles).contains(pod) <==> exists|i: int, j: int|
            0 <= i < logs.len() && 0 <= j < logs[i].lines@.len() && logs[i].pod@ == pod && has_any(
                lowercase(
                    message_in(document(logs[i].lines@[j]@), (#[trigger] logs[i].lines@[j])@),
                ),
                needles,
            ),
    decreases logs.len(),
{
    if logs.len() > 0 {
        let rest = logs.drop_last();
        let n = logs.len() - 1;
        let done = pods_telling(rest, needles);
        lemma_pods_telling(rest, needles, pod);
        lemma_push_contains(done, logs[n].pod@, pod);
        if done.contains(pod) {
            let (i, j) = choose|i: int, j: int|
                0 <= i < rest.len() && 0 <= j < rest[i].lines@.len() && rest[i].pod@ == pod
                    && has_any(
                    lowercase(
                        message_in(document(rest[i].lines@[j]@), (#[trigger] rest[i].lines@[j])@),
                    ),
                    needles,
                );
            assert(logs[i].lines@[j] == rest[i].lines@[j]);
        }
        if tells_any(logs[n].lines@, needles) && logs[n].pod@ == pod {
            let j = choose|j: int|
                0 <= j < logs[n].lines@.len() && has_any(
                    lowercase(
                        message_in(document(logs[n].lines@[j]@), (#[trigger] logs[n].lines@[j])@),
                    ),
                    needles,
                );
            assert(logs[n].lines@[j] == logs[n].lines@[j]);
        }
        if exists|i: int, j: int|
            0 <= i < logs.len() && 0 <= j < logs[i].lines@.len() && logs[i].pod@ == pod && has_any(
                lowercase(
                    message_in(document(logs[i].lines@[j]@), (#[trigger] logs[i].lines@[j])@),
                ),
                needles,
            ) {
            let (i, j) = choose|i: int, j: int|
                0 <= i < logs.len() && 0 <= j < logs[i].lines@.len() && logs[i].pod@ == pod
                    && has_any(
                    lowercase(
                        message_in(document(logs[i].lines@[j]@), (#[trigger] logs[i].lines@[j])@),
                    ),
                    needles,
                );
            if i < n {
                assert(rest[i].lines@[j] == logs[i].lines@[j]);
            } else {
                assert(tells_any(logs[n].lines@, needles));
            }
        }
    }
}

} // verus!
