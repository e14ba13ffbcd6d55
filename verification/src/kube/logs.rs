//! Reading the log lines of pods, and what they add up to.

use crate::kube::json::{document, parse_document, JsonEntry, JsonEntryView, JsonValue, JsonValueView};
use crate::text::{cat2, cat3, cat4, chars_of, copy_of, same, slice_of, text_of};
use vstd::prelude::*;

verus! {

// ── Members of a line ────────────────────────────────────────────────────────

/// The member `name` of a document.
pub open spec fn entry(doc: Seq<JsonEntryView>, name: Seq<char>) -> Option<JsonEntryView>
    decreases doc.len(),
{
    if doc.len() == 0 {
        None
    } else if doc[0].name == name {
        Some(doc[0])
    } else {
        entry(doc.drop_first(), name)
    }
}

/// The member `name` of an object.
pub open spec fn member(object: Seq<(Seq<char>, JsonValueView)>, name: Seq<char>) -> Option<
    JsonValueView,
>
    decreases object.len(),
{
    if object.len() == 0 {
        None
    } else if object[0].0 == name {
        Some(object[0].1)
    } else {
        member(object.drop_first(), name)
    }
}

/// The string under `name` in a document.
pub open spec fn text_under(doc: Seq<JsonEntryView>, name: Seq<char>) -> Option<Seq<char>> {
    match entry(doc, name) {
        Some(e) => e.value.text,
        None => None,
    }
}

/// The fields of a log line, where it has any.
pub open spec fn fields(doc: Seq<JsonEntryView>) -> Option<Seq<(Seq<char>, JsonValueView)>> {
    match entry(doc, "fields"@) {
        Some(e) => e.members,
        None => None,
    }
}

/// The field `name` of a log line.
pub open spec fn field(doc: Seq<JsonEntryView>, name: Seq<char>) -> Option<JsonValueView> {
    match fields(doc) {
        Some(object) => member(object, name),
        None => None,
    }
}

/// What the field `name` of a log line says, where it is a string.
pub open spec fn field_text(doc: Seq<JsonEntryView>, name: Seq<char>) -> Option<Seq<char>> {
    match field(doc, name) {
        Some(v) => v.text,
        None => None,
    }
}

/// The text, or none.
pub open spec fn or_empty(s: Option<Seq<char>>) -> Seq<char> {
    match s {
        Some(t) => t,
        None => ""@,
    }
}

/// Find a member of a document.
fn find_entry<'a>(doc: &'a Vec<JsonEntry>, name: &str) -> (r: Option<&'a JsonEntry>)
    ensures
        match r {
            Some(e) => entry(doc.deep_view(), name@) == Some(e.deep_view()),
            None => entry(doc.deep_view(), name@) is None,
        },
{
    let ghost all = doc.deep_view();
    assert(all.skip(0) =~= all);
    for i in 0..doc.len()
        invariant
            all == doc.deep_view(),
            entry(all, name@) == entry(all.skip(i as int), name@),
    {
        assert(all.skip(i as int)[0] == doc@[i as int].deep_view());
        assert(all.skip(i as int).drop_first() =~= all.skip(i + 1));
        if same(doc[i].name.as_str(), name) {
            return Some(&doc[i]);
        }
    }
    assert(all.skip(all.len() as int) =~= Seq::empty());
    None
}

/// Find a member of an object.
fn find_member<'a>(object: &'a Vec<(String, JsonValue)>, name: &str) -> (r: Option<&'a JsonValue>)
    ensures
        match r {
            Some(v) => member(object.deep_view(), name@) == Some(v.deep_view()),
            None => member(object.deep_view(), name@) is None,
        },
{
    let ghost all = object.deep_view();
    assert(all.skip(0) =~= all);
    for i in 0..object.len()
        invariant
            all == object.deep_view(),
            member(all, name@) == member(all.skip(i as int), name@),
    {
        assert(all.skip(i as int)[0] == (object@[i as int].0@, object@[i as int].1.deep_view()));
        assert(all.skip(i as int).drop_first() =~= all.skip(i + 1));
        if same(object[i].0.as_str(), name) {
            return Some(&object[i].1);
        }
    }
    assert(all.skip(all.len() as int) =~= Seq::empty());
    None
}

/// A copy of an optional text.
pub fn copied(s: &Option<String>) -> (r: Option<String>)
    ensures
        r.deep_view() == s.deep_view(),
{
    match s {
        Some(t) => Some(copy_of(t.as_str())),
        None => None,
    }
}

/// The string under `name` in a document.
pub fn get_text(doc: &Vec<JsonEntry>, name: &str) -> (r: Option<String>)
    ensures
        r.deep_view() == text_under(doc.deep_view(), name@),
{
    match find_entry(doc, name) {
        Some(e) => copied(&e.value.text),
        None => None,
    }
}

/// The field `name` of a log line.
pub fn get_field<'a>(doc: &'a Vec<JsonEntry>, name: &str) -> (r: Option<&'a JsonValue>)
    ensures
        match r {
            Some(v) => field(doc.deep_view(), name@) == Some(v.deep_view()),
            None => field(doc.deep_view(), name@) is None,
        },
{
    match find_entry(doc, "fields") {
        Some(e) => match &e.members {
            Some(object) => find_member(object, name),
            None => None,
        },
        None => None,
    }
}

/// What the field `name` of a log line says.
pub fn get_field_text(doc: &Vec<JsonEntry>, name: &str) -> (r: Option<String>)
    ensures
        r.deep_view() == field_text(doc.deep_view(), name@),
{
    match get_field(doc, name) {
        Some(v) => copied(&v.text),
        None => None,
    }
}

/// The text, or none.
pub fn get_or_empty(s: Option<String>) -> (r: String)
    ensures
        r@ == or_empty(s.deep_view()),
{
    match s {
        Some(t) => t,
        None => copy_of(""),
    }
}

// ── One line for a reader ────────────────────────────────────────────────────

/// `s`, or its start and an ellipsis where it has more than `max` characters.
pub open spec fn truncated(s: Seq<char>, max: int) -> Seq<char> {
    if s.len() <= max {
        s
    } else {
        s.take(if max > 0 {
            max - 1
        } else {
            0
        }) + "…"@
    }
}

/// `s` with spaces behind it, up to five characters.
pub open spec fn in_five(s: Seq<char>) -> Seq<char> {
    if s.len() < 5 {
        s + Seq::new((5 - s.len()) as nat, |i: int| ' ')
    } else {
        s
    }
}

/// A log line in short: its level and its message, or the line as it is where
/// it is not JSON.
pub open spec fn short_line(doc: Option<Seq<JsonEntryView>>, line: Seq<char>, max: int) -> Seq<
    char,
> {
    match doc {
        None => truncated(line, max),
        Some(d) => {
            let level = or_empty(text_under(d, "level"@));
            let message = or_empty(field_text(d, "message"@));
            truncated(
                if level.len() == 0 {
                    message
                } else {
                    in_five(level) + " "@ + message
                },
                max,
            )
        },
    }
}

/// `s`, or its start and an ellipsis where it has more than `max_len`
/// characters.
pub fn truncate_str(s: &str, max_len: usize) -> (r: String)
    ensures
        r@ == truncated(s@, max_len as int),
{
    let v = chars_of(s);
    if v.len() <= max_len {
        return copy_of(s);
    }
    let keep: usize = if max_len > 0 { max_len - 1 } else { 0 };
    let head = slice_of(v.as_slice(), 0, keep);
    assert(head@ =~= v@.take(keep as int));
    cat2(text_of(head.as_slice()).as_str(), "…")
}

/// `s` with spaces behind it, up to five characters.
fn pad_to_five(s: &str) -> (r: String)
    ensures
        r@ == in_five(s@),
{
    let mut r = copy_of(s);
    let n: usize = chars_of(s).len();
    let mut i: usize = n;
    assert(r@ =~= s@ + Seq::new(0, |i: int| ' '));
    while i < 5
        invariant
            n == s@.len(),
            n <= i,
            n < 5 ==> i <= 5,
            n < 5 ==> r@ == s@ + Seq::new((i - n) as nat, |i: int| ' '),
            n >= 5 ==> r@ == s@,
        decreases 5 - i,
    {
        r.push(' ');
        i = i + 1;
        assert(r@ =~= s@ + Seq::new((i - n) as nat, |i: int| ' '));
    }
    r
}

/// A log line in short, given the document that it is.
pub fn document_summary(doc: &Option<Vec<JsonEntry>>, line: &str, max_len: usize) -> (r: String)
    ensures
        r@ == short_line(doc.deep_view(), line@, max_len as int),
{
    match doc {
        None => truncate_str(line, max_len),
        Some(d) => {
            let level = get_or_empty(get_text(d, "level"));
            let message = get_or_empty(get_field_text(d, "message"));
            if chars_of(level.as_str()).len() == 0 {
                truncate_str(message.as_str(), max_len)
            } else {
                let whole = cat3(pad_to_five(level.as_str()).as_str(), " ", message.as_str());
                truncate_str(whole.as_str(), max_len)
            }
        },
    }
}

/// A log line in short: its level and its message, or the line as it is where
/// it is not JSON.
pub fn log_line_summary(line: &str, max_len: usize) -> (r: String)
    ensures
        r@ == short_line(document(line@), line@, max_len as int),
{
    document_summary(&parse_document(line), line, max_len)
}

/// A line for a text that is there.
pub open spec fn labelled(label: Seq<char>, s: Option<Seq<char>>) -> Seq<Seq<char>> {
    match s {
        Some(t) => seq![label + t],
        None => Seq::empty(),
    }
}

/// A JSON value for a reader: a string without its quotes.
pub open spec fn scalar(v: JsonValueView) -> Seq<char> {
    match v.text {
        Some(t) => t,
        None => v.shown,
    }
}

/// A line for each field but the message and the error.
pub open spec fn other_fields(object: Seq<(Seq<char>, JsonValueView)>) -> Seq<Seq<char>>
    decreases object.len(),
{
    if object.len() == 0 {
        Seq::empty()
    } else {
        let rest = other_fields(object.drop_last());
        let (name, value) = object.last();
        if name == "message"@ || name == "error"@ {
            rest
        } else {
            rest.push("  "@ + name + ": "@ + scalar(value))
        }
    }
}

/// A log line in full: what it says under each of its members, the message and
/// the error first.
pub open spec fn long_lines(doc: Option<Seq<JsonEntryView>>, line: Seq<char>) -> Seq<Seq<char>> {
    match doc {
        None => seq![line],
        Some(d) => labelled("timestamp: "@, text_under(d, "timestamp"@)) + labelled(
            "level:     "@,
            text_under(d, "level"@),
        ) + labelled("target:    "@, text_under(d, "target"@)) + (match fields(d) {
            None => Seq::empty(),
            Some(object) => labelled("message:   "@, field_text(d, "message"@)) + labelled(
                "error:     "@,
                field_text(d, "error"@),
            ) + other_fields(object),
        }),
    }
}

/// Add a line for a text that is there.
fn add_labelled(out: &mut Vec<String>, label: &str, s: Option<String>)
    ensures
        final(out).deep_view() == old(out).deep_view() + labelled(label@, s.deep_view()),
{
    let ghost before = out.deep_view();
    if let Some(t) = s {
        out.push(cat2(label, t.as_str()));
    }
    assert(out.deep_view() =~= before + labelled(label@, s.deep_view()));
}

/// A JSON value for a reader.
fn json_scalar(v: &JsonValue) -> (r: String)
    ensures
        r@ == scalar(v.deep_view()),
{
    match &v.text {
        Some(t) => copy_of(t.as_str()),
        None => copy_of(v.shown.as_str()),
    }
}

/// A line for each field but the message and the error.
fn remaining_fields(object: &Vec<(String, JsonValue)>) -> (r: Vec<String>)
    ensures
        r.deep_view() == other_fields(object.deep_view()),
{
    let ghost all = object.deep_view();
    let mut r: Vec<String> = Vec::new();
    assert(r.deep_view() =~= other_fields(all.take(0)));
    for i in 0..object.len()
        invariant
            all == object.deep_view(),
            r.deep_view() == other_fields(all.take(i as int)),
    {
        let ghost before = r.deep_view();
        assert(all.take(i + 1).drop_last() =~= all.take(i as int));
        assert(all.take(i + 1).last() == (
            object@[i as int].0@,
            object@[i as int].1.deep_view(),
        ));
        let name = object[i].0.as_str();
        if !same(name, "message") && !same(name, "error") {
            let shown = json_scalar(&object[i].1);
            r.push(cat4("  ", name, ": ", shown.as_str()));
            assert(r.deep_view() =~= before.push(
                "  "@ + name@ + ": "@ + scalar(object@[i as int].1.deep_view()),
            ));
        }
    }
    assert(all.take(all.len() as int) =~= all);
    r
}

/// A log line in full, given the document that it is.
pub fn document_lines(doc: &Option<Vec<JsonEntry>>, line: &str) -> (r: Vec<String>)
    ensures
        r.deep_view() == long_lines(doc.deep_view(), line@),
{
    let mut out: Vec<String> = Vec::new();
    let d = match doc {
        None => {
            out.push(copy_of(line));
            assert(out.deep_view() =~= seq![line@]);
            return out;
        },
        Some(d) => d,
    };
    assert(out.deep_view() =~= Seq::empty());
    add_labelled(&mut out, "timestamp: ", get_text(d, "timestamp"));
    assert(out.deep_view() =~= labelled("timestamp: "@, text_under(d.deep_view(), "timestamp"@)));
    add_labelled(&mut out, "level:     ", get_text(d, "level"));
    add_labelled(&mut out, "target:    ", get_text(d, "target"));
    let ghost head = out.deep_view();
    if let Some(e) = find_entry(d, "fields") {
        if let Some(object) = &e.members {
            add_labelled(&mut out, "message:   ", get_field_text(d, "message"));
            add_labelled(&mut out, "error:     ", get_field_text(d, "error"));
            let ghost before = out.deep_view();
            let mut rest = remaining_fields(object);
            let ghost more = rest.deep_view();
            out.append(&mut rest);
            assert(out.deep_view() =~= before + more);
            assert(out.deep_view() =~= head + (labelled(
                "message:   "@,
                field_text(d.deep_view(), "message"@),
            ) + labelled("error:     "@, field_text(d.deep_view(), "error"@)) + more));
            return out;
        }
    }
    assert(head =~= head + Seq::<Seq<char>>::empty());
    out
}

/// A log line in full: timestamp, level, target, message, error, then the other
/// fields. A line that is not JSON stays as it is.
pub fn pretty_log_line(line: &str) -> (r: Vec<String>)
    ensures
        r.deep_view() == long_lines(document(line@), line@),
{
    document_lines(&parse_document(line), line)
}

// ── Laws ─────────────────────────────────────────────────────────────────────

/// The member that is found has the name that was asked for and is the first with
/// it; none is found only where none has it.
pub proof fn lemma_entry_found(doc: Seq<JsonEntryView>, name: Seq<char>)
    ensures
        match entry(doc, name) {
            Some(e) => e.name == name && exists|i: int|
                0 <= i < doc.len() && #[trigger] doc[i] == e && (forall|j: int|
                    0 <= j < i ==> (#[trigger] doc[j]).name != name),
            None => forall|i: int| 0 <= i < doc.len() ==> (#[trigger] doc[i]).name != name,
        },
    decreases doc.len(),
{
    if doc.len() > 0 {
        let rest = doc.drop_first();
        lemma_entry_found(rest, name);
        assert forall|i: int| 0 <= i < rest.len() implies #[trigger] rest[i] == doc[i + 1] by {}
        if doc[0].name == name {
            assert(doc[0] == entry(doc, name)->0);
        } else {
            match entry(rest, name) {
                Some(e) => {
                    let i = choose|i: int|
                        0 <= i < rest.len() && #[trigger] rest[i] == e && (forall|j: int|
                            0 <= j < i ==> (#[trigger] rest[j]).name != name);
                    assert(doc[i + 1] == e);
                    assert forall|j: int| 0 <= j < i + 1 implies (#[trigger] doc[j]).name != name by {
                        if j > 0 {
                            assert(rest[j - 1] == doc[j]);
                        }
                    }
                },
                None => {
                    assert forall|i: int| 0 <= i < doc.len() implies (#[trigger] doc[i]).name
                        != name by {
                        if i > 0 {
                            assert(rest[i - 1] == doc[i]);
                        }
                    }
                },
            }
        }
    }
}

/// The same of the members of an object.
pub proof fn lemma_member_found(object: Seq<(Seq<char>, JsonValueView)>, name: Seq<char>)
    ensures
        match member(object, name) {
            Some(v) => exists|i: int|
                0 <= i < object.len() && #[trigger] object[i] == (name, v) && (forall|j: int|
                    0 <= j < i ==> (#[trigger] object[j]).0 != name),
            None => forall|i: int| 0 <= i < object.len() ==> (#[trigger] object[i]).0 != name,
        },
    decreases object.len(),
{
    if object.len() > 0 {
        let rest = object.drop_first();
        lemma_member_found(rest, name);
        assert forall|i: int| 0 <= i < rest.len() implies #[trigger] rest[i] == object[i + 1] by {}
        if object[0].0 == name {
            assert(object[0] == (name, member(object, name)->0));
        } else {
            match member(rest, name) {
                Some(v) => {
                    let i = choose|i: int|
                        0 <= i < rest.len() && #[trigger] rest[i] == (name, v) && (forall|j: int|
                            0 <= j < i ==> (#[trigger] rest[j]).0 != name);
                    assert(object[i + 1] == (name, v));
                    assert forall|j: int| 0 <= j < i + 1 implies (#[trigger] object[j]).0 != name by {
                        if j > 0 {
                            assert(rest[j - 1] == object[j]);
                        }
                    }
                },
                None => {
                    assert forall|i: int| 0 <= i < object.len() implies (#[trigger] object[i]).0
                        != name by {
                        if i > 0 {
                            assert(rest[i - 1] == object[i]);
                        }
                    }
                },
            }
        }
    }
}

/// A field is a member of what the line has under `fields`, and says something
/// where it is a string.
pub proof fn lemma_field_of(doc: Seq<JsonEntryView>, name: Seq<char>)
    ensures
        entry(doc, "fields"@) is None ==> field(doc, name) is None,
        entry(doc, "fields"@) matches Some(e) ==> (match e.members {
            Some(object) => field(doc, name) == member(object, name),
            None => field(doc, name) is None,
        }),
        field(doc, name) is None ==> field_text(doc, name) is None,
        field(doc, name) matches Some(v) ==> field_text(doc, name) == v.text,
        entry(doc, name) matches Some(e) ==> text_under(doc, name) == e.value.text,
        entry(doc, name) is None ==> text_under(doc, name) is None,
{
}

/// A line in short never has more characters than were asked for, as long as one
/// was; a line that fits stays as it is, and of a longer one the start stays.
pub proof fn lemma_truncated(s: Seq<char>, max: int)
    requires
        max >= 1,
    ensures
        truncated(s, max).len() <= max,
        s.len() <= max ==> truncated(s, max) == s,
        s.len() > max ==> truncated(s, max).len() == max && truncated(s, max).take(max - 1)
            == s.take(max - 1) && truncated(s, max)[max - 1] == '…',
{
    reveal_strlit("…");
    if s.len() > max {
        assert(truncated(s, max).take(max - 1) =~= s.take(max - 1));
    }
}

/// What a line in short says: the level in five places and the message behind it,
/// the message alone where there is no level, and the line itself where it is not
/// JSON.
pub proof fn lemma_short_line(doc: Seq<JsonEntryView>, line: Seq<char>, level: Seq<char>, message: Seq<char>, max: int)
    requires
        text_under(doc, "level"@) == Some(level),
        field_text(doc, "message"@) == Some(message),
        max >= 0,
        5 + 1 + message.len() <= max,
        level.len() <= 5,
    ensures
        level.len() > 0 ==> short_line(Some(doc), line, max) == level + Seq::new(
            (5 - level.len()) as nat,
            |i: int| ' ',
        ) + seq![' '] + message,
        level.len() == 0 ==> short_line(Some(doc), line, max) == message,
        line.len() <= max ==> short_line(None, line, max) == line,
{
    reveal_strlit(" ");
    if level.len() > 0 {
        assert(in_five(level) =~= level + Seq::new((5 - level.len()) as nat, |i: int| ' '));
        assert(short_line(Some(doc), line, max) =~= level + Seq::new(
            (5 - level.len()) as nat,
            |i: int| ' ',
        ) + seq![' '] + message);
    }
}

/// A line in full starts with when, how severe and from where, then tells the
/// message and the error, and then every other field once, in order.
pub proof fn lemma_long_lines(doc: Seq<JsonEntryView>, line: Seq<char>)
    ensures
        long_lines(None, line) == seq![line],
        ({
            let r = long_lines(Some(doc), line);
            &&& text_under(doc, "timestamp"@) matches Some(t) ==> r.len() > 0 && r[0]
                == "timestamp: "@ + t
            &&& text_under(doc, "level"@) matches Some(t) ==> r.contains("level:     "@ + t)
            &&& text_under(doc, "target"@) matches Some(t) ==> r.contains("target:    "@ + t)
            &&& field_text(doc, "message"@) matches Some(t) ==> r.contains("message:   "@ + t)
            &&& field_text(doc, "error"@) matches Some(t) ==> r.contains("error:     "@ + t)
        }),
{
    let r = long_lines(Some(doc), line);
    let a = labelled("timestamp: "@, text_under(doc, "timestamp"@));
    let b = labelled("level:     "@, text_under(doc, "level"@));
    let c = labelled("target:    "@, text_under(doc, "target"@));
    let d = labelled("message:   "@, field_text(doc, "message"@));
    let e = labelled("error:     "@, field_text(doc, "error"@));
    if let Some(t) = text_under(doc, "level"@) {
        assert(r[a.len() as int] == "level:     "@ + t);
    }
    if let Some(t) = text_under(doc, "target"@) {
        assert(r[(a.len() + b.len()) as int] == "target:    "@ + t);
    }
    if let Some(t) = field_text(doc, "message"@) {
        assert(fields(doc) is Some);
        assert(r[(a.len() + b.len() + c.len()) as int] == "message:   "@ + t);
    }
    if let Some(t) = field_text(doc, "error"@) {
        assert(fields(doc) is Some);
        assert(r[(a.len() + b.len() + c.len() + d.len()) as int] == "error:     "@ + t);
    }
}

/// The other fields: one line for each but the message and the error, a string
/// without its quotes.
pub proof fn lemma_other_fields(
    object: Seq<(Seq<char>, JsonValueView)>,
    name: Seq<char>,
    v: JsonValueView,
)
    ensures
        name == "message"@ || name == "error"@ ==> other_fields(object.push((name, v)))
            == other_fields(object),
        name != "message"@ && name != "error"@ && v.text is Some ==> other_fields(
            object.push((name, v)),
        ) == other_fields(object).push("  "@ + name + ": "@ + v.text->0),
        name != "message"@ && name != "error"@ && v.text is None ==> other_fields(
            object.push((name, v)),
        ) == other_fields(object).push("  "@ + name + ": "@ + v.shown),
{
    assert(object.push((name, v)).drop_last() =~= object);
}

} // verus!
