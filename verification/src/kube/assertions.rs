//! Holding expected settings against a configuration file.

use crate::kube::ConfigAssertion;
use crate::text::{
    begins_with, chars_of, copy_of, lines, same, slice_of, split_lines, space, starts_with, strip,
    stripped_end, stripped_start, text_of, trim, trim_start, trimmed, trimmed_end, trimmed_start,
};
use vstd::prelude::*;

verus! {

/// Where the quote that ends a quoted text stands, from place `i` on; a character
/// behind a backslash does not end it.
pub open spec fn closing_quote(s: Seq<char>, i: int) -> Option<int>
    decreases s.len() + 1 - i,
{
    if i < 0 || i >= s.len() {
        None
    } else if s[i] == '"' {
        Some(i)
    } else if s[i] == '\\' {
        closing_quote(s, i + 2)
    } else {
        closing_quote(s, i + 1)
    }
}

/// Where a comment starts in a text without quotes, from place `i` on: at a hash
/// sign in front or behind a space or a tab.
pub open spec fn comment_start(s: Seq<char>, i: int) -> int
    decreases s.len() + 1 - i,
{
    if i < 0 || i >= s.len() {
        s.len() as int
    } else if s[i] == '#' && (i == 0 || s[i - 1] == ' ' || s[i - 1] == '\t') {
        i
    } else {
        comment_start(s, i + 1)
    }
}

/// How much of a setting stands in front of the comment behind it. A comment
/// behind a quoted text starts behind the quote that ends it.
pub open spec fn setting_len(v: Seq<char>) -> int {
    if begins_with(v, "\""@) {
        match closing_quote(v, 1) {
            Some(j) if begins_with(trimmed_start(v.skip(j + 1)), "#"@) => j + 1,
            _ => v.len() as int,
        }
    } else {
        comment_start(v, 0)
    }
}

/// A setting as it is written behind the equals sign, without a comment behind
/// it, quotes and whitespace.
pub open spec fn clean_value(raw: Seq<char>) -> Seq<char> {
    let v = trimmed(raw);
    let bare = trimmed(v.take(setting_len(v)));
    trimmed(stripped_end(stripped_start(bare, '"'), '"'))
}

/// What the line sets `key` to, where it sets it.
pub open spec fn line_value(line: Seq<char>, key: Seq<char>) -> Option<Seq<char>> {
    let t = trimmed(line);
    let rest = trimmed_start(t.skip(key.len() as int));
    if !begins_with(t, "#"@) && begins_with(t, key) && begins_with(rest, "="@) {
        Some(clean_value(rest.skip(1)))
    } else {
        None
    }
}

/// What the first of the lines that sets `key` sets it to.
pub open spec fn setting(body: Seq<Seq<char>>, key: Seq<char>) -> Option<Seq<char>>
    decreases body.len(),
{
    if body.len() == 0 {
        None
    } else {
        match line_value(body[0], key) {
            Some(v) => Some(v),
            None => setting(body.drop_first(), key),
        }
    }
}

/// Where the quote that ends a quoted text stands.
fn find_closing_quote(s: &[char]) -> (r: Option<usize>)
    ensures
        match r {
            Some(j) => closing_quote(s@, 1) == Some(j as int) && j < s@.len(),
            None => closing_quote(s@, 1) is None,
        },
{
    let n: usize = s.len();
    let mut i: usize = 1;
    while i < n
        invariant
            n == s@.len(),
            1 <= i,
            closing_quote(s@, 1) == closing_quote(s@, i as int),
        decreases n - i,
    {
        if s[i] == '"' {
            return Some(i);
        }
        if s[i] == '\\' {
            if n - i <= 2 {
                assert(closing_quote(s@, i + 2) is None);
                return None;
            }
            i = i + 2;
        } else {
            i = i + 1;
        }
    }
    None
}

/// Where a comment starts in a text without quotes.
fn find_comment(s: &[char]) -> (r: usize)
    ensures
        r == comment_start(s@, 0),
        r <= s@.len(),
{
    let n: usize = s.len();
    let mut i: usize = 0;
    while i < n
        invariant
            n == s@.len(),
            i <= n,
            comment_start(s@, 0) == comment_start(s@, i as int),
        decreases n - i,
    {
        if s[i] == '#' && (i == 0 || s[i - 1] == ' ' || s[i - 1] == '\t') {
            return i;
        }
        i = i + 1;
    }
    n
}

/// How much of a setting stands in front of the comment behind it.
fn len_of_setting(v: &[char]) -> (r: usize)
    ensures
        r == setting_len(v@),
        r <= v@.len(),
{
    let n: usize = v.len();
    if !starts_with(v, "\"") {
        return find_comment(v);
    }
    match find_closing_quote(v) {
        Some(j) => {
            let tail = slice_of(v, j + 1, n);
            assert(tail@ =~= v@.skip(j + 1));
            if starts_with(trim_start(tail.as_slice()).as_slice(), "#") {
                j + 1
            } else {
                n
            }
        },
        None => n,
    }
}

/// A setting without a comment, quotes and whitespace.
fn clean_toml_value(raw: &[char]) -> (r: String)
    ensures
        r@ == clean_value(raw@),
{
    let v = trim(raw);
    let k = len_of_setting(v.as_slice());
    let head = slice_of(v.as_slice(), 0, k);
    assert(head@ =~= v@.take(k as int));
    let bare = trim(head.as_slice());
    let stripped = strip(bare.as_slice(), '"');
    text_of(trim(stripped.as_slice()).as_slice())
}

/// What the line sets `key` to.
fn value_on_line(line: &str, key: &str) -> (r: Option<String>)
    ensures
        r.deep_view() == line_value(line@, key@),
{
    let t = trim(chars_of(line).as_slice());
    let k = chars_of(key);
    if starts_with(t.as_slice(), "#") || !starts_with(t.as_slice(), key) {
        return None;
    }
    let n: usize = t.len();
    let tail = slice_of(t.as_slice(), k.len(), n);
    assert(tail@ =~= t@.skip(key@.len() as int));
    let rest = trim_start(tail.as_slice());
    if !starts_with(rest.as_slice(), "=") {
        return None;
    }
    proof {
        reveal_strlit("=");
        assert("="@.len() == 1);
    }
    let m: usize = rest.len();
    let value = slice_of(rest.as_slice(), 1, m);
    assert(value@ =~= rest@.skip(1));
    Some(clean_toml_value(value.as_slice()))
}

/// The value of `key` in a configuration: the first line `key = value`.
pub fn find_toml_value(body: &str, key: &str) -> (r: Option<String>)
    ensures
        r.deep_view() == setting(lines(body@), key@),
{
    let list = split_lines(chars_of(body).as_slice());
    let ghost all = list.deep_view();
    assert(all.skip(0) =~= all);
    for i in 0..list.len()
        invariant
            all == list.deep_view(),
            all == lines(body@),
            setting(all, key@) == setting(all.skip(i as int), key@),
    {
        assert(all.skip(i as int)[0] == list@[i as int]@);
        assert(all.skip(i as int).drop_first() =~= all.skip(i + 1));
        if let Some(v) = value_on_line(list[i].as_str(), key) {
            return Some(v);
        }
    }
    assert(all.skip(all.len() as int) =~= Seq::empty());
    None
}

/// The outcome for one expected setting.
pub open spec fn outcome(body: Seq<char>, key: Seq<char>, expected: Seq<char>, a: ConfigAssertion) -> bool {
    let actual = setting(lines(body), key);
    &&& a.key@ == key
    &&& a.expected@ == expected
    &&& a.actual.deep_view() == actual
    &&& a.pass == (actual == Some(expected))
}

/// Hold the expected settings against a configuration. The scan is lenient: it
/// looks for lines of the form `key = value` and reads nothing else.
pub fn assert_config(config_toml: &str, expected: &Vec<(String, String)>) -> (r: Vec<ConfigAssertion>)
    ensures
        r@.len() == expected@.len(),
        forall|i: int|
            0 <= i < r@.len() ==> outcome(
                config_toml@,
                expected@[i].0@,
                expected@[i].1@,
                #[trigger] r@[i],
            ),
{
    let mut r: Vec<ConfigAssertion> = Vec::new();
    for i in 0..expected.len()
        invariant
            r@.len() == i,
            forall|j: int|
                0 <= j < i ==> outcome(
                    config_toml@,
                    expected@[j].0@,
                    expected@[j].1@,
                    #[trigger] r@[j],
                ),
    {
        let (key, want) = &expected[i];
        let actual = find_toml_value(config_toml, key.as_str());
        let pass = match &actual {
            Some(v) => same(v.as_str(), want.as_str()),
            None => false,
        };
        r.push(
            ConfigAssertion {
                key: copy_of(key.as_str()),
                expected: copy_of(want.as_str()),
                actual,
                pass,
            },
        );
    }
    r
}

// ── Laws ─────────────────────────────────────────────────────────────────────

/// The first line that sets a key counts.
pub proof fn lemma_first_setting(body: Seq<Seq<char>>, key: Seq<char>, i: int)
    requires
        0 <= i < body.len(),
        line_value(body[i], key) is Some,
        forall|j: int| 0 <= j < i ==> line_value(#[trigger] body[j], key) is None,
    ensures
        setting(body, key) == line_value(body[i], key),
    decreases i,
{
    if i > 0 {
        let rest = body.drop_first();
        assert(line_value(body[0], key) is None);
        assert(rest[i - 1] == body[i]);
        assert forall|j: int| 0 <= j < i - 1 implies line_value(#[trigger] rest[j], key) is None by {
            assert(rest[j] == body[j + 1]);
        }
        lemma_first_setting(rest, key, i - 1);
    }
}

/// A key that no line sets has no value.
pub proof fn lemma_no_setting(body: Seq<Seq<char>>, key: Seq<char>)
    requires
        forall|j: int| 0 <= j < body.len() ==> line_value(#[trigger] body[j], key) is None,
    ensures
        setting(body, key) is None,
    decreases body.len(),
{
    if body.len() > 0 {
        let rest = body.drop_first();
        assert(line_value(body[0], key) is None);
        assert forall|j: int| 0 <= j < rest.len() implies line_value(#[trigger] rest[j], key) is None by {
            assert(rest[j] == body[j + 1]);
        }
        lemma_no_setting(rest, key);
    }
}

/// A line that is a comment sets nothing.
pub proof fn lemma_comment_sets_nothing(note: Seq<char>, key: Seq<char>)
    requires
        note.len() > 0,
        !space(note.last()),
    ensures
        line_value("#"@ + note, key) is None,
{
    reveal_strlit("#");
    let line = "#"@ + note;
    assert(line[0] == '#');
    assert(line.last() == note.last());
    assert(trimmed(line) == line);
    assert(line.subrange(0, 1) =~= "#"@);
}

/// A text of a setting that stands for itself: without whitespace, quotes,
/// backslashes and hash signs.
pub open spec fn bare_word(s: Seq<char>) -> bool {
    s.len() > 0 && forall|i: int|
        0 <= i < s.len() ==> !space(#[trigger] s[i]) && s[i] != '"' && s[i] != '#' && s[i] != '\\'
}

/// The comment in a text starts at the first hash sign behind a space.
proof fn lemma_comment_at(s: Seq<char>, i: int, k: int)
    requires
        0 <= i <= k <= s.len(),
        forall|j: int| i <= j < k ==> #[trigger] s[j] != '#',
        k < s.len() ==> k > 0 && s[k] == '#' && s[k - 1] == ' ',
    ensures
        comment_start(s, i) == k,
    decreases k - i,
{
    if i < k {
        assert(s[i] != '#');
        lemma_comment_at(s, i + 1, k);
    }
}

/// The quote behind a text without quotes ends it.
proof fn lemma_quote_at(s: Seq<char>, i: int, k: int)
    requires
        0 <= i <= k < s.len(),
        s[k] == '"',
        forall|j: int| i <= j < k ==> #[trigger] s[j] != '"' && s[j] != '\\',
    ensures
        closing_quote(s, i) == Some(k),
    decreases k - i,
{
    if i < k {
        assert(s[i] != '"');
        lemma_quote_at(s, i + 1, k);
    }
}

/// What is left of the ways to write a value.
proof fn lemma_clean_forms(value: Seq<char>, note: Seq<char>)
    requires
        bare_word(value),
        note.len() > 0,
        !space(note.last()),
    ensures
        clean_value(value) == value,
        clean_value(seq![' '] + value) == value,
        clean_value(seq![' ', '"'] + value + seq!['"']) == value,
        clean_value(seq![' '] + value + seq![' ', '#'] + note) == value,
{
    reveal_strlit("\"");
    assert("\""@ =~= seq!['"']);
    let n = value.len() as int;
    assert(!space(value[0]) && !space(value[n - 1]));
    assert(value[0] != '"' && value[n - 1] != '"');
    assert(trimmed(value) == value);
    assert(!begins_with(value, "\""@)) by {
        assert(value.subrange(0, 1)[0] == value[0]);
    }
    lemma_comment_at(value, 0, n);
    assert(value.take(n) =~= value);
    assert(clean_value(value) == value);
    let a = seq![' '] + value;
    assert(a[0] == ' ' && a.drop_first() =~= value);
    assert(trimmed_start(a) == trimmed_start(value));
    assert(clean_value(a) == value);
    let q = seq!['"'] + value + seq!['"'];
    let b = seq![' ', '"'] + value + seq!['"'];
    assert(b[0] == ' ' && b.drop_first() =~= q);
    assert(q[0] == '"' && q.last() == '"');
    assert(trimmed_start(b) == trimmed_start(q));
    assert(trimmed(b) == q);
    assert(q.subrange(0, 1) =~= "\""@);
    assert(q[n + 1] == '"');
    assert forall|j: int| 1 <= j < n + 1 implies #[trigger] q[j] != '"' && q[j] != '\\' by {
        assert(q[j] == value[j - 1]);
    }
    lemma_quote_at(q, 1, n + 1);
    assert(q.skip(n + 2) =~= Seq::empty());
    assert(!begins_with(trimmed_start(q.skip(n + 2)), "#"@)) by {
        reveal_strlit("#");
        assert("#"@.len() == 1);
    }
    assert(q.take(q.len() as int) =~= q);
    let open = value + seq!['"'];
    assert(q.drop_first() =~= open);
    assert(open[0] == value[0]);
    assert(stripped_start(q, '"') == stripped_start(open, '"'));
    assert(stripped_start(open, '"') == open);
    assert(open.drop_last() =~= value);
    assert(stripped_end(open, '"') == stripped_end(value, '"'));
    assert(clean_value(b) == value);
    let c = seq![' '] + value + seq![' ', '#'] + note;
    let v = value + seq![' ', '#'] + note;
    assert(c[0] == ' ' && c.drop_first() =~= v);
    assert(v[0] == value[0]);
    assert(v.last() == note.last());
    assert(trimmed_start(c) == trimmed_start(v));
    assert(trimmed(c) == v);
    assert(!begins_with(v, "\""@)) by {
        assert(v.subrange(0, 1)[0] == v[0]);
    }
    assert(v[n] == ' ' && v[n + 1] == '#');
    assert forall|j: int| 0 <= j < n + 1 implies #[trigger] v[j] != '#' by {
        if j < n {
            assert(v[j] == value[j]);
        }
    }
    lemma_comment_at(v, 0, n + 1);
    let w = v.take(n + 1);
    assert(w[0] == value[0] && w.last() == ' ');
    assert(w.drop_last() =~= value);
    assert(trimmed_start(w) == w);
    assert(trimmed_end(w) == trimmed_end(value));
    assert(trimmed(w) == value);
}

/// A line that sets a key, up to what stands behind the equals sign.
proof fn lemma_set_line(key: Seq<char>, gap: Seq<char>, raw: Seq<char>)
    requires
        bare_word(key),
        gap == Seq::<char>::empty() || gap == seq![' '],
        raw.len() > 0,
        !space(raw.last()),
    ensures
        line_value(key + gap + seq!['='] + raw, key) == Some(clean_value(raw)),
{
    reveal_strlit("#");
    reveal_strlit("=");
    assert("="@ =~= seq!['=']);
    let line = key + gap + seq!['='] + raw;
    let n = key.len() as int;
    assert(line[0] == key[0]);
    assert(line.last() == raw.last());
    assert(trimmed(line) == line);
    assert(!begins_with(line, "#"@)) by {
        assert("#"@[0] == '#');
        assert(line.subrange(0, 1)[0] == line[0]);
    }
    assert(line.subrange(0, n) =~= key);
    let tail = seq!['='] + raw;
    let behind = line.skip(n);
    assert(behind =~= gap + tail);
    assert(tail[0] == '=');
    assert(trimmed_start(tail) == tail);
    if gap.len() == 0 {
        assert(behind =~= tail);
    } else {
        assert(behind[0] == ' ' && behind.drop_first() =~= tail);
    }
    assert(trimmed_start(behind) == tail);
    assert(tail.subrange(0, 1) =~= "="@);
    assert(tail.skip(1) =~= raw);
}

/// A value is found behind `key =`, with or without spaces, in quotes or bare, and
/// without the comment behind it.
pub proof fn lemma_setting_forms(key: Seq<char>, value: Seq<char>, note: Seq<char>)
    requires
        bare_word(key),
        bare_word(value),
        note.len() > 0,
        !space(note.last()),
    ensures
        line_value(key + seq!['='] + value, key) == Some(value),
        line_value(key + seq![' ', '=', ' '] + value, key) == Some(value),
        line_value(key + seq![' ', '=', ' ', '"'] + value + seq!['"'], key) == Some(value),
        line_value(key + seq![' ', '=', ' '] + value + seq![' ', '#'] + note, key) == Some(value),
{
    let none = Seq::<char>::empty();
    let one = seq![' '];
    lemma_clean_forms(value, note);
    let n = value.len() as int;
    assert(!space(value[n - 1]));
    lemma_set_line(key, none, value);
    assert(key + none + seq!['='] + value =~= key + seq!['='] + value);
    let a = seq![' '] + value;
    assert(a.last() == value[n - 1]);
    lemma_set_line(key, one, a);
    assert(key + one + seq!['='] + a =~= key + seq![' ', '=', ' '] + value);
    let b = seq![' ', '"'] + value + seq!['"'];
    lemma_set_line(key, one, b);
    assert(key + one + seq!['='] + b =~= key + seq![' ', '=', ' ', '"'] + value + seq!['"']);
    let c = seq![' '] + value + seq![' ', '#'] + note;
    assert(c.last() == note.last());
    lemma_set_line(key, one, c);
    assert(key + one + seq!['='] + c =~= key + seq![' ', '=', ' '] + value + seq![' ', '#'] + note);
}

/// An expected setting passes exactly where it is set to what is expected.
pub proof fn lemma_outcome(body: Seq<char>, key: Seq<char>, expected: Seq<char>, a: ConfigAssertion)
    requires
        outcome(body, key, expected, a),
    ensures
        a.key@ == key,
        a.expected@ == expected,
        a.actual.deep_view() == setting(lines(body), key),
        a.pass <==> a.actual is Some && a.actual->0@ == a.expected@,
{
}

} // verus!
