//! The shape of a log message: what is left of it once the parts that differ
//! from one occurrence to the next are replaced by markers.

use crate::decimal::{is_ascii_digit, is_digit};
use crate::text::{
    cat2, cat3, chars_of, copy_of, code_point, contains, find, finishes_with, first, has, join, lemma_find_from, occurs_at, joined, slice_of,
    split_words, starts_with, ends_with, begins_with, text_of, words,
};
use vstd::prelude::*;

verus! {

// ── Embedded parts ───────────────────────────────────────────────────────────

/// An ASCII letter or digit.
pub open spec fn ascii_alphanumeric(c: char) -> bool {
    is_digit(c) || 'a' <= c <= 'z' || 'A' <= c <= 'Z'
}

/// A character that ends a topic name.
pub open spec fn delimiter(c: char) -> bool {
    c == ' ' || c == ']' || c == ')' || c == ','
}

/// Where the letters and digits at the start of `s` end.
pub open spec fn id_end(s: Seq<char>) -> int
    decreases s.len(),
{
    if s.len() == 0 || !ascii_alphanumeric(s[0]) {
        0
    } else {
        1 + id_end(s.drop_first())
    }
}

/// Where the first delimiter stands in `s`, or its length.
pub open spec fn path_end(s: Seq<char>) -> int
    decreases s.len(),
{
    if s.len() == 0 || delimiter(s[0]) {
        0
    } else {
        1 + path_end(s.drop_first())
    }
}

/// How long the scheme of a topic name at the start of `s` is; zero where none
/// stands there.
pub open spec fn scheme_len(s: Seq<char>) -> int {
    if begins_with(s, "persistent://"@) {
        "persistent://"@.len() as int
    } else if begins_with(s, "non-persistent://"@) {
        "non-persistent://"@.len() as int
    } else {
        0
    }
}

/// The marker for a topic name.
pub open spec fn topic_mark(path: Seq<char>) -> Seq<char> {
    if has(path, "-partition-"@) {
        "<topic>-partition-<n>"@
    } else {
        "<topic>"@
    }
}

/// Where the part of `s` that is replaced as one ends, and its replacement: a
/// consumer name, a topic name, or a single character that stays.
pub open spec fn part(s: Seq<char>) -> (int, Seq<char>) {
    if begins_with(s, "consumer_"@) {
        let n = "consumer_"@.len() as int;
        (n + id_end(s.skip(n)), "consumer_<id>"@)
    } else if scheme_len(s) > 0 {
        let n = scheme_len(s) + path_end(s.skip(scheme_len(s)));
        (n, topic_mark(s.take(n)))
    } else {
        (1, s.take(1))
    }
}

/// `s` with the names of consumers and topics replaced by markers.
pub open spec fn generalised(s: Seq<char>) -> Seq<char>
    decreases s.len(),
{
    if s.len() == 0 || !(1 <= part(s).0 <= s.len()) {
        Seq::empty()
    } else {
        part(s).1 + generalised(s.skip(part(s).0))
    }
}

/// Whether `c` is an ASCII letter or digit.
fn is_ascii_alphanumeric(c: char) -> (r: bool)
    ensures
        r == ascii_alphanumeric(c),
{
    is_ascii_digit(c) || ('a' <= c && c <= 'z') || ('A' <= c && c <= 'Z')
}

/// The end of a part lies within the text.
proof fn lemma_ends(s: Seq<char>)
    ensures
        0 <= id_end(s) <= s.len(),
        0 <= path_end(s) <= s.len(),
    decreases s.len(),
{
    if s.len() > 0 {
        lemma_ends(s.drop_first());
    }
}

/// Where the letters and digits from place `from` on end.
fn end_of_id(v: &[char], from: usize) -> (r: usize)
    requires
        from <= v@.len(),
    ensures
        r == from + id_end(v@.skip(from as int)),
        from <= r <= v@.len(),
{
    let n: usize = v.len();
    let mut i: usize = from;
    while i < n && is_ascii_alphanumeric(v[i])
        invariant
            from <= i <= n == v@.len(),
            from + id_end(v@.skip(from as int)) == i + id_end(v@.skip(i as int)),
        decreases n - i,
    {
        assert(v@.skip(i as int).drop_first() =~= v@.skip(i + 1));
        i = i + 1;
    }
    i
}

/// Where the first delimiter from place `from` on stands.
fn end_of_path(v: &[char], from: usize) -> (r: usize)
    requires
        from <= v@.len(),
    ensures
        r == from + path_end(v@.skip(from as int)),
        from <= r <= v@.len(),
{
    let n: usize = v.len();
    let mut i: usize = from;
    while i < n && !(v[i] == ' ' || v[i] == ']' || v[i] == ')' || v[i] == ',')
        invariant
            from <= i <= n == v@.len(),
            from + path_end(v@.skip(from as int)) == i + path_end(v@.skip(i as int)),
        decreases n - i,
    {
        assert(v@.skip(i as int).drop_first() =~= v@.skip(i + 1));
        i = i + 1;
    }
    i
}

/// The marker for a topic name.
fn mark_of(path: &[char]) -> (r: &'static str)
    ensures
        r@ == topic_mark(path@),
{
    if contains(path, "-partition-") {
        "<topic>-partition-<n>"
    } else {
        "<topic>"
    }
}

/// The part at the start of `s`: where it ends, and its replacement.
fn next_part(s: &[char]) -> (r: (usize, String))
    requires
        s@.len() > 0,
    ensures
        r.0 == part(s@).0,
        r.1@ == part(s@).1,
        1 <= r.0 <= s@.len(),
{
    proof {
        reveal_strlit("consumer_");
        reveal_strlit("persistent://");
        reveal_strlit("non-persistent://");
        assert("consumer_"@.len() == 9);
        assert("persistent://"@.len() == 13);
        assert("non-persistent://"@.len() == 17);
    }
    if starts_with(s, "consumer_") {
        return (end_of_id(s, 9), copy_of("consumer_<id>"));
    }
    let from: usize = if starts_with(s, "persistent://") {
        13
    } else if starts_with(s, "non-persistent://") {
        17
    } else {
        0
    };
    if from > 0 {
        let to: usize = end_of_path(s, from);
        let path = slice_of(s, 0, to);
        assert(path@ =~= s@.take(to as int));
        (to, copy_of(mark_of(path.as_slice())))
    } else {
        let one = slice_of(s, 0, 1);
        assert(one@ =~= s@.take(1));
        (1, text_of(one.as_slice()))
    }
}

/// Replace the names of consumers and topics, wherever they stand.
pub fn prenormalise(msg: &str) -> (r: String)
    ensures
        r@ == generalised(msg@),
{
    let v = chars_of(msg);
    let n: usize = v.len();
    let mut r = String::new();
    let mut i: usize = 0;
    assert(v@.skip(0) =~= v@);
    assert(r@ + generalised(v@) =~= generalised(v@));
    while i < n
        invariant
            i <= n == v@.len(),
            generalised(v@) == r@ + generalised(v@.skip(i as int)),
        decreases n - i,
    {
        let rest = slice_of(v.as_slice(), i, n);
        assert(rest@ =~= v@.skip(i as int));
        let (len, text) = next_part(rest.as_slice());
        let ghost before = r@;
        r.append(text.as_str());
        proof {
            assert(rest@.skip(len as int) =~= v@.skip(i + len));
            assert(before + (text@ + generalised(v@.skip(i + len))) =~= r@ + generalised(
                v@.skip(i + len),
            ));
        }
        i = i + len;
    }
    assert(v@.skip(n as int) =~= Seq::empty());
    assert(r@ + Seq::<char>::empty() =~= r@);
    r
}

// ── Words ────────────────────────────────────────────────────────────────────

/// Punctuation at the edge of a word.
pub open spec fn edge(c: char) -> bool {
    !ascii_alphanumeric(c) && c != '<' && c != '>'
}

/// How many characters of punctuation `s` starts with.
pub open spec fn edge_prefix(s: Seq<char>) -> int
    decreases s.len(),
{
    if s.len() == 0 || !edge(s[0]) {
        0
    } else {
        1 + edge_prefix(s.drop_first())
    }
}

/// How many characters of punctuation `s` ends with.
pub open spec fn edge_suffix(s: Seq<char>) -> int
    decreases s.len(),
{
    if s.len() == 0 || !edge(s.last()) {
        0
    } else {
        1 + edge_suffix(s.drop_last())
    }
}

/// Where the core of a word starts and ends: what is left without the
/// punctuation around it. A marker has none.
pub open spec fn core_range(s: Seq<char>) -> (int, int) {
    if begins_with(s, "<"@) && finishes_with(s, ">"@) {
        (0, s.len() as int)
    } else if edge_prefix(s) == s.len() {
        (s.len() as int, s.len() as int)
    } else {
        (edge_prefix(s), s.len() - edge_suffix(s))
    }
}

/// A character of an identifier in hexadecimal notation.
pub open spec fn id_char(c: char) -> bool {
    is_digit(c) || 'a' <= c <= 'f' || 'A' <= c <= 'F' || c == '-' || c == '_'
}

/// The word is an identifier: it is long enough, in hexadecimal notation, and
/// has a digit.
pub open spec fn is_id(s: Seq<char>) -> bool {
    &&& s.len() >= 6
    &&& forall|i: int| 0 <= i < s.len() ==> id_char(#[trigger] s[i])
    &&& exists|i: int| 0 <= i < s.len() && is_digit(#[trigger] s[i])
}

/// The core of a word with a marker for what differs from one occurrence to the
/// next.
pub open spec fn marked(s: Seq<char>) -> Seq<char> {
    match first(s, "-partition-"@) {
        Some(i) => s.take(i) + "-partition-<n>"@,
        None => if is_id(s) {
            "<id>"@
        } else if s.len() > 0 && forall|i: int| 0 <= i < s.len() ==> is_digit(#[trigger] s[i]) {
            "<n>"@
        } else {
            s
        },
    }
}

/// A word with markers.
pub open spec fn marked_word() -> spec_fn(Seq<char>) -> Seq<char> {
    |s: Seq<char>|
        {
            let (a, b) = core_range(s);
            s.take(a) + marked(s.subrange(a, b)) + s.skip(b)
        }
}

/// Whether `c` is punctuation.
fn is_edge(c: char) -> (r: bool)
    ensures
        r == edge(c),
{
    !is_ascii_alphanumeric(c) && c != '<' && c != '>'
}

/// The punctuation at the two ends does not overlap, unless it is all there is.
proof fn lemma_edges(s: Seq<char>)
    ensures
        0 <= edge_prefix(s) <= s.len(),
        0 <= edge_suffix(s) <= s.len(),
        edge_prefix(s) < s.len() ==> edge_prefix(s) + edge_suffix(s) < s.len() && !edge(
            s[edge_prefix(s)],
        ),
    decreases s.len(),
{
    if s.len() > 0 {
        lemma_edge_prefix(s);
        lemma_edge_suffix(s);
        let a = edge_prefix(s);
        let b = edge_suffix(s);
        if a < s.len() && a + b >= s.len() {
            assert(edge(s[a]));
        }
    }
}

/// What the punctuation in front is.
proof fn lemma_edge_prefix(s: Seq<char>)
    ensures
        0 <= edge_prefix(s) <= s.len(),
        edge_prefix(s) < s.len() ==> !edge(s[edge_prefix(s)]),
    decreases s.len(),
{
    if s.len() > 0 && edge(s[0]) {
        lemma_edge_prefix(s.drop_first());
    }
}

/// What the punctuation behind is.
proof fn lemma_edge_suffix(s: Seq<char>)
    ensures
        0 <= edge_suffix(s) <= s.len(),
        forall|i: int| s.len() - edge_suffix(s) <= i < s.len() ==> edge(#[trigger] s[i]),
    decreases s.len(),
{
    if s.len() > 0 && edge(s.last()) {
        let t = s.drop_last();
        lemma_edge_suffix(t);
        assert forall|i: int| s.len() - edge_suffix(s) <= i < s.len() implies edge(#[trigger] s[i]) by {
            if i < t.len() {
                assert(t[i] == s[i]);
            }
        }
    }
}

/// Where the core of a word starts and ends.
pub fn split_affixes(v: &[char]) -> (r: (usize, usize))
    ensures
        (r.0 as int, r.1 as int) == core_range(v@),
        r.0 <= r.1 <= v@.len(),
{
    let n: usize = v.len();
    proof {
        lemma_edges(v@);
    }
    if starts_with(v, "<") && ends_with(v, ">") {
        return (0, n);
    }
    let mut a: usize = 0;
    assert(v@.skip(0) =~= v@);
    while a < n && is_edge(v[a])
        invariant
            a <= n == v@.len(),
            edge_prefix(v@) == a + edge_prefix(v@.skip(a as int)),
        decreases n - a,
    {
        assert(v@.skip(a as int).drop_first() =~= v@.skip(a + 1));
        a = a + 1;
    }
    if a == n {
        return (n, n);
    }
    let mut b: usize = n;
    assert(v@.take(n as int) =~= v@);
    while b > a && is_edge(v[b - 1])
        invariant
            a < n == v@.len(),
            b <= n,
            edge_suffix(v@) == (n - b) + edge_suffix(v@.take(b as int)),
            a + edge_suffix(v@) < n,
            0 <= edge_suffix(v@.take(b as int)),
        decreases b,
    {
        proof {
            assert(v@.take(b as int).drop_last() =~= v@.take(b - 1));
            lemma_edge_suffix(v@.take(b - 1));
        }
        b = b - 1;
    }
    (a, b)
}

/// Whether the word is an identifier.
fn looks_like_id(v: &[char]) -> (r: bool)
    ensures
        r == is_id(v@),
{
    if v.len() < 6 {
        return false;
    }
    let mut digit: bool = false;
    for i in 0..v.len()
        invariant
            forall|j: int| 0 <= j < i ==> id_char(#[trigger] v@[j]),
            digit == exists|j: int| 0 <= j < i && is_digit(#[trigger] v@[j]),
    {
        let c = v[i];
        let d = is_ascii_digit(c);
        if !(d || ('a' <= c && c <= 'f') || ('A' <= c && c <= 'F') || c == '-' || c == '_') {
            assert(!id_char(v@[i as int]));
            return false;
        }
        if d {
            assert(is_digit(v@[i as int]));
            digit = true;
        }
    }
    digit
}

/// Whether the word is a number.
fn looks_like_number(v: &[char]) -> (r: bool)
    ensures
        r == (v@.len() > 0 && forall|i: int| 0 <= i < v@.len() ==> is_digit(#[trigger] v@[i])),
{
    for i in 0..v.len()
        invariant
            forall|j: int| 0 <= j < i ==> is_digit(#[trigger] v@[j]),
    {
        if !is_ascii_digit(v[i]) {
            assert(!is_digit(v@[i as int]));
            return false;
        }
    }
    v.len() > 0
}

/// Replace the core of a word by a marker where it differs from one occurrence
/// to the next.
pub fn normalise_token(v: &[char]) -> (r: String)
    ensures
        r@ == marked(v@),
{
    match find(v, "-partition-") {
        Some(i) => {
            let head = slice_of(v, 0, i);
            assert(head@ =~= v@.take(i as int));
            cat2(text_of(head.as_slice()).as_str(), "-partition-<n>")
        },
        None => if looks_like_id(v) {
            copy_of("<id>")
        } else if looks_like_number(v) {
            copy_of("<n>")
        } else {
            text_of(v)
        },
    }
}

/// A word with markers.
fn normalise_word(word: &str) -> (r: String)
    ensures
        r@ == marked_word()(word@),
{
    let v = chars_of(word);
    let n: usize = v.len();
    let (a, b) = split_affixes(v.as_slice());
    let lead = slice_of(v.as_slice(), 0, a);
    let core = slice_of(v.as_slice(), a, b);
    let trail = slice_of(v.as_slice(), b, n);
    assert(lead@ =~= v@.take(a as int));
    assert(trail@ =~= v@.skip(b as int));
    cat3(
        text_of(lead.as_slice()).as_str(),
        normalise_token(core.as_slice()).as_str(),
        text_of(trail.as_slice()).as_str(),
    )
}

// ── Length in bytes ──────────────────────────────────────────────────────────

/// How many bytes `c` takes up in UTF-8.
pub open spec fn width(c: char) -> int {
    if (c as int) < 0x80 {
        1
    } else if (c as int) < 0x800 {
        2
    } else if (c as int) < 0x1_0000 {
        3
    } else {
        4
    }
}

/// How many bytes `s` takes up in UTF-8.
pub open spec fn byte_len(s: Seq<char>) -> int
    decreases s.len(),
{
    if s.len() == 0 {
        0
    } else {
        width(s[0]) + byte_len(s.drop_first())
    }
}

/// How many characters of `s`, from its start, fit into `n` bytes.
pub open spec fn fitting(s: Seq<char>, n: int) -> int
    decreases s.len(),
{
    if s.len() == 0 || width(s[0]) > n {
        0
    } else {
        1 + fitting(s.drop_first(), n - width(s[0]))
    }
}

/// The most bytes that the shape of a message takes up.
pub const LONGEST: u64 = 120;

/// How many bytes are kept of a longer one, or a few less where a character would
/// be cut in two.
pub const KEPT: u64 = 117;

/// A message with markers, at its full length.
pub open spec fn shape(msg: Seq<char>) -> Seq<char> {
    joined(words(generalised(msg)).map_values(marked_word()), " "@)
}

/// The shape of a message, cut where it is too long.
pub open spec fn normalised(msg: Seq<char>) -> Seq<char> {
    let s = shape(msg);
    if byte_len(s) <= LONGEST {
        s
    } else {
        s.take(fitting(s, KEPT as int)) + "..."@
    }
}

/// How many bytes `c` takes up in UTF-8.
fn width_of(c: char) -> (r: u64)
    ensures
        r == width(c),
        1 <= r <= 4,
{
    let n: u32 = code_point(c);
    if n < 0x80 {
        1
    } else if n < 0x800 {
        2
    } else if n < 0x1_0000 {
        3
    } else {
        4
    }
}

/// A text takes up bytes.
proof fn lemma_byte_len(s: Seq<char>)
    ensures
        byte_len(s) >= 0,
    decreases s.len(),
{
    if s.len() > 0 {
        lemma_byte_len(s.drop_first());
    }
}

/// Whether `v` takes up more than `LONGEST` bytes.
fn too_long(v: &[char]) -> (r: bool)
    ensures
        r == (byte_len(v@) > LONGEST),
{
    let mut total: u64 = 0;
    assert(v@.skip(0) =~= v@);
    for i in 0..v.len()
        invariant
            total <= LONGEST,
            byte_len(v@) == total + byte_len(v@.skip(i as int)),
    {
        proof {
            assert(v@.skip(i as int).drop_first() =~= v@.skip(i + 1));
            lemma_byte_len(v@.skip(i + 1));
        }
        total = total + width_of(v[i]);
        if total > LONGEST {
            return true;
        }
    }
    false
}

/// How many characters of `v` fit into `KEPT` bytes.
fn kept_chars(v: &[char]) -> (r: usize)
    ensures
        r == fitting(v@, KEPT as int),
        r <= v@.len(),
{
    let mut left: u64 = KEPT;
    assert(v@.skip(0) =~= v@);
    for i in 0..v.len()
        invariant
            fitting(v@, KEPT as int) == i + fitting(v@.skip(i as int), left as int),
    {
        assert(v@.skip(i as int).drop_first() =~= v@.skip(i + 1));
        let w: u64 = width_of(v[i]);
        if w > left {
            return i;
        }
        left = left - w;
    }
    v.len()
}

/// A message with markers, at its full length.
fn full_shape(msg: &str) -> (r: String)
    ensures
        r@ == shape(msg@),
{
    let pre = prenormalise(msg);
    let list = split_words(chars_of(pre.as_str()).as_slice());
    let ghost all = list.deep_view();
    let mut parts: Vec<String> = Vec::new();
    for i in 0..list.len()
        invariant
            all == list.deep_view(),
            parts@.len() == i,
            forall|j: int| 0 <= j < i ==> (#[trigger] parts@[j])@ == marked_word()(all[j]),
    {
        parts.push(normalise_word(list[i].as_str()));
    }
    assert(parts.deep_view() =~= all.map_values(marked_word()));
    join(&parts, " ")
}

/// Collapse a message to its shape, for counting how often it occurs.
pub fn normalise_message(msg: &str) -> (r: String)
    ensures
        r@ == normalised(msg@),
{
    let full = full_shape(msg);
    let v = chars_of(full.as_str());
    if !too_long(v.as_slice()) {
        return full;
    }
    let k = kept_chars(v.as_slice());
    let head = slice_of(v.as_slice(), 0, k);
    assert(head@ =~= v@.take(k as int));
    cat2(text_of(head.as_slice()).as_str(), "...")
}

// ── Laws ─────────────────────────────────────────────────────────────────────

/// What fits into `n` bytes takes up no more than that.
proof fn lemma_fitting(s: Seq<char>, n: int)
    requires
        n >= 0,
    ensures
        0 <= fitting(s, n) <= s.len(),
        byte_len(s.take(fitting(s, n))) <= n,
    decreases s.len(),
{
    if s.len() > 0 && width(s[0]) <= n {
        let rest = s.drop_first();
        lemma_fitting(rest, n - width(s[0]));
        let k = fitting(rest, n - width(s[0]));
        assert(s.take(k + 1).drop_first() =~= rest.take(k));
    }
}

/// The bytes of two texts together.
proof fn lemma_byte_len_add(a: Seq<char>, b: Seq<char>)
    ensures
        byte_len(a + b) == byte_len(a) + byte_len(b),
    decreases a.len(),
{
    if a.len() == 0 {
        assert(a + b =~= b);
    } else {
        lemma_byte_len_add(a.drop_first(), b);
        assert((a + b).drop_first() =~= a.drop_first() + b);
    }
}

/// The shape of a message never takes up more than `LONGEST` bytes.
pub proof fn lemma_shape_bounded(msg: Seq<char>)
    ensures
        byte_len(normalised(msg)) <= LONGEST,
{
    let s = shape(msg);
    if byte_len(s) > LONGEST {
        lemma_fitting(s, KEPT as int);
        lemma_byte_len_add(s.take(fitting(s, KEPT as int)), "..."@);
        reveal_strlit("...");
        reveal_with_fuel(byte_len, 4);
        assert("..."@.drop_first().drop_first().drop_first() =~= Seq::empty());
        assert("..."@[0] == '.' && "..."@.drop_first()[0] == '.' && "..."@.drop_first().drop_first()[0] == '.');
    }
}

/// Letters and digits in front of something else end where that begins.
proof fn lemma_id_end(id: Seq<char>, rest: Seq<char>)
    requires
        forall|i: int| 0 <= i < id.len() ==> ascii_alphanumeric(#[trigger] id[i]),
        rest.len() == 0 || !ascii_alphanumeric(rest[0]),
    ensures
        id_end(id + rest) == id.len(),
    decreases id.len(),
{
    let all = id + rest;
    if id.len() > 0 {
        let tail = id.drop_first();
        assert forall|i: int| 0 <= i < tail.len() implies ascii_alphanumeric(#[trigger] tail[i]) by {
            assert(tail[i] == id[i + 1]);
        }
        assert(all[0] == id[0]);
        assert(all.drop_first() =~= tail + rest);
        lemma_id_end(tail, rest);
    } else {
        assert(all =~= rest);
    }
}

/// A name without a delimiter in front of something that starts with one ends
/// where that begins.
proof fn lemma_path_end(path: Seq<char>, rest: Seq<char>)
    requires
        forall|i: int| 0 <= i < path.len() ==> !delimiter(#[trigger] path[i]),
        rest.len() == 0 || delimiter(rest[0]),
    ensures
        path_end(path + rest) == path.len(),
    decreases path.len(),
{
    let all = path + rest;
    if path.len() > 0 {
        let tail = path.drop_first();
        assert forall|i: int| 0 <= i < tail.len() implies !delimiter(#[trigger] tail[i]) by {
            assert(tail[i] == path[i + 1]);
        }
        assert(all[0] == path[0]);
        assert(all.drop_first() =~= tail + rest);
        lemma_path_end(tail, rest);
    } else {
        assert(all =~= rest);
    }
}

/// Which consumer a message names makes no difference to its shape.
pub proof fn lemma_consumer_id_irrelevant(id: Seq<char>, rest: Seq<char>)
    requires
        forall|i: int| 0 <= i < id.len() ==> ascii_alphanumeric(#[trigger] id[i]),
        rest.len() == 0 || !ascii_alphanumeric(rest[0]),
    ensures
        generalised("consumer_"@ + id + rest) == "consumer_<id>"@ + generalised(rest),
{
    let s = "consumer_"@ + id + rest;
    let n = "consumer_"@.len() as int;
    reveal_strlit("consumer_");
    assert(n == 9);
    assert(s.skip(n) =~= id + rest);
    lemma_id_end(id, rest);
    assert(s.subrange(0, n) =~= "consumer_"@);
    assert(begins_with(s, "consumer_"@));
    assert(part(s).0 == n + id.len());
    assert(s.skip(n + id.len()) =~= rest);
}

/// Which topic a message names makes no difference to its shape, but for whether
/// it is a partition.
pub proof fn lemma_topic_irrelevant(path: Seq<char>, rest: Seq<char>)
    requires
        forall|i: int| 0 <= i < path.len() ==> !delimiter(#[trigger] path[i]),
        rest.len() == 0 || delimiter(rest[0]),
    ensures
        generalised("persistent://"@ + path + rest) == topic_mark("persistent://"@ + path)
            + generalised(rest),
{
    let s = "persistent://"@ + path + rest;
    reveal_strlit("persistent://");
    reveal_strlit("consumer_");
    let n = "persistent://"@.len() as int;
    assert(n == 13);
    assert(s.skip(n) =~= path + rest);
    lemma_path_end(path, rest);
    assert(s.subrange(0, n) =~= "persistent://"@);
    assert(begins_with(s, "persistent://"@));
    assert(!begins_with(s, "consumer_"@)) by {
        assert(s[0] == 'p');
        assert("consumer_"@[0] == 'c');
        if begins_with(s, "consumer_"@) {
            assert(s.subrange(0, "consumer_"@.len() as int)[0] == s[0]);
        }
    }
    assert(scheme_len(s) == n);
    assert(part(s).0 == n + path.len());
    assert(s.take(n + path.len()) =~= "persistent://"@ + path);
    assert(s.skip(n + path.len()) =~= rest);
}

/// A number of less than six digits becomes a marker, whatever the number.
pub proof fn lemma_number_irrelevant(digits: Seq<char>)
    requires
        0 < digits.len() < 6,
        forall|i: int| 0 <= i < digits.len() ==> is_digit(#[trigger] digits[i]),
    ensures
        marked(digits) == "<n>"@,
{
    reveal_strlit("-partition-");
    lemma_find_from(digits, "-partition-"@, 0);
    assert("-partition-"@.len() == 11);
    if first(digits, "-partition-"@) is Some {
        let i = first(digits, "-partition-"@)->0;
        assert(occurs_at(digits, "-partition-"@, i));
    }
}

/// The number of a partition makes no difference to the shape of its name.
pub proof fn lemma_partition_irrelevant(name: Seq<char>, a: Seq<char>, b: Seq<char>)
    ensures
        marked(name + "-partition-"@ + a) == marked(name + "-partition-"@ + b),
{
    let mark = "-partition-"@;
    let x = name + mark + a;
    let y = name + mark + b;
    reveal_strlit("-partition-");
    assert(mark.len() == 11);
    lemma_find_from(x, mark, 0);
    lemma_find_from(y, mark, 0);
    let k = name.len() as int;
    assert(x.subrange(k, k + 11) =~= mark);
    assert(y.subrange(k, k + 11) =~= mark);
    assert(occurs_at(x, mark, k));
    assert(occurs_at(y, mark, k));
    let i = first(x, mark)->0;
    let j = first(y, mark)->0;
    assert(i <= k && j <= k);
    assert(x.subrange(i, i + 11) =~= y.subrange(i, i + 11));
    assert(x.subrange(j, j + 11) =~= y.subrange(j, j + 11));
    assert(occurs_at(y, mark, i));
    assert(occurs_at(x, mark, j));
    assert(i == j);
    assert(x.take(i) =~= y.take(i));
}

/// Which part of a word becomes which marker: an identifier in hexadecimal
/// notation of six characters or more with a digit in it, a shorter number, and
/// nothing else unless it names a partition.
pub proof fn lemma_marks(s: Seq<char>)
    requires
        first(s, "-partition-"@) is None,
    ensures
        ({
            let hex = forall|i: int|
                0 <= i < s.len() ==> '0' <= #[trigger] s[i] <= '9' || 'a' <= s[i] <= 'f' || 'A'
                    <= s[i] <= 'F' || s[i] == '-' || s[i] == '_';
            let digit = exists|i: int| 0 <= i < s.len() && '0' <= #[trigger] s[i] <= '9';
            let number = forall|i: int| 0 <= i < s.len() ==> '0' <= #[trigger] s[i] <= '9';
            &&& s.len() >= 6 && hex && digit ==> marked(s) == "<id>"@
            &&& 0 < s.len() < 6 && number ==> marked(s) == "<n>"@
            &&& !(s.len() >= 6 && hex && digit) && !(s.len() > 0 && number) ==> marked(s) == s
        }),
{
    if s.len() >= 6 && (forall|i: int|
        0 <= i < s.len() ==> '0' <= #[trigger] s[i] <= '9' || 'a' <= s[i] <= 'f' || 'A' <= s[i]
            <= 'F' || s[i] == '-' || s[i] == '_') && (exists|i: int|
        0 <= i < s.len() && '0' <= #[trigger] s[i] <= '9') {
        assert forall|i: int| 0 <= i < s.len() implies id_char(#[trigger] s[i]) by {}
        let i = choose|i: int| 0 <= i < s.len() && '0' <= #[trigger] s[i] <= '9';
        assert(is_digit(s[i]));
        assert(is_id(s));
    }
    if is_id(s) {
        assert forall|i: int| 0 <= i < s.len() implies '0' <= #[trigger] s[i] <= '9' || 'a' <= s[i]
            <= 'f' || 'A' <= s[i] <= 'F' || s[i] == '-' || s[i] == '_' by {
            assert(id_char(s[i]));
            lemma_digit_range(s[i]);
        }
        let i = choose|i: int| 0 <= i < s.len() && is_digit(#[trigger] s[i]);
        assert('0' <= s[i] <= '9');
    }
    if s.len() > 0 && forall|i: int| 0 <= i < s.len() ==> is_digit(#[trigger] s[i]) {
        assert forall|i: int| 0 <= i < s.len() implies '0' <= #[trigger] s[i] <= '9' by {
            assert(is_digit(s[i]));
            lemma_digit_range(s[i]);
        }
    }
    if s.len() > 0 && forall|i: int| 0 <= i < s.len() ==> '0' <= #[trigger] s[i] <= '9' {
        assert forall|i: int| 0 <= i < s.len() implies is_digit(#[trigger] s[i]) by {
            assert('0' <= s[i] <= '9');
        }
    }
}

/// The digits are the characters from `0` to `9`.
proof fn lemma_digit_range(c: char)
    ensures
        is_digit(c) <==> '0' <= c <= '9',
{
}

/// Of the name of a partition the marker keeps what stands in front of the number.
pub proof fn lemma_partition_mark(name: Seq<char>, number: Seq<char>)
    requires
        !(has(name + "-partition"@, "-partition-"@)),
    ensures
        marked(name + "-partition-"@ + number) == name + "-partition-<n>"@,
{
    let mark = "-partition-"@;
    let front = "-partition"@;
    let x = name + mark + number;
    reveal_strlit("-partition-");
    reveal_strlit("-partition");
    assert(mark.len() == 11 && front.len() == 10);
    assert(mark =~= front.push('-'));
    lemma_find_from(x, mark, 0);
    let k = name.len() as int;
    assert(x.subrange(k, k + 11) =~= mark);
    assert(occurs_at(x, mark, k));
    let i = first(x, mark)->0;
    assert(i <= k);
    if i < k {
        let y = name + front;
        assert(x.subrange(i, i + 11) =~= y.subrange(i, i + 11)) by {
            assert forall|j: int| i <= j < i + 11 implies #[trigger] x[j] == y[j] by {
                if j >= k {
                    assert(x[j] == mark[j - k]);
                    assert(y[j] == front[j - k]);
                }
            }
        }
        assert(occurs_at(y, mark, i));
    }
    assert(x.take(k) =~= name);
}

/// Punctuation around a word stays, and what is inside is marked.
pub proof fn lemma_word_marked(before: Seq<char>, core: Seq<char>, after: Seq<char>)
    requires
        core.len() > 0,
        !edge(core[0]),
        !edge(core.last()),
        forall|i: int| 0 <= i < before.len() ==> edge(#[trigger] before[i]),
        forall|i: int| 0 <= i < after.len() ==> edge(#[trigger] after[i]),
        before.len() > 0 || core[0] != '<',
    ensures
        marked_word()(before + core + after) == before + marked(core) + after,
{
    let s = before + core + after;
    reveal_strlit("<");
    assert("<"@.len() == 1 && "<"@[0] == '<');
    lemma_prefix_len(before, core + after);
    assert(before + (core + after) =~= s);
    assert((core + after)[0] == core[0]);
    lemma_suffix_len(before + core, after);
    assert((before + core).last() == core.last());
    if begins_with(s, "<"@) {
        assert(s.subrange(0, 1)[0] == s[0]);
        if before.len() > 0 {
            assert(edge(before[0]));
        }
    }
    let a = before.len() as int;
    let b = (before.len() + core.len()) as int;
    assert(core_range(s) == (a, b));
    assert(s.take(a) =~= before);
    assert(s.subrange(a, b) =~= core);
    assert(s.skip(b) =~= after);
}

/// How much punctuation stands in front.
proof fn lemma_prefix_len(before: Seq<char>, rest: Seq<char>)
    requires
        forall|i: int| 0 <= i < before.len() ==> edge(#[trigger] before[i]),
        rest.len() > 0 && !edge(rest[0]),
    ensures
        edge_prefix(before + rest) == before.len(),
    decreases before.len(),
{
    let s = before + rest;
    if before.len() > 0 {
        assert(edge(before[0]));
        assert(s[0] == before[0]);
        assert(s.drop_first() =~= before.drop_first() + rest);
        assert forall|i: int| 0 <= i < before.len() - 1 implies edge(
            #[trigger] before.drop_first()[i],
        ) by {
            assert(edge(before[i + 1]));
        }
        lemma_prefix_len(before.drop_first(), rest);
    } else {
        assert(s =~= rest);
    }
}

/// How much punctuation stands behind.
proof fn lemma_suffix_len(front: Seq<char>, after: Seq<char>)
    requires
        forall|i: int| 0 <= i < after.len() ==> edge(#[trigger] after[i]),
        front.len() > 0 && !edge(front.last()),
    ensures
        edge_suffix(front + after) == after.len(),
    decreases after.len(),
{
    let s = front + after;
    if after.len() > 0 {
        assert(edge(after[after.len() - 1]));
        assert(s.last() == after.last());
        assert(s.drop_last() =~= front + after.drop_last());
        assert forall|i: int| 0 <= i < after.len() - 1 implies edge(
            #[trigger] after.drop_last()[i],
        ) by {
            assert(edge(after[i]));
        }
        lemma_suffix_len(front, after.drop_last());
    } else {
        assert(s =~= front);
    }
}

/// Letters, digits and the signs of markers are no punctuation; everything else
/// is.
pub proof fn lemma_edges_told(c: char)
    ensures
        edge(c) <==> !('0' <= c <= '9' || 'a' <= c <= 'z' || 'A' <= c <= 'Z' || c == '<' || c
            == '>'),
{
}

/// A character with which no name of a consumer or a topic starts stays as it is.
pub proof fn lemma_other_text_stays(s: Seq<char>)
    requires
        s.len() > 0,
        !begins_with(s, "consumer_"@),
        !begins_with(s, "persistent://"@),
        !begins_with(s, "non-persistent://"@),
    ensures
        generalised(s) == seq![s[0]] + generalised(s.drop_first()),
{
    assert(s.take(1) =~= seq![s[0]]);
    assert(s.skip(1) =~= s.drop_first());
}

/// A topic of either kind becomes a marker, which tells whether it is a partition.
pub proof fn lemma_topics_marked(path: Seq<char>, rest: Seq<char>)
    requires
        forall|i: int|
            0 <= i < path.len() ==> #[trigger] path[i] != ' ' && path[i] != ']' && path[i] != ')'
                && path[i] != ',',
        rest.len() == 0 || rest[0] == ' ' || rest[0] == ']' || rest[0] == ')' || rest[0] == ',',
    ensures
        ({
            let a = "persistent://"@ + path;
            let b = "non-persistent://"@ + path;
            let mark = |name: Seq<char>|
                if has(name, "-partition-"@) {
                    "<topic>-partition-<n>"@
                } else {
                    "<topic>"@
                };
            &&& generalised(a + rest) == mark(a) + generalised(rest)
            &&& generalised(b + rest) == mark(b) + generalised(rest)
        }),
{
    assert forall|i: int| 0 <= i < path.len() implies !delimiter(#[trigger] path[i]) by {}
    lemma_topic_irrelevant(path, rest);
    let s = "non-persistent://"@ + path + rest;
    reveal_strlit("non-persistent://");
    reveal_strlit("persistent://");
    reveal_strlit("consumer_");
    let n = "non-persistent://"@.len() as int;
    assert(n == 17);
    assert(s.skip(n) =~= path + rest);
    lemma_path_end(path, rest);
    assert(s.subrange(0, n) =~= "non-persistent://"@);
    assert(begins_with(s, "non-persistent://"@));
    assert(s[0] == 'n');
    assert(!begins_with(s, "consumer_"@)) by {
        assert("consumer_"@[0] == 'c');
        if begins_with(s, "consumer_"@) {
            assert(s.subrange(0, "consumer_"@.len() as int)[0] == s[0]);
        }
    }
    assert(!begins_with(s, "persistent://"@)) by {
        assert("persistent://"@[0] == 'p');
        if begins_with(s, "persistent://"@) {
            assert(s.subrange(0, "persistent://"@.len() as int)[0] == s[0]);
        }
    }
    assert(scheme_len(s) == n);
    assert(part(s).0 == n + path.len());
    assert(s.take(n + path.len()) =~= "non-persistent://"@ + path);
    assert(s.skip(n + path.len()) =~= rest);
}

/// The next character does not fit any more.
proof fn lemma_fitting_most(s: Seq<char>, n: int)
    requires
        n >= 0,
    ensures
        fitting(s, n) < s.len() ==> byte_len(s.take(fitting(s, n) + 1)) > n,
    decreases s.len(),
{
    let k = fitting(s, n);
    lemma_fitting(s, n);
    if s.len() > 0 {
        let rest = s.drop_first();
        if width(s[0]) > n {
            assert(s.take(1).drop_first() =~= Seq::empty());
            assert(byte_len(s.take(1)) == width(s[0]) + byte_len(s.take(1).drop_first()));
        } else {
            let m = n - width(s[0]);
            lemma_fitting(rest, m);
            lemma_fitting_most(rest, m);
            if k < s.len() {
                assert(s.take(k + 1).drop_first() =~= rest.take(k));
                assert(s.take(k + 1)[0] == s[0]);
            }
        }
    }
}

/// A shape of up to 120 bytes stays whole; of a longer one as many characters stay
/// as fit into 117 bytes, in front of three dots.
pub proof fn lemma_shape_cut(msg: Seq<char>)
    ensures
        byte_len(shape(msg)) <= 120 ==> normalised(msg) == shape(msg),
        byte_len(shape(msg)) > 120 ==> exists|k: int|
            0 <= k < shape(msg).len() && byte_len(#[trigger] shape(msg).take(k)) <= 117 && byte_len(
                shape(msg).take(k + 1),
            ) > 117 && normalised(msg) == shape(msg).take(k) + "..."@,
{
    let s = shape(msg);
    if byte_len(s) > 120 {
        let k = fitting(s, 117);
        lemma_fitting(s, 117);
        lemma_fitting_most(s, 117);
        if k == s.len() {
            assert(s.take(k) =~= s);
        }
        assert(byte_len(s.take(k)) <= 117);
    }
}

/// The bytes of a text in UTF-8: one for each ASCII character, and up to four for
/// others.
pub proof fn lemma_bytes(s: Seq<char>, c: char)
    ensures
        byte_len(Seq::empty()) == 0,
        byte_len(s.push(c)) == byte_len(s) + (if (c as u32) <= 0x7f {
            1int
        } else if (c as u32) <= 0x7ff {
            2
        } else if (c as u32) <= 0xffff {
            3
        } else {
            4
        }),
{
    assert(s.push(c) =~= s + seq![c]);
    lemma_byte_len_add(s, seq![c]);
    assert(seq![c].drop_first() =~= Seq::empty());
    assert(byte_len(seq![c]) == width(c) + byte_len(seq![c].drop_first()));
}

/// A shape is the words of the message, each with its markers, with one space
/// between them.
pub proof fn lemma_shape_of_words(msg: Seq<char>, i: int)
    requires
        0 <= i < words(generalised(msg)).len(),
    ensures
        exists|parts: Seq<Seq<char>>|
            shape(msg) == #[trigger] joined(parts, " "@) && parts.len() == words(
                generalised(msg),
            ).len() && parts[i] == marked_word()(words(generalised(msg))[i]),
{
    let parts = words(generalised(msg)).map_values(marked_word());
    assert(shape(msg) == joined(parts, " "@));
}

} // verus!
