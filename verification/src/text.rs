//! Character-level text handling.
//!
//! Every text in this library is modelled by the sequence of its characters.
//! The executable functions here work on slices of `char`, and each one is
//! proved to compute the spec function of the corresponding name.
use vstd::prelude::*;
use vstd::string::*;

verus! {

/// `String::push` appends the given character to the end of the string.
pub assume_specification[ String::push ](s: &mut String, c: char)
    ensures
        final(s)@ == old(s)@.push(c),
;

/// `c` is alphabetic or numeric, as Unicode has it.
pub uninterp spec fn alphanumeric(c: char) -> bool;

/// `char::is_alphanumeric`: whether Unicode counts `c` as alphabetic or
/// numeric. Which characters those are is not spelled out here.
#[verifier::external_body]
pub(crate) fn is_alphanumeric(c: char) -> (r: bool)
    ensures
        r == alphanumeric(c),
{
    c.is_alphanumeric()
}

/// `c`, or the lower-case letter where it is an ASCII capital.
pub open spec fn lower(c: char) -> char {
    if 'A' <= c <= 'Z' {
        (c as u32 + 0x20) as char
    } else {
        c
    }
}

/// `c`, or the capital where it is an ASCII lower-case letter.
pub open spec fn upper(c: char) -> char {
    if 'a' <= c <= 'z' {
        (c as u32 - 0x20) as char
    } else {
        c
    }
}

/// `s` with its ASCII lower-case letters as capitals.
pub open spec fn ascii_upper(s: Seq<char>) -> Seq<char> {
    Seq::new(s.len(), |i: int| upper(s[i]))
}

/// The lower-case form of a character, as Unicode has it.
pub uninterp spec fn char_lowercase(c: char) -> Seq<char>;

/// `char::to_lowercase`: the lower-case form of `c` as Unicode has it, which may be
/// more than one character. An ASCII capital becomes the lower-case letter, and any
/// other ASCII character stays; what becomes of other characters is not spelled
/// out here.
#[verifier::external_body]
pub(crate) fn char_to_lowercase(c: char) -> (r: Vec<char>)
    ensures
        r@ == char_lowercase(c),
        c as int <= 0x7f ==> r@ == seq![lower(c)],
{
    c.to_lowercase().collect()
}

/// The lower-case form of a character: of an ASCII one the lower-case letter.
pub open spec fn lowered(c: char) -> Seq<char> {
    if c as int <= 0x7f {
        seq![lower(c)]
    } else {
        char_lowercase(c)
    }
}

/// The lower-case form of a text, character by character. A sigma has the same
/// form at the end of a word as elsewhere, so this form is for finding fragments
/// without one.
pub open spec fn lowercase(s: Seq<char>) -> Seq<char>
    decreases s.len(),
{
    if s.len() == 0 {
        Seq::empty()
    } else {
        lowercase(s.drop_last()) + lowered(s.last())
    }
}

/// The lower-case form of a text.
pub fn to_lowercase(s: &str) -> (r: String)
    ensures
        r@ == lowercase(s@),
{
    let v = chars_of(s);
    let mut out: Vec<char> = Vec::new();
    assert(v@.take(0) =~= Seq::empty());
    for i in 0..v.len()
        invariant
            out@ == lowercase(v@.take(i as int)),
    {
        assert(v@.take(i + 1).drop_last() =~= v@.take(i as int));
        let mut form = char_to_lowercase(v[i]);
        out.append(&mut form);
    }
    assert(v@.take(v@.len() as int) =~= v@);
    text_of(out.as_slice())
}

/// The lower-case form of a text is that of its parts, one after the other.
pub proof fn lemma_lowercase_add(a: Seq<char>, b: Seq<char>)
    ensures
        lowercase(a + b) == lowercase(a) + lowercase(b),
    decreases b.len(),
{
    if b.len() == 0 {
        assert(a + b =~= a);
    } else {
        lemma_lowercase_add(a, b.drop_last());
        assert((a + b).drop_last() =~= a + b.drop_last());
        assert((a + b).last() == b.last());
    }
}

/// A text and the same text in ASCII capitals have one lower-case form.
pub proof fn lemma_lowercase_upper(s: Seq<char>)
    ensures
        lowercase(ascii_upper(s)) == lowercase(s),
    decreases s.len(),
{
    if s.len() > 0 {
        lemma_lowercase_upper(s.drop_last());
        assert(ascii_upper(s).drop_last() =~= ascii_upper(s.drop_last()));
        lemma_lowered_upper(s.last());
    }
}

/// A letter and its capital have one lower-case form.
proof fn lemma_lowered_upper(c: char)
    ensures
        lowered(upper(c)) == lowered(c),
{
    if 'a' <= c <= 'z' {
        assert(lower(upper(c)) == c);
        assert(lower(c) == c);
    }
}

/// The characters of `s`, in order.
pub fn chars_of(s: &str) -> (r: Vec<char>)
    ensures
        r@ == s@,
{
    let mut r: Vec<char> = Vec::new();
    for c in it: s.chars()
        invariant
            r@ == it.seq().take(it.index() as int),
            it.seq() == s@,
    {
        r.push(c);
    }
    r
}

/// The string made of the characters of `v`, in order.
pub fn text_of(v: &[char]) -> (r: String)
    ensures
        r@ == v@,
{
    let mut r = String::new();
    for i in 0..v.len()
        invariant
            r@ == v@.take(i as int),
    {
        r.push(v[i]);
    }
    assert(v@.take(v@.len() as int) == v@);
    r
}


/// The code point of `c`.
pub fn code_point(c: char) -> (r: u32)
    ensures
        r as int == c as int,
        r <= 0x10_ffff,
{
    c as u32
}

/// An independent copy of `s`.
pub fn copy_of(s: &str) -> (r: String)
    ensures
        r@ == s@,
{
    s.to_owned()
}

/// The empty text.
pub fn empty_text() -> (r: &'static str)
    ensures
        r@ == Seq::<char>::empty(),
{
    proof {
        reveal_strlit("");
        assert(""@ =~= Seq::empty());
    }
    ""
}

/// Whether two texts hold the same characters.
pub fn same(a: &str, b: &str) -> (r: bool)
    ensures
        r == (a@ == b@),
{
    let left = chars_of(a);
    let right = chars_of(b);
    same_chars(left.as_slice(), right.as_slice())
}

/// Whether two slices hold the same characters.
pub fn same_chars(a: &[char], b: &[char]) -> (r: bool)
    ensures
        r == (a@ == b@),
{
    if a.len() != b.len() {
        return false;
    }
    for i in 0..a.len()
        invariant
            a@.len() == b@.len(),
            forall|j: int| 0 <= j < i ==> a@[j] == b@[j],
    {
        if a[i] != b[i] {
            assert(a@[i as int] != b@[i as int]);
            return false;
        }
    }
    assert(a@ =~= b@);
    true
}

/// An owned copy of the characters `v[from..to]`.
pub fn slice_of(v: &[char], from: usize, to: usize) -> (r: Vec<char>)
    requires
        from <= to <= v@.len(),
    ensures
        r@ == v@.subrange(from as int, to as int),
{
    let mut r: Vec<char> = Vec::new();
    for i in from..to
        invariant
            from <= to <= v@.len(),
            r@ == v@.subrange(from as int, i as int),
    {
        r.push(v[i]);
        assert(r@ =~= v@.subrange(from as int, i + 1));
    }
    r
}

// ── Searching ────────────────────────────────────────────────────────────────

/// `pat` stands in `s` at position `i`.
pub open spec fn occurs_at(s: Seq<char>, pat: Seq<char>, i: int) -> bool {
    &&& 0 <= i
    &&& i + pat.len() <= s.len()
    &&& s.subrange(i, i + pat.len()) == pat
}

/// `s` begins with `pat`.
pub open spec fn begins_with(s: Seq<char>, pat: Seq<char>) -> bool {
    occurs_at(s, pat, 0)
}

/// `s` ends with `pat`.
pub open spec fn finishes_with(s: Seq<char>, pat: Seq<char>) -> bool {
    occurs_at(s, pat, s.len() - pat.len())
}

/// `pat` stands somewhere in `s`.
pub open spec fn has(s: Seq<char>, pat: Seq<char>) -> bool {
    exists|i: int| #[trigger] occurs_at(s, pat, i)
}

/// The first position at or after `from` at which `pat` stands in `s`.
pub open spec fn find_from(s: Seq<char>, pat: Seq<char>, from: int) -> Option<int>
    decreases s.len() - from + 1,
{
    if from < 0 || from > s.len() {
        None
    } else if occurs_at(s, pat, from) {
        Some(from)
    } else {
        find_from(s, pat, from + 1)
    }
}

/// The first position at which `pat` stands in `s`.
pub open spec fn first(s: Seq<char>, pat: Seq<char>) -> Option<int> {
    find_from(s, pat, 0)
}

/// The last position at or before `upto` at which `pat` stands in `s`.
pub open spec fn rfind_upto(s: Seq<char>, pat: Seq<char>, upto: int) -> Option<int>
    decreases upto + 1,
{
    if upto < 0 {
        None
    } else if occurs_at(s, pat, upto) {
        Some(upto)
    } else {
        rfind_upto(s, pat, upto - 1)
    }
}

/// The last position at which `pat` stands in `s`.
pub open spec fn last(s: Seq<char>, pat: Seq<char>) -> Option<int> {
    rfind_upto(s, pat, s.len() as int)
}

/// `find_from` gives the least occurrence at or after `from`, and `None` only
/// when there is none.
pub proof fn lemma_find_from(s: Seq<char>, pat: Seq<char>, from: int)
    requires
        0 <= from,
    ensures
        match find_from(s, pat, from) {
            Some(i) => from <= i && occurs_at(s, pat, i) && (forall|j: int|
                from <= j < i ==> !#[trigger] occurs_at(s, pat, j)),
            None => forall|j: int| from <= j ==> !#[trigger] occurs_at(s, pat, j),
        },
    decreases s.len() - from + 1,
{
    if from <= s.len() && !occurs_at(s, pat, from) {
        lemma_find_from(s, pat, from + 1);
    }
}

/// `rfind_upto` gives the greatest occurrence at or before `upto`, and `None`
/// only when there is none.
pub proof fn lemma_rfind_upto(s: Seq<char>, pat: Seq<char>, upto: int)
    ensures
        match rfind_upto(s, pat, upto) {
            Some(i) => i <= upto && occurs_at(s, pat, i) && (forall|j: int|
                i < j <= upto ==> !#[trigger] occurs_at(s, pat, j)),
            None => forall|j: int| j <= upto ==> !#[trigger] occurs_at(s, pat, j),
        },
    decreases upto + 1,
{
    if upto >= 0 && !occurs_at(s, pat, upto) {
        lemma_rfind_upto(s, pat, upto - 1);
    }
}

/// The first occurrence of a single character.
pub proof fn lemma_first_char(s: Seq<char>, c: char, k: int)
    requires
        0 <= k < s.len(),
        s[k] == c,
        forall|j: int| 0 <= j < k ==> #[trigger] s[j] != c,
    ensures
        first(s, seq![c]) == Some(k),
{
    let pat = seq![c];
    assert(s.subrange(k, k + 1) =~= pat);
    assert(occurs_at(s, pat, k));
    lemma_find_from(s, pat, 0);
    assert forall|j: int| 0 <= j < k implies !#[trigger] occurs_at(s, pat, j) by {
        assert(s.subrange(j, j + 1)[0] == s[j]);
    }
}

/// Whether `pat` stands in `s` at position `i`.
pub fn stands_at(s: &[char], pat: &[char], i: usize) -> (r: bool)
    ensures
        r == occurs_at(s@, pat@, i as int),
{
    if i > s.len() || pat.len() > s.len() - i {
        return false;
    }
    for j in 0..pat.len()
        invariant
            i + pat@.len() <= s@.len() == s.len(),
            forall|k: int| 0 <= k < j ==> s@[i + k] == pat@[k],
    {
        if s[i + j] != pat[j] {
            assert(s@.subrange(i as int, i + pat@.len())[j as int] != pat@[j as int]);
            return false;
        }
    }
    assert(s@.subrange(i as int, i + pat@.len()) =~= pat@);
    true
}

/// Whether `s` begins with `pat`.
pub fn starts_with(s: &[char], pat: &str) -> (r: bool)
    ensures
        r == begins_with(s@, pat@),
{
    let p = chars_of(pat);
    stands_at(s, p.as_slice(), 0)
}

/// Whether `s` ends with `pat`.
pub fn ends_with(s: &[char], pat: &str) -> (r: bool)
    ensures
        r == finishes_with(s@, pat@),
{
    let p = chars_of(pat);
    if p.len() > s.len() {
        return false;
    }
    stands_at(s, p.as_slice(), s.len() - p.len())
}

/// The first position at or after `from` at which `pat` stands in `s`.
pub fn find_at_or_after(s: &[char], pat: &[char], from: usize) -> (r: Option<usize>)
    requires
        from <= s@.len(),
    ensures
        match r {
            Some(i) => find_from(s@, pat@, from as int) == Some(i as int) && i + pat@.len()
                <= s@.len(),
            None => find_from(s@, pat@, from as int) == None::<int>,
        },
{
    let mut i: usize = from;
    while i < s.len()
        invariant
            from <= i <= s@.len(),
            find_from(s@, pat@, from as int) == find_from(s@, pat@, i as int),
        decreases s@.len() - i,
    {
        if stands_at(s, pat, i) {
            return Some(i);
        }
        i = i + 1;
    }
    reveal_with_fuel(find_from, 2);
    if stands_at(s, pat, i) {
        Some(i)
    } else {
        None
    }
}

/// The first position at which `pat` stands in `s`.
pub fn find(s: &[char], pat: &str) -> (r: Option<usize>)
    ensures
        match r {
            Some(i) => first(s@, pat@) == Some(i as int) && i + pat@.len() <= s@.len(),
            None => first(s@, pat@) == None::<int>,
        },
{
    let p = chars_of(pat);
    find_at_or_after(s, p.as_slice(), 0)
}

/// The last position at which `pat` stands in `s`.
pub fn rfind(s: &[char], pat: &str) -> (r: Option<usize>)
    ensures
        match r {
            Some(i) => last(s@, pat@) == Some(i as int) && i + pat@.len() <= s@.len(),
            None => last(s@, pat@) == None::<int>,
        },
{
    let p = chars_of(pat);
    let mut i: usize = s.len();
    while i > 0
        invariant
            i <= s@.len(),
            p@ == pat@,
            last(s@, pat@) == rfind_upto(s@, pat@, i as int),
        decreases i,
    {
        if stands_at(s, p.as_slice(), i) {
            return Some(i);
        }
        i = i - 1;
    }
    reveal_with_fuel(rfind_upto, 2);
    if stands_at(s, p.as_slice(), i) {
        Some(i)
    } else {
        None
    }
}

/// Whether `pat` stands somewhere in `s`.
pub fn contains(s: &[char], pat: &str) -> (r: bool)
    ensures
        r == has(s@, pat@),
{
    let found = find(s, pat);
    proof {
        lemma_find_from(s@, pat@, 0);
        assert(forall|j: int| occurs_at(s@, pat@, j) ==> 0 <= j);
    }
    found.is_some()
}

/// Whether the text `s` holds `pat`.
pub fn text_contains(s: &str, pat: &str) -> (r: bool)
    ensures
        r == has(s@, pat@),
{
    let v = chars_of(s);
    contains(v.as_slice(), pat)
}

// ── White space ──────────────────────────────────────────────────────────────

/// The characters with Unicode's White_Space property.
pub open spec fn space(c: char) -> bool {
    ||| 0x9 <= c as u32 <= 0xd
    ||| c as u32 == 0x20
    ||| c as u32 == 0x85
    ||| c as u32 == 0xa0
    ||| c as u32 == 0x1680
    ||| 0x2000 <= c as u32 <= 0x200a
    ||| c as u32 == 0x2028
    ||| c as u32 == 0x2029
    ||| c as u32 == 0x202f
    ||| c as u32 == 0x205f
    ||| c as u32 == 0x3000
}

/// Whether `c` has Unicode's White_Space property.
pub fn is_space(c: char) -> (r: bool)
    ensures
        r == space(c),
{
    let n: u32 = c as u32;
    (0x9 <= n && n <= 0xd) || n == 0x20 || n == 0x85 || n == 0xa0 || n == 0x1680 || (0x2000 <= n
        && n <= 0x200a) || n == 0x2028 || n == 0x2029 || n == 0x202f || n == 0x205f || n == 0x3000
}

/// `s` without its leading white space.
pub open spec fn trimmed_start(s: Seq<char>) -> Seq<char>
    decreases s.len(),
{
    if s.len() > 0 && space(s[0]) {
        trimmed_start(s.drop_first())
    } else {
        s
    }
}

/// `s` without its trailing white space.
pub open spec fn trimmed_end(s: Seq<char>) -> Seq<char>
    decreases s.len(),
{
    if s.len() > 0 && space(s.last()) {
        trimmed_end(s.drop_last())
    } else {
        s
    }
}

/// `s` without the white space around it.
pub open spec fn trimmed(s: Seq<char>) -> Seq<char> {
    trimmed_end(trimmed_start(s))
}

/// `s` without its leading white space.
pub fn trim_start(s: &[char]) -> (r: Vec<char>)
    ensures
        r@ == trimmed_start(s@),
{
    let mut i: usize = 0;
    assert(s@.subrange(0, s@.len() as int) =~= s@);
    while i < s.len() && is_space(s[i])
        invariant
            i <= s@.len(),
            trimmed_start(s@) == trimmed_start(s@.subrange(i as int, s@.len() as int)),
        decreases s@.len() - i,
    {
        proof {
            let rest = s@.subrange(i as int, s@.len() as int);
            assert(rest[0] == s@[i as int]);
            assert(rest.drop_first() =~= s@.subrange(i + 1, s@.len() as int));
        }
        i = i + 1;
    }
    proof {
        let rest = s@.subrange(i as int, s@.len() as int);
        if rest.len() > 0 {
            assert(rest[0] == s@[i as int]);
        }
    }
    slice_of(s, i, s.len())
}

/// `s` without its trailing white space.
pub fn trim_end(s: &[char]) -> (r: Vec<char>)
    ensures
        r@ == trimmed_end(s@),
{
    let mut n: usize = s.len();
    assert(s@.subrange(0, s@.len() as int) =~= s@);
    while n > 0 && is_space(s[n - 1])
        invariant
            n <= s@.len(),
            trimmed_end(s@) == trimmed_end(s@.subrange(0, n as int)),
        decreases n,
    {
        proof {
            let rest = s@.subrange(0, n as int);
            assert(rest.last() == s@[n - 1]);
            assert(rest.drop_last() =~= s@.subrange(0, n - 1));
        }
        n = n - 1;
    }
    proof {
        let rest = s@.subrange(0, n as int);
        if rest.len() > 0 {
            assert(rest.last() == s@[n - 1]);
        }
    }
    slice_of(s, 0, n)
}

/// `s` without the white space around it.
pub fn trim(s: &[char]) -> (r: Vec<char>)
    ensures
        r@ == trimmed(s@),
{
    let head = trim_start(s);
    trim_end(head.as_slice())
}

// ── Splitting and joining ────────────────────────────────────────────────────

/// Where `c` first stands in `s`, or the length of `s`.
pub open spec fn char_index(s: Seq<char>, c: char) -> int
    decreases s.len(),
{
    if s.len() == 0 || s[0] == c {
        0
    } else {
        1 + char_index(s.drop_first(), c)
    }
}

/// `char_index` is the first place of `c`, or the length where there is none.
pub proof fn lemma_char_index(s: Seq<char>, c: char)
    ensures
        0 <= char_index(s, c) <= s.len(),
        char_index(s, c) < s.len() ==> s[char_index(s, c)] == c,
        forall|j: int| 0 <= j < char_index(s, c) ==> #[trigger] s[j] != c,
    decreases s.len(),
{
    if s.len() > 0 && s[0] != c {
        lemma_char_index(s.drop_first(), c);
        let k = char_index(s.drop_first(), c);
        assert forall|j: int| 0 <= j < 1 + k implies #[trigger] s[j] != c by {
            if j > 0 {
                assert(s[j] == s.drop_first()[j - 1]);
            }
        }
    }
}

/// Where `c` first stands in `s`, or the length of `s`.
pub fn index_of(s: &[char], c: char) -> (r: usize)
    ensures
        r == char_index(s@, c),
        r <= s@.len(),
        r < s@.len() ==> s@[r as int] == c,
{
    let mut i: usize = 0;
    assert(s@.skip(0) =~= s@);
    while i < s.len() && s[i] != c
        invariant
            i <= s@.len(),
            char_index(s@, c) == i + char_index(s@.skip(i as int), c),
        decreases s@.len() - i,
    {
        assert(s@.skip(i as int).drop_first() =~= s@.skip(i + 1));
        i = i + 1;
    }
    i
}

/// The pieces of `s` between the occurrences of `c`.
pub open spec fn pieces(s: Seq<char>, c: char) -> Seq<Seq<char>>
    decreases s.len(),
{
    let i = char_index(s, c);
    if i < 0 || i >= s.len() {
        seq![s]
    } else {
        seq![s.subrange(0, i)] + pieces(s.subrange(i + 1, s.len() as int), c)
    }
}

/// The pieces of `s` between the occurrences of `c`.
pub fn split(s: &[char], c: char) -> (r: Vec<String>)
    ensures
        r.deep_view() == pieces(s@, c),
{
    let mut r: Vec<String> = Vec::new();
    let n: usize = s.len();
    let mut from: usize = 0;
    proof {
        assert(s@.subrange(0, s@.len() as int) =~= s@);
        assert(r.deep_view() + pieces(s@, c) =~= pieces(s@, c));
    }
    loop
        invariant_except_break
            from <= n == s@.len(),
            pieces(s@, c) == r.deep_view() + pieces(s@.subrange(from as int, n as int), c),
        ensures
            r.deep_view() == pieces(s@, c),
        decreases n - from,
    {
        let rest = slice_of(s, from, n);
        let i = index_of(rest.as_slice(), c);
        let piece = text_of(slice_of(rest.as_slice(), 0, i).as_slice());
        let ghost before = r.deep_view();
        let ghost view = piece@;
        r.push(piece);
        assert(r.deep_view() =~= before.push(view));
        if i == rest.len() {
            proof {
                assert(view =~= rest@);
                assert(before + seq![rest@] =~= r.deep_view());
            }
            break;
        }
        proof {
            let next = rest@.subrange(i + 1, rest@.len() as int);
            assert(next =~= s@.subrange(from + i + 1, n as int));
            assert(before + (seq![view] + pieces(next, c)) =~= r.deep_view() + pieces(next, c));
        }
        from = from + i + 1;
    }
    r
}

/// `s` up to its first white space.
pub open spec fn first_word(s: Seq<char>) -> Seq<char>
    decreases s.len(),
{
    if s.len() == 0 || space(s[0]) {
        Seq::empty()
    } else {
        seq![s[0]] + first_word(s.drop_first())
    }
}

/// How long the first word of `s` is.
pub fn word_len(s: &[char]) -> (r: usize)
    ensures
        r <= s@.len(),
        first_word(s@) == s@.take(r as int),
        r < s@.len() ==> space(s@[r as int]),
        forall|j: int| 0 <= j < r ==> !space(#[trigger] s@[j]),
{
    let mut i: usize = 0;
    assert(s@.skip(0) =~= s@);
    assert(s@.take(0) + first_word(s@) =~= first_word(s@));
    while i < s.len() && !is_space(s[i])
        invariant
            i <= s@.len(),
            first_word(s@) == s@.take(i as int) + first_word(s@.skip(i as int)),
            forall|j: int| 0 <= j < i ==> !space(#[trigger] s@[j]),
        decreases s@.len() - i,
    {
        proof {
            let rest = s@.skip(i as int);
            assert(rest.drop_first() =~= s@.skip(i + 1));
            assert(rest[0] == s@[i as int]);
            assert(s@.take(i as int) + (seq![rest[0]] + first_word(rest.drop_first()))
                =~= s@.take(i + 1) + first_word(rest.drop_first()));
        }
        i = i + 1;
    }
    proof {
        let rest = s@.skip(i as int);
        if i < s@.len() {
            assert(rest[0] == s@[i as int]);
        }
        assert(s@.take(i as int) + Seq::<char>::empty() =~= s@.take(i as int));
    }
    i
}

/// The words of `s`: its longest pieces without white space.
pub open spec fn words(s: Seq<char>) -> Seq<Seq<char>>
    decreases s.len(),
{
    if s.len() == 0 {
        Seq::empty()
    } else if space(s[0]) {
        words(s.drop_first())
    } else {
        let w = first_word(s);
        if w.len() == 0 || w.len() > s.len() {
            Seq::empty()
        } else {
            seq![w] + words(s.skip(w.len() as int))
        }
    }
}

/// The words of `s`.
pub fn split_words(s: &[char]) -> (r: Vec<String>)
    ensures
        r.deep_view() == words(s@),
{
    let mut r: Vec<String> = Vec::new();
    let n: usize = s.len();
    let mut from: usize = 0;
    proof {
        assert(s@.skip(0) =~= s@);
        assert(r.deep_view() + words(s@) =~= words(s@));
    }
    while from < n
        invariant
            from <= n == s@.len(),
            words(s@) == r.deep_view() + words(s@.skip(from as int)),
        decreases n - from,
    {
        let ghost here = s@.skip(from as int);
        if is_space(s[from]) {
            assert(here.drop_first() =~= s@.skip(from + 1));
            from = from + 1;
        } else {
            let rest = slice_of(s, from, n);
            assert(rest@ =~= here);
            let k = word_len(rest.as_slice());
            assert(k > 0) by {
                assert(!space(here[0]));
                if k == 0 {
                    assert(space(here[0]));
                }
            }
            let word = text_of(slice_of(rest.as_slice(), 0, k).as_slice());
            let ghost before = r.deep_view();
            let ghost view = word@;
            r.push(word);
            proof {
                assert(r.deep_view() =~= before.push(view));
                assert(view =~= here.take(k as int));
                assert(here.skip(k as int) =~= s@.skip(from + k));
                assert(before + (seq![view] + words(here.skip(k as int))) =~= r.deep_view() + words(
                    here.skip(k as int),
                ));
            }
            from = from + k;
        }
    }
    assert(s@.skip(n as int) =~= Seq::empty());
    assert(r.deep_view() + Seq::<Seq<char>>::empty() =~= r.deep_view());
    r
}

/// The texts `parts` with `sep` between them.
pub open spec fn joined(parts: Seq<Seq<char>>, sep: Seq<char>) -> Seq<char>
    decreases parts.len(),
{
    if parts.len() == 0 {
        Seq::empty()
    } else if parts.len() == 1 {
        parts[0]
    } else {
        joined(parts.drop_last(), sep) + sep + parts.last()
    }
}

/// The texts `parts` with `sep` between them.
pub fn join(parts: &Vec<String>, sep: &str) -> (r: String)
    ensures
        r@ == joined(parts.deep_view(), sep@),
{
    let mut r = String::new();
    let ghost all = parts.deep_view();
    assert(all.take(0) =~= Seq::empty());
    for i in 0..parts.len()
        invariant
            all == parts.deep_view(),
            r@ == joined(all.take(i as int), sep@),
    {
        proof {
            let next = all.take(i + 1);
            assert(next.drop_last() =~= all.take(i as int));
            assert(next.last() == parts@[i as int]@);
            if i == 0 {
                assert(r@ =~= Seq::empty());
                assert(r@ + parts@[0]@ =~= parts@[0]@);
            }
        }
        if i > 0 {
            r.append(sep);
        }
        r.append(parts[i].as_str());
    }
    assert(all.take(all.len() as int) =~= all);
    r
}

// ── Putting texts together ───────────────────────────────────────────────────

/// Two texts one behind the other.
pub fn cat2(a: &str, b: &str) -> (r: String)
    ensures
        r@ == a@ + b@,
{
    let mut r = copy_of(a);
    r.append(b);
    r
}

/// Three texts one behind the other.
pub fn cat3(a: &str, b: &str, c: &str) -> (r: String)
    ensures
        r@ == a@ + b@ + c@,
{
    let mut r = copy_of(a);
    r.append(b);
    r.append(c);
    r
}

/// Four texts one behind the other.
pub fn cat4(a: &str, b: &str, c: &str, d: &str) -> (r: String)
    ensures
        r@ == a@ + b@ + c@ + d@,
{
    let mut r = copy_of(a);
    r.append(b);
    r.append(c);
    r.append(d);
    r
}

/// Five texts one behind the other.
pub fn cat5(a: &str, b: &str, c: &str, d: &str, e: &str) -> (r: String)
    ensures
        r@ == a@ + b@ + c@ + d@ + e@,
{
    let mut r = copy_of(a);
    r.append(b);
    r.append(c);
    r.append(d);
    r.append(e);
    r
}

/// Six texts one behind the other.
pub fn cat6(a: &str, b: &str, c: &str, d: &str, e: &str, f: &str) -> (r: String)
    ensures
        r@ == a@ + b@ + c@ + d@ + e@ + f@,
{
    let mut r = copy_of(a);
    r.append(b);
    r.append(c);
    r.append(d);
    r.append(e);
    r.append(f);
    r
}

/// Seven texts one behind the other.
pub fn cat7(a: &str, b: &str, c: &str, d: &str, e: &str, f: &str, g: &str) -> (r: String)
    ensures
        r@ == a@ + b@ + c@ + d@ + e@ + f@ + g@,
{
    let mut r = copy_of(a);
    r.append(b);
    r.append(c);
    r.append(d);
    r.append(e);
    r.append(f);
    r.append(g);
    r
}

/// Eight texts one behind the other.
pub fn cat8(a: &str, b: &str, c: &str, d: &str, e: &str, f: &str, g: &str, h: &str) -> (r: String)
    ensures
        r@ == a@ + b@ + c@ + d@ + e@ + f@ + g@ + h@,
{
    let mut r = copy_of(a);
    r.append(b);
    r.append(c);
    r.append(d);
    r.append(e);
    r.append(f);
    r.append(g);
    r.append(h);
    r
}

/// The texts `parts` one behind the other.
pub open spec fn glued(parts: Seq<Seq<char>>) -> Seq<char>
    decreases parts.len(),
{
    if parts.len() == 0 {
        Seq::empty()
    } else {
        glued(parts.drop_last()) + parts.last()
    }
}

/// One more text at the end.
pub proof fn lemma_glued_push(parts: Seq<Seq<char>>, x: Seq<char>)
    ensures
        glued(parts.push(x)) == glued(parts) + x,
{
    assert(parts.push(x).drop_last() =~= parts);
}

/// The lines of `s`: what stands before each line feed, without a carriage
/// return at its end, and what follows the last line feed, unless that is
/// nothing.
pub open spec fn lines(s: Seq<char>) -> Seq<Seq<char>>
    decreases s.len(),
{
    let i = char_index(s, '\n');
    if s.len() == 0 {
        Seq::empty()
    } else if i < 0 || i >= s.len() {
        seq![s]
    } else {
        seq![without_return(s.subrange(0, i))] + lines(s.subrange(i + 1, s.len() as int))
    }
}

/// `s` without a carriage return at its end.
pub open spec fn without_return(s: Seq<char>) -> Seq<char> {
    if s.len() > 0 && s.last() == '\r' {
        s.drop_last()
    } else {
        s
    }
}

/// The lines of `s`.
pub fn split_lines(s: &[char]) -> (r: Vec<String>)
    ensures
        r.deep_view() == lines(s@),
{
    let mut r: Vec<String> = Vec::new();
    let n: usize = s.len();
    let mut from: usize = 0;
    proof {
        assert(s@.subrange(0, s@.len() as int) =~= s@);
        assert(r.deep_view() + lines(s@) =~= lines(s@));
    }
    while from < n
        invariant
            from <= n == s@.len(),
            lines(s@) == r.deep_view() + lines(s@.subrange(from as int, n as int)),
        decreases n - from,
    {
        let rest = slice_of(s, from, n);
        let i = index_of(rest.as_slice(), '\n');
        let ghost before = r.deep_view();
        if i == rest.len() {
            let line = text_of(rest.as_slice());
            let ghost view = line@;
            r.push(line);
            proof {
                assert(r.deep_view() =~= before + seq![rest@]);
                assert(s@.subrange(n as int, n as int) =~= Seq::empty());
                assert(r.deep_view() + Seq::<Seq<char>>::empty() =~= r.deep_view());
            }
            from = n;
        } else {
            let end: usize = if i > 0 && rest[i - 1] == '\r' { i - 1 } else { i };
            let line = text_of(slice_of(rest.as_slice(), 0, end).as_slice());
            let ghost view = line@;
            r.push(line);
            proof {
                let whole = rest@.subrange(0, i as int);
                if i > 0 {
                    assert(whole.last() == rest@[i - 1]);
                }
                assert(view =~= without_return(whole));
                assert(r.deep_view() =~= before.push(view));
                let next = rest@.subrange(i + 1, rest@.len() as int);
                assert(next =~= s@.subrange(from + i + 1, n as int));
                assert(before + (seq![view] + lines(next)) =~= r.deep_view() + lines(next));
            }
            from = from + i + 1;
        }
    }
    proof {
        assert(s@.subrange(n as int, n as int) =~= Seq::empty());
        assert(r.deep_view() + Seq::<Seq<char>>::empty() =~= r.deep_view());
    }
    r
}

/// `s` without the occurrences of `c` at its start.
pub open spec fn stripped_start(s: Seq<char>, c: char) -> Seq<char>
    decreases s.len(),
{
    if s.len() > 0 && s[0] == c {
        stripped_start(s.drop_first(), c)
    } else {
        s
    }
}

/// `s` without the occurrences of `c` at its end.
pub open spec fn stripped_end(s: Seq<char>, c: char) -> Seq<char>
    decreases s.len(),
{
    if s.len() > 0 && s.last() == c {
        stripped_end(s.drop_last(), c)
    } else {
        s
    }
}

/// `s` without the occurrences of `c` at its start and end.
pub fn strip(s: &[char], c: char) -> (r: Vec<char>)
    ensures
        r@ == stripped_end(stripped_start(s@, c), c),
{
    let n: usize = s.len();
    let mut from: usize = 0;
    assert(s@.skip(0) =~= s@);
    while from < n && s[from] == c
        invariant
            from <= n == s@.len(),
            stripped_start(s@, c) == stripped_start(s@.skip(from as int), c),
        decreases n - from,
    {
        assert(s@.skip(from as int).drop_first() =~= s@.skip(from + 1));
        from = from + 1;
    }
    let ghost head = s@.skip(from as int);
    let mut to: usize = n;
    assert(s@.subrange(from as int, n as int) =~= head);
    while to > from && s[to - 1] == c
        invariant
            from <= to <= n == s@.len(),
            head == stripped_start(s@, c),
            stripped_end(head, c) == stripped_end(s@.subrange(from as int, to as int), c),
        decreases to,
    {
        let ghost part = s@.subrange(from as int, to as int);
        assert(part.last() == s@[to - 1]);
        assert(part.drop_last() =~= s@.subrange(from as int, to - 1));
        to = to - 1;
    }
    proof {
        let part = s@.subrange(from as int, to as int);
        if from < to {
            assert(part.last() == s@[to - 1]);
        }
    }
    slice_of(s, from, to)
}

/// A text has another exactly where it is made of something, the other, and
/// something more.
pub proof fn lemma_has_means_within(s: Seq<char>, pat: Seq<char>)
    ensures
        has(s, pat) <==> exists|a: Seq<char>, b: Seq<char>| s == #[trigger] (a + pat + b),
{
    if has(s, pat) {
        let i = choose|i: int| #[trigger] occurs_at(s, pat, i);
        let a = s.take(i);
        let b = s.skip(i + pat.len());
        assert(s =~= a + pat + b);
    }
    if exists|a: Seq<char>, b: Seq<char>| s == #[trigger] (a + pat + b) {
        let (a, b) = choose|a: Seq<char>, b: Seq<char>| s == #[trigger] (a + pat + b);
        assert(s.subrange(a.len() as int, a.len() as int + pat.len()) =~= pat);
        assert(occurs_at(s, pat, a.len() as int));
    }
}

/// White space in front goes, up to the first other character.
proof fn lemma_trimmed_start(before: Seq<char>, rest: Seq<char>)
    requires
        forall|i: int| 0 <= i < before.len() ==> space(#[trigger] before[i]),
        rest.len() == 0 || !space(rest[0]),
    ensures
        trimmed_start(before + rest) == rest,
    decreases before.len(),
{
    let s = before + rest;
    if before.len() > 0 {
        assert(space(before[0]) && s[0] == before[0]);
        assert(s.drop_first() =~= before.drop_first() + rest);
        assert forall|i: int| 0 <= i < before.len() - 1 implies space(
            #[trigger] before.drop_first()[i],
        ) by {
            assert(space(before[i + 1]));
        }
        lemma_trimmed_start(before.drop_first(), rest);
    } else {
        assert(s =~= rest);
    }
}

/// White space behind goes, up to the last other character.
proof fn lemma_trimmed_end(front: Seq<char>, after: Seq<char>)
    requires
        forall|i: int| 0 <= i < after.len() ==> space(#[trigger] after[i]),
        front.len() == 0 || !space(front.last()),
    ensures
        trimmed_end(front + after) == front,
    decreases after.len(),
{
    let s = front + after;
    if after.len() > 0 {
        assert(space(after[after.len() - 1]) && s.last() == after.last());
        assert(s.drop_last() =~= front + after.drop_last());
        assert forall|i: int| 0 <= i < after.len() - 1 implies space(
            #[trigger] after.drop_last()[i],
        ) by {
            assert(space(after[i]));
        }
        lemma_trimmed_end(front, after.drop_last());
    } else {
        assert(s =~= front);
    }
}

/// Trimming takes the white space off both ends and nothing else.
pub proof fn lemma_trimmed(before: Seq<char>, s: Seq<char>, after: Seq<char>)
    requires
        forall|i: int| 0 <= i < before.len() ==> space(#[trigger] before[i]),
        forall|i: int| 0 <= i < after.len() ==> space(#[trigger] after[i]),
        s.len() > 0,
        !space(s[0]),
        !space(s.last()),
    ensures
        trimmed(before + s + after) == s,
        trimmed(before).len() == 0,
{
    let rest = s + after;
    assert(before + s + after =~= before + rest);
    assert(rest[0] == s[0]);
    lemma_trimmed_start(before, rest);
    lemma_trimmed_end(s, after);
    let none = Seq::<char>::empty();
    lemma_trimmed_start(before, none);
    assert(before + none =~= before);
}

/// The first occurrence of a character behind a text without it.
proof fn lemma_index_behind(front: Seq<char>, c: char, rest: Seq<char>)
    requires
        forall|i: int| 0 <= i < front.len() ==> #[trigger] front[i] != c,
    ensures
        char_index(front + seq![c] + rest, c) == front.len(),
        char_index(front, c) == front.len(),
{
    let s = front + seq![c] + rest;
    lemma_char_index(s, c);
    lemma_char_index(front, c);
    let k = char_index(s, c);
    assert(s[front.len() as int] == c);
    if k < front.len() {
        assert(s[k] == front[k]);
    }
}

/// The lines of a text: each ends at a line feed, with or without a carriage return
/// in front of it, and the last may have neither.
pub proof fn lemma_lines(line: Seq<char>, rest: Seq<char>)
    requires
        forall|i: int| 0 <= i < line.len() ==> #[trigger] line[i] != '\n',
    ensures
        lines(Seq::empty()).len() == 0,
        line.len() > 0 ==> lines(line) == seq![line],
        line.len() == 0 || line.last() != '\r' ==> lines(line + seq!['\n'] + rest) == seq![line]
            + lines(rest),
        lines(line + seq!['\r', '\n'] + rest) == seq![line] + lines(rest),
{
    lemma_index_behind(line, '\n', rest);
    let a = line + seq!['\n'] + rest;
    assert(a.subrange(0, line.len() as int) =~= line);
    assert(a.subrange(line.len() as int + 1, a.len() as int) =~= rest);
    let front = line.push('\r');
    assert forall|i: int| 0 <= i < front.len() implies #[trigger] front[i] != '\n' by {
        if i < line.len() {
            assert(front[i] == line[i]);
        }
    }
    lemma_index_behind(front, '\n', rest);
    let b = line + seq!['\r', '\n'] + rest;
    assert(b =~= front + seq!['\n'] + rest);
    assert(b.subrange(0, front.len() as int) =~= front);
    assert(b.subrange(front.len() as int + 1, b.len() as int) =~= rest);
    assert(front.drop_last() =~= line);
}

/// The first word of a text ends at its first white space.
proof fn lemma_first_word(word: Seq<char>, rest: Seq<char>)
    requires
        forall|i: int| 0 <= i < word.len() ==> !space(#[trigger] word[i]),
        rest.len() == 0 || space(rest[0]),
    ensures
        first_word(word + rest) == word,
    decreases word.len(),
{
    let s = word + rest;
    if word.len() > 0 {
        assert(!space(word[0]) && s[0] == word[0]);
        assert(s.drop_first() =~= word.drop_first() + rest);
        assert forall|i: int| 0 <= i < word.len() - 1 implies !space(
            #[trigger] word.drop_first()[i],
        ) by {
            assert(!space(word[i + 1]));
        }
        lemma_first_word(word.drop_first(), rest);
        assert(seq![word[0]] + word.drop_first() =~= word);
    } else {
        assert(s =~= rest);
    }
}

/// The words of a text stand between white space, however much of it there is.
pub proof fn lemma_words(gap: Seq<char>, word: Seq<char>, rest: Seq<char>)
    requires
        forall|i: int| 0 <= i < gap.len() ==> space(#[trigger] gap[i]),
        word.len() > 0,
        forall|i: int| 0 <= i < word.len() ==> !space(#[trigger] word[i]),
        rest.len() == 0 || space(rest[0]),
    ensures
        words(gap).len() == 0,
        words(gap + word + rest) == seq![word] + words(rest),
        first_word(word + rest) == word,
    decreases gap.len(),
{
    let s = gap + word + rest;
    lemma_first_word(word, rest);
    if gap.len() > 0 {
        let less = gap.drop_first();
        assert(space(gap[0]) && s[0] == gap[0]);
        assert(s.drop_first() =~= less + word + rest);
        assert forall|i: int| 0 <= i < less.len() implies space(#[trigger] less[i]) by {
            assert(space(gap[i + 1]));
        }
        lemma_words(less, word, rest);
    } else {
        assert(s =~= word + rest);
        assert(!space(word[0]) && s[0] == word[0]);
        assert(s.skip(word.len() as int) =~= rest);
    }
}

/// The pieces of a text stand between the occurrences of a character.
pub proof fn lemma_pieces(piece: Seq<char>, c: char, rest: Seq<char>)
    requires
        forall|i: int| 0 <= i < piece.len() ==> #[trigger] piece[i] != c,
    ensures
        pieces(piece, c) == seq![piece],
        pieces(piece + seq![c] + rest, c) == seq![piece] + pieces(rest, c),
{
    lemma_index_behind(piece, c, rest);
    let s = piece + seq![c] + rest;
    assert(s.subrange(0, piece.len() as int) =~= piece);
    assert(s.subrange(piece.len() as int + 1, s.len() as int) =~= rest);
}

/// One more text is joined behind the separator, and the first one without it.
pub proof fn lemma_joined(parts: Seq<Seq<char>>, more: Seq<char>, sep: Seq<char>)
    ensures
        joined(Seq::empty(), sep).len() == 0,
        joined(seq![more], sep) == more,
        parts.len() > 0 ==> joined(parts.push(more), sep) == joined(parts, sep) + sep + more,
{
    assert(parts.push(more).drop_last() =~= parts);
}

} // verus!
