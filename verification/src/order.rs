//! Ordering of texts and stable sorting.
use vstd::prelude::*;
use crate::text::chars_of;

verus! {

/// `a` stands before `b` in the lexicographic order of code points, which is
/// also the order of their UTF-8 bytes.
pub open spec fn precedes(a: Seq<char>, b: Seq<char>) -> bool
    decreases a.len(),
{
    if b.len() == 0 {
        false
    } else if a.len() == 0 {
        true
    } else if a[0] != b[0] {
        (a[0] as int) < (b[0] as int)
    } else {
        precedes(a.drop_first(), b.drop_first())
    }
}

/// No text stands before itself.
pub proof fn lemma_precedes_irreflexive(a: Seq<char>)
    ensures
        !precedes(a, a),
    decreases a.len(),
{
    if a.len() > 0 {
        lemma_precedes_irreflexive(a.drop_first());
    }
}

/// Of two different texts exactly one stands before the other.
pub proof fn lemma_precedes_total(a: Seq<char>, b: Seq<char>)
    ensures
        a == b || precedes(a, b) || precedes(b, a),
        !(precedes(a, b) && precedes(b, a)),
    decreases a.len(),
{
    if a.len() == 0 && b.len() == 0 {
        assert(a =~= b);
    } else if a.len() > 0 && b.len() > 0 && a[0] == b[0] {
        lemma_precedes_total(a.drop_first(), b.drop_first());
        if a.drop_first() == b.drop_first() {
            assert(a =~= seq![a[0]] + a.drop_first());
            assert(b =~= seq![b[0]] + b.drop_first());
        }
    }
}

/// The order of texts is transitive.
pub proof fn lemma_precedes_transitive(a: Seq<char>, b: Seq<char>, c: Seq<char>)
    requires
        precedes(a, b),
        precedes(b, c),
    ensures
        precedes(a, c),
    decreases a.len(),
{
    if a.len() > 0 && a[0] == b[0] && b[0] == c[0] {
        lemma_precedes_transitive(a.drop_first(), b.drop_first(), c.drop_first());
    }
}

/// The characters in front of the first difference decide nothing.
pub proof fn lemma_precedes_after_prefix(p: Seq<char>, a: Seq<char>, b: Seq<char>)
    ensures
        precedes(p + a, p + b) == precedes(a, b),
    decreases p.len(),
{
    if p.len() == 0 {
        assert(p + a =~= a);
        assert(p + b =~= b);
    } else {
        assert((p + a).drop_first() =~= p.drop_first() + a);
        assert((p + b).drop_first() =~= p.drop_first() + b);
        lemma_precedes_after_prefix(p.drop_first(), a, b);
    }
}

/// Whether `a` stands before `b`.
pub fn is_before(a: &str, b: &str) -> (r: bool)
    ensures
        r == precedes(a@, b@),
{
    let left = chars_of(a);
    let right = chars_of(b);
    let mut i: usize = 0;
    assert(a@.skip(0) =~= a@);
    assert(b@.skip(0) =~= b@);
    while i < left.len() && i < right.len() && left[i] == right[i]
        invariant
            left@ == a@,
            right@ == b@,
            i <= left@.len(),
            i <= right@.len(),
            precedes(a@, b@) == precedes(a@.skip(i as int), b@.skip(i as int)),
        decreases left@.len() - i,
    {
        assert(a@.skip(i as int).drop_first() =~= a@.skip(i + 1));
        assert(b@.skip(i as int).drop_first() =~= b@.skip(i + 1));
        i = i + 1;
    }
    if i >= right.len() {
        false
    } else if i >= left.len() {
        true
    } else {
        left[i] < right[i]
    }
}

// ── Stable sorting ───────────────────────────────────────────────────────────

/// `lt` is a strict weak order: irreflexive and transitive, and so is being
/// neither before nor behind.
pub open spec fn strict_weak_order<T>(lt: spec_fn(T, T) -> bool) -> bool {
    &&& forall|a: T| !#[trigger] lt(a, a)
    &&& forall|a: T, b: T, c: T| #[trigger] lt(a, b) && #[trigger] lt(b, c) ==> lt(a, c)
    &&& forall|a: T, b: T, c: T|
        !#[trigger] lt(a, b) && !#[trigger] lt(b, c) ==> !lt(a, c)
}

/// `x` put into `s` behind everything that it does not stand before.
pub open spec fn inserted<T>(s: Seq<T>, x: T, lt: spec_fn(T, T) -> bool) -> Seq<T>
    decreases s.len(),
{
    if s.len() > 0 && lt(x, s.last()) {
        inserted(s.drop_last(), x, lt).push(s.last())
    } else {
        s.push(x)
    }
}

/// `s` sorted by `lt`, with items of equal rank in the order they came in.
pub open spec fn sorted<T>(s: Seq<T>, lt: spec_fn(T, T) -> bool) -> Seq<T>
    decreases s.len(),
{
    if s.len() == 0 {
        s
    } else {
        inserted(sorted(s.drop_last(), lt), s.last(), lt)
    }
}

/// No item of `s` stands before an earlier one.
pub open spec fn ordered<T>(s: Seq<T>, lt: spec_fn(T, T) -> bool) -> bool {
    forall|i: int, j: int| 0 <= i < j < s.len() ==> !lt(#[trigger] s[j], #[trigger] s[i])
}

proof fn lemma_inserted_ordered<T>(s: Seq<T>, x: T, lt: spec_fn(T, T) -> bool)
    requires
        strict_weak_order(lt),
        ordered(s, lt),
    ensures
        ordered(inserted(s, x, lt), lt),
        inserted(s, x, lt).to_multiset() == s.to_multiset().insert(x),
    decreases s.len(),
{
    let r = inserted(s, x, lt);
    s.to_multiset_ensures();
    if s.len() > 0 && lt(x, s.last()) {
        let t = s.drop_last();
        lemma_inserted_ordered(t, x, lt);
        let q = inserted(t, x, lt);
        q.to_multiset_ensures();
        t.to_multiset_ensures();
        assert(t.push(s.last()) =~= s);
        assert(r.to_multiset() =~= s.to_multiset().insert(x));
        assert forall|i: int, j: int| 0 <= i < j < r.len() implies !lt(
            #[trigger] r[j],
            #[trigger] r[i],
        ) by {
            if j == r.len() - 1 {
                assert(q.to_multiset().contains(q[i]));
                assert(q.to_multiset() == t.to_multiset().insert(x));
                if q[i] != x {
                    assert(t.to_multiset().contains(q[i]));
                    assert(t.contains(q[i]));
                    let k = choose|k: int| 0 <= k < t.len() && t[k] == q[i];
                    assert(s[k] == q[i]);
                } else if lt(s.last(), x) {
                    assert(lt(x, x));
                }
            } else {
                assert(r[i] == q[i] && r[j] == q[j]);
            }
        }
    } else {
        assert forall|i: int, j: int| 0 <= i < j < r.len() implies !lt(
            #[trigger] r[j],
            #[trigger] r[i],
        ) by {
            if j == r.len() - 1 && i < s.len() - 1 {
                assert(!lt(x, s.last()));
                assert(!lt(s[s.len() - 1], s[i]));
            }
        }
    }
}

/// Sorting puts the items in order and keeps each of them exactly once.
pub proof fn lemma_sorted_ordered<T>(s: Seq<T>, lt: spec_fn(T, T) -> bool)
    requires
        strict_weak_order(lt),
    ensures
        ordered(sorted(s, lt), lt),
        sorted(s, lt).to_multiset() == s.to_multiset(),
        sorted(s, lt).len() == s.len(),
    decreases s.len(),
{
    if s.len() > 0 {
        let t = s.drop_last();
        lemma_sorted_ordered(t, lt);
        lemma_inserted_ordered(sorted(t, lt), s.last(), lt);
        t.to_multiset_ensures();
        s.to_multiset_ensures();
        assert(t.push(s.last()) =~= s);
        lemma_inserted_len(sorted(t, lt), s.last(), lt);
    }
}

proof fn lemma_inserted_len<T>(s: Seq<T>, x: T, lt: spec_fn(T, T) -> bool)
    ensures
        inserted(s, x, lt).len() == s.len() + 1,
    decreases s.len(),
{
    if s.len() > 0 && lt(x, s.last()) {
        lemma_inserted_len(s.drop_last(), x, lt);
    }
}

/// Sorting leaves the number of items unchanged.
pub proof fn lemma_sorted_len<T>(s: Seq<T>, lt: spec_fn(T, T) -> bool)
    ensures
        sorted(s, lt).len() == s.len(),
    decreases s.len(),
{
    if s.len() > 0 {
        lemma_sorted_len(s.drop_last(), lt);
        lemma_inserted_len(sorted(s.drop_last(), lt), s.last(), lt);
    }
}

proof fn lemma_inserted_filter<T>(
    s: Seq<T>,
    x: T,
    lt: spec_fn(T, T) -> bool,
    p: spec_fn(T) -> bool,
)
    requires
        forall|a: T, b: T| p(a) && p(b) ==> !#[trigger] lt(a, b),
    ensures
        inserted(s, x, lt).filter(p) == s.push(x).filter(p),
    decreases s.len(),
{
    if s.len() > 0 && lt(x, s.last()) {
        let t = s.drop_last();
        lemma_inserted_filter(t, x, lt, p);
        let q = inserted(t, x, lt);
        q.lemma_filter_push(s.last(), p);
        t.lemma_filter_push(x, p);
        s.lemma_filter_push(x, p);
        t.lemma_filter_push(s.last(), p);
        assert(t.push(s.last()) =~= s);
    }
}

/// Items of equal rank stay in the order in which they came: whatever class of
/// mutually unordered items is singled out, sorting does not rearrange it.
pub proof fn lemma_sorted_stable<T>(s: Seq<T>, lt: spec_fn(T, T) -> bool, p: spec_fn(T) -> bool)
    requires
        forall|a: T, b: T| p(a) && p(b) ==> !#[trigger] lt(a, b),
    ensures
        sorted(s, lt).filter(p) == s.filter(p),
    decreases s.len(),
{
    if s.len() > 0 {
        let t = s.drop_last();
        lemma_sorted_stable(t, lt, p);
        lemma_inserted_filter(sorted(t, lt), s.last(), lt, p);
        sorted(t, lt).lemma_filter_push(s.last(), p);
        t.lemma_filter_push(s.last(), p);
        assert(t.push(s.last()) =~= s);
    }
}

proof fn lemma_inserted_map<T, U>(
    s: Seq<T>,
    x: T,
    f: spec_fn(T) -> U,
    lt: spec_fn(T, T) -> bool,
    lu: spec_fn(U, U) -> bool,
)
    requires
        forall|a: T, b: T| #[trigger] lt(a, b) == lu(f(a), f(b)),
    ensures
        inserted(s, x, lt).map_values(f) == inserted(s.map_values(f), f(x), lu),
    decreases s.len(),
{
    let m = s.map_values(f);
    if s.len() > 0 {
        assert(m.last() == f(s.last()));
        assert(m.drop_last() =~= s.drop_last().map_values(f));
        assert(lt(x, s.last()) == lu(f(x), f(s.last())));
    }
    if s.len() > 0 && lt(x, s.last()) {
        lemma_inserted_map(s.drop_last(), x, f, lt, lu);
        let q = inserted(s.drop_last(), x, lt);
        assert(q.push(s.last()).map_values(f) =~= q.map_values(f).push(f(s.last())));
    } else {
        assert(s.push(x).map_values(f) =~= m.push(f(x)));
    }
}

/// Sorting looks only at what the order reads: a view that keeps the order can
/// be taken before or after.
pub proof fn lemma_sorted_map<T, U>(
    s: Seq<T>,
    f: spec_fn(T) -> U,
    lt: spec_fn(T, T) -> bool,
    lu: spec_fn(U, U) -> bool,
)
    requires
        forall|a: T, b: T| #[trigger] lt(a, b) == lu(f(a), f(b)),
    ensures
        sorted(s, lt).map_values(f) == sorted(s.map_values(f), lu),
    decreases s.len(),
{
    let m = s.map_values(f);
    if s.len() == 0 {
        assert(m =~= Seq::empty());
        assert(s.map_values(f) =~= sorted(m, lu));
    } else {
        let t = s.drop_last();
        assert(m.last() == f(s.last()));
        assert(m.drop_last() =~= t.map_values(f));
        lemma_sorted_map(t, f, lt, lu);
        lemma_inserted_map(sorted(t, lt), s.last(), f, lt, lu);
    }
}

/// Sort `v` by `before`, keeping items of equal rank in the order they came in.
pub(crate) fn sort_by<T, F: Fn(&T, &T) -> bool>(
    v: Vec<T>,
    before: F,
    Ghost(lt): Ghost<spec_fn(T, T) -> bool>,
) -> (r: Vec<T>)
    requires
        forall|a: &T, b: &T| #[trigger] call_requires(before, (a, b)),
        forall|a: &T, b: &T, x: bool| #[trigger] call_ensures(before, (a, b), x) ==> x == lt(*a, *b),
    ensures
        r@ == sorted(v@, lt),
{
    let ghost all = v@;
    let mut rest = v;
    let mut out: Vec<T> = Vec::new();
    let ghost mut k: int = 0;
    assert(all.skip(0) =~= all);
    assert(all.take(0) =~= Seq::empty());
    while rest.len() > 0
        invariant
            forall|a: &T, b: &T| #[trigger] call_requires(before, (a, b)),
            forall|a: &T, b: &T, x: bool| #[trigger]
                call_ensures(before, (a, b), x) ==> x == lt(*a, *b),
            0 <= k <= all.len(),
            rest@ == all.skip(k),
            out@ == sorted(all.take(k), lt),
            out@.len() == k,
        decreases rest@.len(),
    {
        let x = rest.remove(0);
        let ghost done = out@;
        let mut at: usize = out.len();
        proof {
            assert(x == all[k]);
            assert(rest@ =~= all.skip(k + 1));
            assert(all.take(k + 1).drop_last() =~= all.take(k));
            assert(done.take(done.len() as int) =~= done);
            assert(done.skip(done.len() as int) =~= Seq::empty());
            assert(inserted(done, x, lt) =~= inserted(done, x, lt) + Seq::empty());
        }
        while at > 0 && before(&x, &out[at - 1])
            invariant
                forall|a: &T, b: &T| #[trigger] call_requires(before, (a, b)),
                forall|a: &T, b: &T, x: bool| #[trigger]
                    call_ensures(before, (a, b), x) ==> x == lt(*a, *b),
                at <= out@.len(),
                out@ == done,
                inserted(done, x, lt) == inserted(done.take(at as int), x, lt) + done.skip(
                    at as int,
                ),
            decreases at,
        {
            proof {
                let t = done.take(at as int);
                assert(t.last() == done[at - 1]);
                assert(t.drop_last() =~= done.take(at - 1));
                let q = inserted(t.drop_last(), x, lt);
                assert(q.push(t.last()) + done.skip(at as int) =~= q + done.skip(at - 1));
            }
            at = at - 1;
        }
        proof {
            let t = done.take(at as int);
            if at > 0 {
                assert(t.last() == done[at - 1]);
            }
            assert(inserted(t, x, lt) == t.push(x));
            assert(t.push(x) + done.skip(at as int) =~= done.insert(at as int, x));
        }
        out.insert(at, x);
        proof {
            k = k + 1;
        }
    }
    assert(all.take(k) =~= all);
    out
}

/// The order of a dictionary: the first place at which two texts differ decides,
/// by the code points there, and a text stands before every continuation of it.
pub proof fn lemma_dictionary_order(p: Seq<char>, c: char, d: char, x: Seq<char>, y: Seq<char>)
    requires
        (c as int) < (d as int),
    ensures
        precedes(p + (seq![c] + x), p + (seq![d] + y)),
        !precedes(p + (seq![d] + y), p + (seq![c] + x)),
        precedes(p, p + (seq![c] + x)),
{
    let a = seq![c] + x;
    let b = seq![d] + y;
    assert(a[0] == c && b[0] == d);
    lemma_precedes_after_prefix(p, a, b);
    lemma_precedes_after_prefix(p, b, a);
    lemma_precedes_after_prefix(p, Seq::empty(), a);
    assert(p + Seq::empty() =~= p);
}

} // verus!
