//! Lists of named entries, looked up by name.
use vstd::prelude::*;
use crate::text::{copy_of, same};

verus! {

/// What the first entry called `key` holds.
pub open spec fn lookup<T>(entries: Seq<(String, T)>, key: Seq<char>) -> Option<T>
    decreases entries.len(),
{
    if entries.len() == 0 {
        None
    } else if entries[0].0@ == key {
        Some(entries[0].1)
    } else {
        lookup(entries.drop_first(), key)
    }
}

/// No name occurs twice.
pub open spec fn distinct_names<T>(entries: Seq<(String, T)>) -> bool {
    forall|i: int, j: int|
        0 <= i < j < entries.len() ==> (#[trigger] entries[i]).0@ != (#[trigger] entries[j]).0@
}

/// Where names are distinct, every entry is found under its own name.
pub proof fn lemma_lookup_own<T>(entries: Seq<(String, T)>, i: int)
    requires
        distinct_names(entries),
        0 <= i < entries.len(),
    ensures
        lookup(entries, entries[i].0@) == Some(entries[i].1),
    decreases entries.len(),
{
    if i > 0 {
        let rest = entries.drop_first();
        assert(entries[0].0@ != entries[i].0@);
        assert(rest[i - 1] == entries[i]);
        assert(distinct_names(rest)) by {
            assert forall|a: int, b: int| 0 <= a < b < rest.len() implies (#[trigger] rest[a]).0@
                != (#[trigger] rest[b]).0@ by {
                assert(rest[a] == entries[a + 1]);
                assert(rest[b] == entries[b + 1]);
            }
        }
        lemma_lookup_own(rest, i - 1);
    }
}

/// A name is found exactly when some entry has it.
pub proof fn lemma_lookup_none<T>(entries: Seq<(String, T)>, key: Seq<char>)
    ensures
        lookup(entries, key) is None <==> (forall|i: int|
            0 <= i < entries.len() ==> (#[trigger] entries[i]).0@ != key),
    decreases entries.len(),
{
    if entries.len() > 0 {
        let rest = entries.drop_first();
        lemma_lookup_none(rest, key);
        assert(forall|i: int| 0 <= i < rest.len() ==> #[trigger] rest[i] == entries[i + 1]);
        if entries[0].0@ != key {
            if lookup(rest, key) is None {
                assert forall|i: int| 0 <= i < entries.len() implies (#[trigger] entries[i]).0@
                    != key by {
                    if i > 0 {
                        assert(rest[i - 1] == entries[i]);
                    }
                }
            }
        }
    }
}

/// What the first entry called `key` holds.
pub fn get<'a, T>(entries: &'a [(String, T)], key: &str) -> (r: Option<&'a T>)
    ensures
        match r {
            Some(v) => lookup(entries@, key@) == Some(*v),
            None => lookup(entries@, key@) is None,
        },
{
    assert(entries@.skip(0) =~= entries@);
    let mut i: usize = 0;
    while i < entries.len()
        invariant
            i <= entries@.len(),
            lookup(entries@, key@) == lookup(entries@.skip(i as int), key@),
        decreases entries@.len() - i,
    {
        assert(entries@.skip(i as int)[0] == entries@[i as int]);
        assert(entries@.skip(i as int).drop_first() =~= entries@.skip(i + 1));
        if same(entries[i].0.as_str(), key) {
            return Some(&entries[i].1);
        }
        i = i + 1;
    }
    None
}

/// Where the entry called `name` stands in the list, or the list's length.
pub fn position_of<T>(entries: &Vec<(String, T)>, name: &str) -> (r: usize)
    requires
        distinct_names(entries@),
    ensures
        r <= entries@.len(),
        r < entries@.len() ==> entries@[r as int].0@ == name@ && lookup(entries@, name@) == Some(
            entries@[r as int].1,
        ),
        r == entries@.len() ==> lookup(entries@, name@) is None && forall|i: int|
            0 <= i < entries@.len() ==> (#[trigger] entries@[i]).0@ != name@,
{
    for i in 0..entries.len()
        invariant
            distinct_names(entries@),
            forall|j: int| 0 <= j < i ==> (#[trigger] entries@[j]).0@ != name@,
    {
        if same(entries[i].0.as_str(), name) {
            proof {
                lemma_lookup_own(entries@, i as int);
            }
            return i;
        }
    }
    proof {
        lemma_lookup_none(entries@, name@);
    }
    entries.len()
}

/// Replacing what one entry holds changes what is found under its name only.
pub proof fn lemma_lookup_replaced<T>(entries: Seq<(String, T)>, i: int, v: T, key: Seq<char>)
    requires
        distinct_names(entries),
        0 <= i < entries.len(),
    ensures
        distinct_names(entries.update(i, (entries[i].0, v))),
        lookup(entries.update(i, (entries[i].0, v)), key) == (if key == entries[i].0@ {
            Some(v)
        } else {
            lookup(entries, key)
        }),
    decreases entries.len(),
{
    let next = entries.update(i, (entries[i].0, v));
    assert(forall|j: int|
        0 <= j < entries.len() ==> (#[trigger] next[j]).0@ == entries[j].0@);
    assert(distinct_names(next)) by {
        assert forall|a: int, b: int| 0 <= a < b < next.len() implies (#[trigger] next[a]).0@ != (
        #[trigger] next[b]).0@ by {
            assert(entries[a].0@ != entries[b].0@);
        }
    }
    if key == entries[i].0@ {
        lemma_lookup_own(next, i);
    } else if i > 0 {
        let rest = entries.drop_first();
        assert(rest[i - 1] == entries[i]);
        assert(distinct_names(rest)) by {
            assert forall|a: int, b: int| 0 <= a < b < rest.len() implies (#[trigger] rest[a]).0@
                != (#[trigger] rest[b]).0@ by {
                assert(rest[a] == entries[a + 1]);
                assert(rest[b] == entries[b + 1]);
            }
        }
        lemma_lookup_replaced(rest, i - 1, v, key);
        assert(next.drop_first() =~= rest.update(i - 1, (rest[i - 1].0, v)));
    } else {
        assert(next.drop_first() =~= entries.drop_first());
    }
}

/// A new entry at the end is found under its name and changes nothing else.
pub proof fn lemma_lookup_added<T>(entries: Seq<(String, T)>, e: (String, T), key: Seq<char>)
    requires
        distinct_names(entries),
        forall|i: int| 0 <= i < entries.len() ==> (#[trigger] entries[i]).0@ != e.0@,
    ensures
        distinct_names(entries.push(e)),
        lookup(entries.push(e), key) == (if key == e.0@ {
            Some(e.1)
        } else {
            lookup(entries, key)
        }),
    decreases entries.len(),
{
    let next = entries.push(e);
    assert(distinct_names(next)) by {
        assert forall|a: int, b: int| 0 <= a < b < next.len() implies (#[trigger] next[a]).0@ != (
        #[trigger] next[b]).0@ by {
            assert(next[a] == entries[a]);
            if b < entries.len() {
                assert(next[b] == entries[b]);
            }
        }
    }
    if entries.len() > 0 {
        let rest = entries.drop_first();
        assert forall|i: int| 0 <= i < rest.len() implies (#[trigger] rest[i]).0@ != e.0@ by {
            assert(rest[i] == entries[i + 1]);
        }
        assert(distinct_names(rest)) by {
            assert forall|a: int, b: int| 0 <= a < b < rest.len() implies (#[trigger] rest[a]).0@
                != (#[trigger] rest[b]).0@ by {
                assert(rest[a] == entries[a + 1]);
                assert(rest[b] == entries[b + 1]);
            }
        }
        lemma_lookup_added(rest, e, key);
        assert(next.drop_first() =~= rest.push(e));
        assert(entries[0].0@ != e.0@);
    } else {
        assert(next.drop_first() =~= entries);
    }
}

// ── Pairs of texts ───────────────────────────────────────────────────────────

/// A name and a value, both as characters.
pub type Pair = (Seq<char>, Seq<char>);

/// Not called `key`.
pub open spec fn not_named(key: Seq<char>) -> spec_fn(Pair) -> bool {
    |x: Pair| x.0 != key
}

/// `list` with the pair `e` at its end and without any other of that name.
pub open spec fn with_pair(list: Seq<Pair>, e: Pair) -> Seq<Pair> {
    list.filter(not_named(e.0)).push(e)
}

/// `list` with the pairs `more` put in one by one: a later pair takes the place
/// of an earlier one of the same name.
pub open spec fn with_pairs(list: Seq<Pair>, more: Seq<Pair>) -> Seq<Pair>
    decreases more.len(),
{
    if more.len() == 0 {
        list
    } else {
        with_pair(with_pairs(list, more.drop_last()), more.last())
    }
}

/// What the first pair called `key` holds.
pub open spec fn pair_value(list: Seq<Pair>, key: Seq<char>) -> Option<Seq<char>>
    decreases list.len(),
{
    if list.len() == 0 {
        None
    } else if list[0].0 == key {
        Some(list[0].1)
    } else {
        pair_value(list.drop_first(), key)
    }
}

/// No name occurs twice.
pub open spec fn distinct_pairs(list: Seq<Pair>) -> bool {
    forall|i: int, j: int| 0 <= i < j < list.len() ==> (#[trigger] list[i]).0 != (#[trigger] list[j]).0
}

/// Put a pair into a list: it goes to the end, and any other of its name goes.
pub fn put(list: &Vec<(String, String)>, key: &str, value: &str) -> (r: Vec<(String, String)>)
    ensures
        r.deep_view() == with_pair(list.deep_view(), (key@, value@)),
{
    let mut kept: Vec<(String, String)> = Vec::new();
    let ghost all = list.deep_view();
    let ghost p = not_named(key@);
    proof {
        assert(all.take(0) =~= Seq::empty());
        assert(kept.deep_view() =~= all.take(0).filter(p));
    }
    for i in 0..list.len()
        invariant
            all == list.deep_view(),
            p == not_named(key@),
            kept.deep_view() == all.take(i as int).filter(p),
    {
        let ghost before = kept.deep_view();
        let ghost view = all[i as int];
        proof {
            assert(view == (list@[i as int].0@, list@[i as int].1@));
            assert(all.take(i + 1) =~= all.take(i as int).push(view));
            all.take(i as int).lemma_filter_push(view, p);
        }
        if !same(list[i].0.as_str(), key) {
            kept.push((copy_of(list[i].0.as_str()), copy_of(list[i].1.as_str())));
            assert(kept.deep_view() =~= before.push(view));
        }
    }
    assert(all.take(all.len() as int) =~= all);
    let ghost done = kept.deep_view();
    kept.push((copy_of(key), copy_of(value)));
    assert(kept.deep_view() =~= done.push((key@, value@)));
    kept
}

/// Put the pairs `more` into a list one by one.
pub fn put_all(list: Vec<(String, String)>, more: &Vec<(String, String)>) -> (r: Vec<
    (String, String),
>)
    ensures
        r.deep_view() == with_pairs(list.deep_view(), more.deep_view()),
{
    let mut r = list;
    let ghost all = more.deep_view();
    assert(all.take(0) =~= Seq::empty());
    for i in 0..more.len()
        invariant
            all == more.deep_view(),
            r.deep_view() == with_pairs(list.deep_view(), all.take(i as int)),
    {
        proof {
            assert(all.take(i + 1).drop_last() =~= all.take(i as int));
            assert(all[i as int] == (more@[i as int].0@, more@[i as int].1@));
        }
        r = put(&r, more[i].0.as_str(), more[i].1.as_str());
    }
    assert(all.take(all.len() as int) =~= all);
    r
}

proof fn lemma_filter_distinct(list: Seq<Pair>, p: spec_fn(Pair) -> bool)
    requires
        distinct_pairs(list),
    ensures
        distinct_pairs(list.filter(p)),
    decreases list.len(),
{
    if list.len() > 0 {
        let rest = list.drop_last();
        assert(distinct_pairs(rest)) by {
            assert forall|i: int, j: int| 0 <= i < j < rest.len() implies (#[trigger] rest[i]).0
                != (#[trigger] rest[j]).0 by {
                assert(rest[i] == list[i] && rest[j] == list[j]);
            }
        }
        lemma_filter_distinct(rest, p);
        rest.lemma_filter_push(list.last(), p);
        assert(rest.push(list.last()) =~= list);
        let f = rest.filter(p);
        if p(list.last()) {
            assert forall|i: int, j: int| 0 <= i < j < list.filter(p).len() implies (
            #[trigger] list.filter(p)[i]).0 != (#[trigger] list.filter(p)[j]).0 by {
                if j == f.len() {
                    rest.lemma_filter_contains_rev(p, f[i]);
                    let k = choose|k: int| 0 <= k < rest.len() && rest[k] == f[i];
                    assert(list[k].0 != list[list.len() - 1].0);
                }
            }
        }
    }
}

/// A list that pairs were put into names each of them once.
pub proof fn lemma_with_pair_distinct(list: Seq<Pair>, e: Pair)
    requires
        distinct_pairs(list),
    ensures
        distinct_pairs(with_pair(list, e)),
{
    let p = not_named(e.0);
    lemma_filter_distinct(list, p);
    broadcast use Seq::lemma_filter_pred;

    let r = with_pair(list, e);
    assert forall|i: int, j: int| 0 <= i < j < r.len() implies (#[trigger] r[i]).0 != (
    #[trigger] r[j]).0 by {
        if j == r.len() - 1 {
            assert(p(list.filter(p)[i]));
        }
    }
}

/// A list that pairs were put into names each of them once.
pub proof fn lemma_with_pairs_distinct(list: Seq<Pair>, more: Seq<Pair>)
    requires
        distinct_pairs(list),
    ensures
        distinct_pairs(with_pairs(list, more)),
    decreases more.len(),
{
    if more.len() > 0 {
        lemma_with_pairs_distinct(list, more.drop_last());
        lemma_with_pair_distinct(with_pairs(list, more.drop_last()), more.last());
    }
}

proof fn lemma_pair_value_push(list: Seq<Pair>, e: Pair, key: Seq<char>)
    ensures
        pair_value(list.push(e), key) == (match pair_value(list, key) {
            Some(v) => Some(v),
            None => if e.0 == key {
                Some(e.1)
            } else {
                None
            },
        }),
    decreases list.len(),
{
    let next = list.push(e);
    if list.len() == 0 {
        assert(next.drop_first() =~= Seq::empty());
        assert(next[0] == e);
    } else {
        assert(next[0] == list[0]);
        assert(next.drop_first() =~= list.drop_first().push(e));
        lemma_pair_value_push(list.drop_first(), e, key);
    }
}

proof fn lemma_pair_value_filter(list: Seq<Pair>, gone: Seq<char>, key: Seq<char>)
    ensures
        pair_value(list.filter(not_named(gone)), key) == (if key == gone {
            None
        } else {
            pair_value(list, key)
        }),
    decreases list.len(),
{
    let p = not_named(gone);
    if list.len() > 0 {
        let rest = list.drop_last();
        let e = list.last();
        lemma_pair_value_filter(rest, gone, key);
        rest.lemma_filter_push(e, p);
        assert(rest.push(e) =~= list);
        lemma_pair_value_push(rest, e, key);
        lemma_pair_value_push(rest.filter(p), e, key);
    } else {
        assert(list.filter(p) =~= Seq::empty());
    }
}

/// The pair that was put in last is the one that is found, and other names are
/// not touched.
pub proof fn lemma_pair_put(list: Seq<Pair>, e: Pair, key: Seq<char>)
    ensures
        pair_value(with_pair(list, e), key) == (if key == e.0 {
            Some(e.1)
        } else {
            pair_value(list, key)
        }),
{
    lemma_pair_value_filter(list, e.0, key);
    lemma_pair_value_push(list.filter(not_named(e.0)), e, key);
}

} // verus!
