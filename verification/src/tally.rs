//! Counting.

use vstd::prelude::*;

verus! {

/// How many of the items have the property `p`.
pub open spec fn count<T>(items: Seq<T>, p: spec_fn(T) -> bool) -> int
    decreases items.len(),
{
    if items.len() == 0 {
        0
    } else {
        count(items.drop_last(), p) + (if p(items.last()) {
            1int
        } else {
            0
        })
    }
}

/// Counting one item further.
pub proof fn lemma_count_step<T>(items: Seq<T>, p: spec_fn(T) -> bool, i: int)
    requires
        0 <= i < items.len(),
    ensures
        count(items.take(i + 1), p) == count(items.take(i), p) + (if p(items[i]) {
            1int
        } else {
            0
        }),
        0 <= count(items.take(i), p) <= i,
    decreases i,
{
    assert(items.take(i + 1).drop_last() =~= items.take(i));
    if i > 0 {
        lemma_count_step(items, p, i - 1);
    }
}

/// Counting stays within the number of items.
pub proof fn lemma_count_bound<T>(items: Seq<T>, p: spec_fn(T) -> bool)
    ensures
        0 <= count(items, p) <= items.len(),
    decreases items.len(),
{
    if items.len() > 0 {
        lemma_count_bound(items.drop_last(), p);
    }
}

/// Something is counted exactly where something has the property.
pub proof fn lemma_count_positive<T>(items: Seq<T>, p: spec_fn(T) -> bool)
    ensures
        count(items, p) > 0 <==> exists|i: int| 0 <= i < items.len() && p(#[trigger] items[i]),
    decreases items.len(),
{
    if items.len() > 0 {
        let rest = items.drop_last();
        lemma_count_positive(rest, p);
        lemma_count_bound(rest, p);
        if count(rest, p) > 0 {
            let i = choose|i: int| 0 <= i < rest.len() && p(#[trigger] rest[i]);
            assert(p(items[i]));
        }
        if exists|i: int| 0 <= i < items.len() && p(#[trigger] items[i]) {
            let i = choose|i: int| 0 <= i < items.len() && p(#[trigger] items[i]);
            if i < rest.len() {
                assert(p(rest[i]));
            }
        }
    }
}

/// What is left of a list after filtering and mapping: what some item is mapped to.
pub proof fn lemma_filter_map_member<A, B>(items: Seq<A>, f: spec_fn(A) -> Option<B>, y: B)
    ensures
        items.filter_map(f).contains(y) <==> exists|i: int|
            0 <= i < items.len() && f(#[trigger] items[i]) == Some(y),
    decreases items.len(),
{
    reveal(Seq::filter_map);
    let r = items.filter_map(f);
    if items.len() > 0 {
        let rest = items.drop_last();
        let done = rest.filter_map(f);
        lemma_filter_map_member(rest, f, y);
        if r.contains(y) {
            let k = choose|k: int| 0 <= k < r.len() && r[k] == y;
            if k < done.len() {
                assert(done[k] == y);
                let i = choose|i: int| 0 <= i < rest.len() && f(#[trigger] rest[i]) == Some(y);
                assert(f(items[i]) == Some(y));
            } else {
                assert(f(items[items.len() - 1]) == Some(y));
            }
        }
        if exists|i: int| 0 <= i < items.len() && f(#[trigger] items[i]) == Some(y) {
            let i = choose|i: int| 0 <= i < items.len() && f(#[trigger] items[i]) == Some(y);
            if i < rest.len() {
                assert(f(rest[i]) == Some(y));
                let k = choose|k: int| 0 <= k < done.len() && done[k] == y;
                assert(r[k] == y);
            } else {
                assert(r[r.len() - 1] == y);
            }
        }
    }
}

/// Filtering and mapping keeps the order of what is left.
pub proof fn lemma_filter_map_order<A, B>(
    items: Seq<A>,
    f: spec_fn(A) -> Option<B>,
    key: spec_fn(B) -> A,
    rel: spec_fn(A, A) -> bool,
)
    requires
        forall|i: int, j: int| 0 <= i < j < items.len() ==> rel(#[trigger] items[i], #[trigger] items[j]),
        forall|x: A, y: B| #[trigger] f(x) == Some(y) ==> #[trigger] key(y) == x,
    ensures
        forall|k: int, l: int|
            0 <= k < l < items.filter_map(f).len() ==> rel(
                key(#[trigger] items.filter_map(f)[k]),
                key(#[trigger] items.filter_map(f)[l]),
            ),
    decreases items.len(),
{
    reveal(Seq::filter_map);
    if items.len() > 0 {
        let rest = items.drop_last();
        let done = rest.filter_map(f);
        let r = items.filter_map(f);
        assert forall|i: int, j: int| 0 <= i < j < rest.len() implies rel(
            #[trigger] rest[i],
            #[trigger] rest[j],
        ) by {
            assert(rel(items[i], items[j]));
        }
        lemma_filter_map_order(rest, f, key, rel);
        assert forall|k: int, l: int| 0 <= k < l < r.len() implies rel(
            key(#[trigger] r[k]),
            key(#[trigger] r[l]),
        ) by {
            assert(r[k] == done[k]);
            if l < done.len() {
                assert(r[l] == done[l]);
            } else {
                assert(done.contains(done[k]));
                lemma_filter_map_member(rest, f, done[k]);
                let i = choose|i: int| 0 <= i < rest.len() && f(#[trigger] rest[i]) == Some(done[k]);
                assert(key(done[k]) == rest[i]);
                assert(f(items[items.len() - 1]) == Some(r[l]));
                assert(key(r[l]) == items[items.len() - 1]);
                assert(rel(items[i], items[items.len() - 1]));
            }
        }
    }
}

/// Counting is keeping what has the property and taking the length.
pub proof fn lemma_count_is_filter<T>(items: Seq<T>, p: spec_fn(T) -> bool)
    ensures
        count(items, p) == items.filter(p).len(),
    decreases items.len(),
{
    reveal(Seq::filter);
    if items.len() > 0 {
        lemma_count_is_filter(items.drop_last(), p);
    }
}

} // verus!
