//! Lists of names in ascending order without repetition.

use crate::order::{is_before, lemma_precedes_irreflexive, lemma_precedes_total, lemma_precedes_transitive, precedes};
use crate::text::{copy_of, same};
use vstd::prelude::*;

verus! {

/// Every name of the list comes before every later one.
pub open spec fn ascending(list: Seq<Seq<char>>) -> bool {
    forall|i: int, j: int| 0 <= i < j < list.len() ==> #[trigger] precedes(list[i], list[j])
}

/// `list` holds exactly the names of `given`, each once and in ascending order.
pub open spec fn names_of(list: Seq<Seq<char>>, given: Seq<Seq<char>>) -> bool {
    &&& ascending(list)
    &&& forall|x: Seq<char>| #[trigger] list.contains(x) <==> given.contains(x)
}

/// Put a name in its place, unless the list has it.
pub fn insert_name(list: &mut Vec<String>, name: &str)
    requires
        ascending(old(list).deep_view()),
    ensures
        names_of(final(list).deep_view(), old(list).deep_view().push(name@)),
{
    let mut i: usize = 0;
    let ghost before = list.deep_view();
    while i < list.len() && is_before(list[i].as_str(), name)
        invariant
            before == list.deep_view(),
            ascending(before),
            i <= before.len(),
            forall|j: int| 0 <= j < i ==> #[trigger] precedes(before[j], name@),
        decreases before.len() - i,
    {
        i = i + 1;
    }
    let ghost pushed = before.push(name@);
    proof {
        assert(pushed[before.len() as int] == name@);
        assert forall|x: Seq<char>| before.contains(x) implies #[trigger] pushed.contains(x) by {
            let j = choose|j: int| 0 <= j < before.len() && before[j] == x;
            assert(pushed[j] == x);
        }
        assert forall|x: Seq<char>| #[trigger] pushed.contains(x) implies before.contains(x) || x == name@ by {
            let j = choose|j: int| 0 <= j < pushed.len() && pushed[j] == x;
            if j < before.len() {
                assert(before[j] == x);
            }
        }
    }
    if i < list.len() && same(list[i].as_str(), name) {
        assert(before[i as int] == name@);
        assert(before.contains(name@));
        return;
    }
    list.insert(i, copy_of(name));
    let ghost after = list.deep_view();
    proof {
        assert(after =~= before.insert(i as int, name@));
        assert forall|j: int| i <= j < before.len() implies #[trigger] precedes(name@, before[j]) by {
            lemma_precedes_total(name@, before[i as int]);
            if j > i {
                assert(precedes(before[i as int], before[j]));
                lemma_precedes_transitive(name@, before[i as int], before[j]);
            }
        }
        assert forall|a: int, b: int| 0 <= a < b < after.len() implies #[trigger] precedes(
            after[a],
            after[b],
        ) by {
            if b < i {
                assert(precedes(before[a], before[b]));
            } else if b == i {
                assert(precedes(before[a], name@));
            } else if a == i {
                assert(precedes(name@, before[b - 1]));
            } else if a < i {
                assert(precedes(before[a], before[b - 1]));
            } else {
                assert(precedes(before[a - 1], before[b - 1]));
            }
        }
        assert(after[i as int] == name@);
        assert forall|x: Seq<char>| before.contains(x) implies #[trigger] after.contains(x) by {
            let j = choose|j: int| 0 <= j < before.len() && before[j] == x;
            assert(after[if j < i { j } else { j + 1 }] == x);
        }
        assert forall|x: Seq<char>| #[trigger] after.contains(x) implies before.contains(x) || x == name@ by {
            let j = choose|j: int| 0 <= j < after.len() && after[j] == x;
            if j != i {
                assert(before[if j < i { j } else { j - 1 }] == x);
            }
        }
    }
}

/// Only one list holds the names of `given` in this way.
pub proof fn lemma_names_unique(a: Seq<Seq<char>>, b: Seq<Seq<char>>, given: Seq<Seq<char>>)
    requires
        names_of(a, given),
        names_of(b, given),
    ensures
        a == b,
    decreases a.len(),
{
    if a.len() == 0 {
        if b.len() > 0 {
            assert(b.contains(b[0]));
            assert(a.contains(b[0]));
        }
        assert(a =~= b);
    } else if b.len() == 0 {
        assert(a.contains(a[0]));
        assert(b.contains(a[0]));
    } else {
        let x = a.last();
        let y = b.last();
        assert(a.contains(x) && b.contains(y));
        assert(b.contains(x) && a.contains(y));
        let i = choose|i: int| 0 <= i < b.len() && b[i] == x;
        let j = choose|j: int| 0 <= j < a.len() && a[j] == y;
        if x != y {
            assert(precedes(b[i], b[b.len() - 1]));
            assert(precedes(a[j], a[a.len() - 1]));
            lemma_precedes_transitive(x, y, x);
            lemma_precedes_irreflexive(x);
        }
        let s = a.drop_last();
        let t = b.drop_last();
        assert forall|z: Seq<char>| #[trigger] s.contains(z) <==> t.contains(z) by {
            lemma_without_last(a, z);
            lemma_without_last(b, z);
        }
        assert(names_of(t, s)) by {
            assert forall|p: int, q: int| 0 <= p < q < t.len() implies #[trigger] precedes(
                t[p],
                t[q],
            ) by {
                assert(precedes(b[p], b[q]));
            }
            assert forall|z: Seq<char>| #[trigger] t.contains(z) <==> s.contains(z) by {
                assert(s.contains(z) <==> t.contains(z));
            }
        }
        assert forall|p: int, q: int| 0 <= p < q < s.len() implies #[trigger] precedes(
            s[p],
            s[q],
        ) by {
            assert(precedes(a[p], a[q]));
        }
        lemma_names_unique(s, t, s);
        assert(a =~= s.push(x));
        assert(b =~= t.push(y));
    }
}

/// What is left of an ascending list without its last name.
proof fn lemma_without_last(a: Seq<Seq<char>>, z: Seq<char>)
    requires
        ascending(a),
        a.len() > 0,
    ensures
        a.drop_last().contains(z) <==> a.contains(z) && z != a.last(),
{
    let s = a.drop_last();
    if s.contains(z) {
        let k = choose|k: int| 0 <= k < s.len() && s[k] == z;
        assert(a[k] == z);
        assert(precedes(a[k], a[a.len() - 1]));
        lemma_precedes_irreflexive(z);
    }
    if a.contains(z) && z != a.last() {
        let k = choose|k: int| 0 <= k < a.len() && a[k] == z;
        assert(s[k] == z);
    }
}

} // verus!
