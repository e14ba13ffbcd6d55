//! What a run that selected no pods could have selected instead.

use crate::decimal::{count_text, decimal};
use crate::kube::{lemma_push_contains, Discovery};
use crate::names::{insert_name, names_of};
use crate::text::{cat2, cat3, cat5, cat6, copy_of, glued, join, joined, lemma_glued_push, same};
use vstd::prelude::*;

verus! {

/// The labels of one pod: each key with its value.
pub type Labels = Vec<(String, String)>;

/// The keys of the labels, in the order of the pods.
pub open spec fn keys_in(pods: Seq<Labels>) -> Seq<Seq<char>>
    decreases pods.len(),
{
    if pods.len() == 0 {
        Seq::empty()
    } else {
        keys_in(pods.drop_last()) + keys_among(pods.last()@)
    }
}

/// The keys of one pod.
pub open spec fn keys_among(labels: Seq<(String, String)>) -> Seq<Seq<char>> {
    Seq::new(labels.len(), |i: int| labels[i].0@)
}

/// The values of the label `key`, in the order of the pods.
pub open spec fn values_in(pods: Seq<Labels>, key: Seq<char>) -> Seq<Seq<char>>
    decreases pods.len(),
{
    if pods.len() == 0 {
        Seq::empty()
    } else {
        values_in(pods.drop_last(), key) + values_among(pods.last()@, key)
    }
}

/// The values of the label `key` on one pod.
pub open spec fn values_among(labels: Seq<(String, String)>, key: Seq<char>) -> Seq<Seq<char>>
    decreases labels.len(),
{
    if labels.len() == 0 {
        Seq::empty()
    } else {
        let rest = values_among(labels.drop_last(), key);
        if labels.last().0@ == key {
            rest.push(labels.last().1@)
        } else {
            rest
        }
    }
}

/// A list of labels: each key once, in ascending order, with its values, each
/// once and in ascending order.
pub open spec fn harvest(list: Seq<(Seq<char>, Seq<Seq<char>>)>, pods: Seq<Labels>) -> bool {
    &&& names_of(Seq::new(list.len(), |i: int| list[i].0), keys_in(pods))
    &&& forall|i: int|
        0 <= i < list.len() ==> names_of((#[trigger] list[i]).1, values_in(pods, list[i].0))
}

/// A list of names takes one more in.
fn note_name(list: &mut Vec<String>, name: &str, Ghost(given): Ghost<Seq<Seq<char>>>)
    requires
        names_of(old(list).deep_view(), given),
    ensures
        names_of(final(list).deep_view(), given.push(name@)),
{
    let ghost before = list.deep_view();
    insert_name(list, name);
    assert forall|x: Seq<char>| #[trigger] list.deep_view().contains(x) <==> given.push(
        name@,
    ).contains(x) by {
        assert(before.contains(x) <==> given.contains(x));
        lemma_push_contains(before, name@, x);
        lemma_push_contains(given, name@, x);
    }
}

/// The keys of the labels, each once, in ascending order.
fn all_keys(pods: &Vec<Labels>) -> (r: Vec<String>)
    ensures
        names_of(r.deep_view(), keys_in(pods@)),
{
    let mut r: Vec<String> = Vec::new();
    assert(r.deep_view() =~= Seq::empty());
    for i in 0..pods.len()
        invariant
            names_of(r.deep_view(), keys_in(pods@.take(i as int))),
    {
        let labels = &pods[i];
        let ghost seen = keys_in(pods@.take(i as int));
        assert(seen + keys_among(labels@.take(0)) =~= seen);
        for j in 0..labels.len()
            invariant
                names_of(r.deep_view(), seen + keys_among(labels@.take(j as int))),
        {
            let ghost given = seen + keys_among(labels@.take(j as int));
            note_name(&mut r, labels[j].0.as_str(), Ghost(given));
            assert(given.push(labels@[j as int].0@) =~= seen + keys_among(labels@.take(j + 1)));
        }
        assert(labels@.take(labels@.len() as int) =~= labels@);
        assert(pods@.take(i + 1).drop_last() =~= pods@.take(i as int));
    }
    assert(pods@.take(pods@.len() as int) =~= pods@);
    r
}

/// The values of the label `key`, each once, in ascending order.
fn all_values(pods: &Vec<Labels>, key: &str) -> (r: Vec<String>)
    ensures
        names_of(r.deep_view(), values_in(pods@, key@)),
{
    let mut r: Vec<String> = Vec::new();
    assert(r.deep_view() =~= Seq::empty());
    for i in 0..pods.len()
        invariant
            names_of(r.deep_view(), values_in(pods@.take(i as int), key@)),
    {
        let labels = &pods[i];
        let ghost seen = values_in(pods@.take(i as int), key@);
        assert(seen + values_among(labels@.take(0), key@) =~= seen);
        for j in 0..labels.len()
            invariant
                names_of(r.deep_view(), seen + values_among(labels@.take(j as int), key@)),
        {
            let ghost given = seen + values_among(labels@.take(j as int), key@);
            assert(labels@.take(j + 1).drop_last() =~= labels@.take(j as int));
            assert(labels@.take(j + 1).last() == labels@[j as int]);
            if same(labels[j].0.as_str(), key) {
                note_name(&mut r, labels[j].1.as_str(), Ghost(given));
                assert(given.push(labels@[j as int].1@) =~= seen + values_among(
                    labels@.take(j + 1),
                    key@,
                ));
            }
        }
        assert(labels@.take(labels@.len() as int) =~= labels@);
        assert(pods@.take(i + 1).drop_last() =~= pods@.take(i as int));
    }
    assert(pods@.take(pods@.len() as int) =~= pods@);
    r
}

/// The labels that name an application, in the order of preference.
pub open spec fn preferred() -> Seq<Seq<char>> {
    seq!["app.kubernetes.io/name"@, "app"@, "k8s-app"@]
}

/// The values of `key` in a list of labels.
pub open spec fn values_of(list: Seq<(Seq<char>, Seq<Seq<char>>)>, key: Seq<char>) -> Option<
    Seq<Seq<char>>,
>
    decreases list.len(),
{
    if list.len() == 0 {
        None
    } else if list[0].0 == key {
        Some(list[0].1)
    } else {
        values_of(list.drop_first(), key)
    }
}

/// A selector by the first of `keys` that has exactly one value.
pub open spec fn selector(
    list: Seq<(Seq<char>, Seq<Seq<char>>)>,
    keys: Seq<Seq<char>>,
) -> Option<Seq<char>>
    decreases keys.len(),
{
    if keys.len() == 0 {
        None
    } else {
        match values_of(list, keys[0]) {
            Some(values) if values.len() == 1 => Some(keys[0] + "="@ + values[0]),
            _ => selector(list, keys.drop_first()),
        }
    }
}

/// The selector `key=value` where `key` has exactly one value.
fn selector_by(keys: &Vec<(String, Vec<String>)>, key: &str) -> (r: Option<String>)
    ensures
        r.deep_view() == (match values_of(keys.deep_view(), key@) {
            Some(values) if values.len() == 1 => Some(key@ + "="@ + values[0]),
            _ => None,
        }),
{
    let ghost all = keys.deep_view();
    assert(all.skip(0) =~= all);
    for i in 0..keys.len()
        invariant
            all == keys.deep_view(),
            values_of(all, key@) == values_of(all.skip(i as int), key@),
    {
        assert(all.skip(i as int)[0] == (keys@[i as int].0@, keys@[i as int].1.deep_view()));
        assert(all.skip(i as int).drop_first() =~= all.skip(i + 1));
        if same(keys[i].0.as_str(), key) {
            let values = &keys[i].1;
            return if values.len() == 1 {
                Some(cat3(key, "=", values[0].as_str()))
            } else {
                None
            };
        }
    }
    assert(all.skip(all.len() as int) =~= Seq::empty());
    None
}

/// Suggest a selector from the labels: by the first conventional key that has
/// exactly one value.
pub fn suggest_selector(keys: &Vec<(String, Vec<String>)>) -> (r: Option<String>)
    ensures
        r.deep_view() == selector(keys.deep_view(), preferred()),
{
    let ghost all = preferred();
    proof {
        reveal_with_fuel(selector, 4);
        assert(all.drop_first()[0] == "app"@);
        assert(all.drop_first().drop_first()[0] == "k8s-app"@);
    }
    if let Some(s) = selector_by(keys, "app.kubernetes.io/name") {
        return Some(s);
    }
    if let Some(s) = selector_by(keys, "app") {
        return Some(s);
    }
    selector_by(keys, "k8s-app")
}

/// The labels on the pods of a namespace that the selector missed.
pub fn labels_discovery(namespace: &str, pod_label_maps: &Vec<Labels>) -> (r: Discovery)
    ensures
        match r {
            Discovery::Labels { namespace: n, keys, suggestion } => {
                &&& n@ == namespace@
                &&& harvest(keys.deep_view(), pod_label_maps@)
                &&& suggestion.deep_view() == selector(keys.deep_view(), preferred())
            },
            _ => false,
        },
{
    let names = all_keys(pod_label_maps);
    let mut keys: Vec<(String, Vec<String>)> = Vec::new();
    for i in 0..names.len()
        invariant
            keys@.len() == i,
            forall|j: int|
                0 <= j < i ==> (#[trigger] keys@[j]).0@ == names@[j]@ && names_of(
                    keys@[j].1.deep_view(),
                    values_in(pod_label_maps@, names@[j]@),
                ),
    {
        let values = all_values(pod_label_maps, names[i].as_str());
        keys.push((copy_of(names[i].as_str()), values));
    }
    proof {
        let list = keys.deep_view();
        assert(Seq::new(list.len(), |i: int| list[i].0) =~= names.deep_view());
        assert forall|i: int| 0 <= i < list.len() implies names_of(
            (#[trigger] list[i]).1,
            values_in(pod_label_maps@, list[i].0),
        ) by {
            assert(list[i] == (keys@[i].0@, keys@[i].1.deep_view()));
        }
    }
    let suggestion = suggest_selector(&keys);
    Discovery::Labels { namespace: copy_of(namespace), keys, suggestion }
}

// ── For a reader ─────────────────────────────────────────────────────────────

/// How many values of a label are shown.
pub const SHOWN: usize = 6;

/// One name on a line of its own.
pub open spec fn name_line() -> spec_fn(Seq<char>) -> Seq<char> {
    |name: Seq<char>| "    "@ + name + "\n"@
}

/// One label with the first of its values.
pub open spec fn label_line() -> spec_fn((Seq<char>, Seq<Seq<char>>)) -> Seq<char> {
    |e: (Seq<char>, Seq<Seq<char>>)|
        {
            let shown = if e.1.len() > SHOWN {
                e.1.take(SHOWN as int)
            } else {
                e.1
            };
            "    "@ + e.0 + " = "@ + joined(shown, ", "@) + (if e.1.len() > SHOWN {
                " (+"@ + decimal(e.1.len() - SHOWN) + " more)"@
            } else {
                ""@
            }) + "\n"@
        }
}

/// The help for a run that selected no pods.
pub open spec fn discovery_text(d: Discovery) -> Seq<char> {
    match d {
        Discovery::Namespaces(names) => if names@.len() == 0 {
            "  no namespaces found (or insufficient permissions)\n"@
        } else {
            "  namespace not found. Available namespaces:\n"@ + glued(
                names.deep_view().map_values(name_line()),
            )
        },
        Discovery::Labels { namespace, keys, suggestion } => if keys@.len() == 0 {
            "  no pods matched, and no labelled pods found in "@ + namespace@ + ".\n"@
        } else {
            "  no pods matched the selector. Labels present on pods in "@ + namespace@ + ":\n"@
                + glued(keys.deep_view().map_values(label_line())) + (match suggestion {
                Some(s) => "\n  try: --kube-selector "@ + s@ + "\n"@,
                None => ""@,
            })
        },
    }
}

/// The lines that name the namespaces.
fn name_lines(names: &Vec<String>) -> (r: String)
    ensures
        r@ == glued(names.deep_view().map_values(name_line())),
{
    let mut r = String::new();
    let ghost all = names.deep_view().map_values(name_line());
    assert(all.take(0) =~= Seq::empty());
    for i in 0..names.len()
        invariant
            all == names.deep_view().map_values(name_line()),
            r@ == glued(all.take(i as int)),
    {
        proof {
            lemma_glued_push(all.take(i as int), all[i as int]);
            assert(all.take(i as int).push(all[i as int]) =~= all.take(i + 1));
            assert(names.deep_view()[i as int] == names@[i as int]@);
        }
        r.append(cat3("    ", names[i].as_str(), "\n").as_str());
    }
    assert(all.take(all.len() as int) =~= all);
    r
}

/// One label with the first of its values.
fn one_label(key: &str, values: &Vec<String>) -> (r: String)
    ensures
        r@ == label_line()((key@, values.deep_view())),
{
    let n: usize = values.len();
    let mut shown: Vec<String> = Vec::new();
    let upto: usize = if n > SHOWN { SHOWN } else { n };
    for i in 0..upto
        invariant
            upto <= values@.len(),
            shown@.len() == i,
            forall|j: int| 0 <= j < i ==> (#[trigger] shown@[j])@ == values@[j]@,
    {
        shown.push(copy_of(values[i].as_str()));
    }
    proof {
        let all = values.deep_view();
        if n > SHOWN {
            assert(shown.deep_view() =~= all.take(SHOWN as int));
        } else {
            assert(shown.deep_view() =~= all);
        }
    }
    let list = join(&shown, ", ");
    let more = if n > SHOWN {
        cat3(" (+", count_text(n - SHOWN).as_str(), " more)")
    } else {
        copy_of("")
    };
    cat6("    ", key, " = ", list.as_str(), more.as_str(), "\n")
}

/// The lines that name the labels.
fn label_lines(keys: &Vec<(String, Vec<String>)>) -> (r: String)
    ensures
        r@ == glued(keys.deep_view().map_values(label_line())),
{
    let mut r = String::new();
    let ghost all = keys.deep_view().map_values(label_line());
    assert(all.take(0) =~= Seq::empty());
    for i in 0..keys.len()
        invariant
            all == keys.deep_view().map_values(label_line()),
            r@ == glued(all.take(i as int)),
    {
        proof {
            lemma_glued_push(all.take(i as int), all[i as int]);
            assert(all.take(i as int).push(all[i as int]) =~= all.take(i + 1));
            assert(keys.deep_view()[i as int] == (
                keys@[i as int].0@,
                keys@[i as int].1.deep_view(),
            ));
        }
        r.append(one_label(keys[i].0.as_str(), &keys[i].1).as_str());
    }
    assert(all.take(all.len() as int) =~= all);
    r
}

/// The help for a run that selected no pods, as plain text.
pub fn format_discovery(d: &Discovery) -> (r: String)
    ensures
        r@ == discovery_text(*d),
{
    match d {
        Discovery::Namespaces(names) => if names.len() == 0 {
            copy_of("  no namespaces found (or insufficient permissions)\n")
        } else {
            cat2("  namespace not found. Available namespaces:\n", name_lines(names).as_str())
        },
        Discovery::Labels { namespace, keys, suggestion } => if keys.len() == 0 {
            cat3(
                "  no pods matched, and no labelled pods found in ",
                namespace.as_str(),
                ".\n",
            )
        } else {
            let try_this = match suggestion {
                Some(s) => cat3("\n  try: --kube-selector ", s.as_str(), "\n"),
                None => copy_of(""),
            };
            cat5(
                "  no pods matched the selector. Labels present on pods in ",
                namespace.as_str(),
                ":\n",
                label_lines(keys).as_str(),
                try_this.as_str(),
            )
        },
    }
}

// ── Laws ─────────────────────────────────────────────────────────────────────

/// A selector is suggested only by a conventional key, and only where the pods
/// agree on its value.
pub proof fn lemma_unambiguous(
    list: Seq<(Seq<char>, Seq<Seq<char>>)>,
    keys: Seq<Seq<char>>,
)
    requires
        selector(list, keys) is Some,
    ensures
        exists|k: int|
            0 <= k < keys.len() && values_of(list, #[trigger] keys[k]) is Some && values_of(
                list,
                keys[k],
            )->0.len() == 1 && selector(list, keys)->0 == keys[k] + "="@ + values_of(
                list,
                keys[k],
            )->0[0],
    decreases keys.len(),
{
    if keys.len() > 0 {
        let values = values_of(list, keys[0]);
        if !(values is Some && values->0.len() == 1) {
            let rest = keys.drop_first();
            lemma_unambiguous(list, rest);
            let k = choose|k: int|
                0 <= k < rest.len() && values_of(list, #[trigger] rest[k]) is Some && values_of(
                    list,
                    rest[k],
                )->0.len() == 1 && selector(list, rest)->0 == rest[k] + "="@ + values_of(
                    list,
                    rest[k],
                )->0[0];
            assert(keys[k + 1] == rest[k]);
        } else {
            assert(values_of(list, keys[0]) is Some);
        }
    }
}

/// The conventional keys in the order in which they are tried: a later one counts
/// only where no earlier one has exactly one value.
pub proof fn lemma_preference(list: Seq<(Seq<char>, Seq<Seq<char>>)>)
    ensures
        ({
            let one = |key: Seq<char>| values_of(list, key) is Some && values_of(list, key)->0.len()
                == 1;
            let by = |key: Seq<char>| Some(key + "="@ + values_of(list, key)->0[0]);
            let s = selector(list, preferred());
            &&& one("app.kubernetes.io/name"@) ==> s == by("app.kubernetes.io/name"@)
            &&& !one("app.kubernetes.io/name"@) && one("app"@) ==> s == by("app"@)
            &&& !one("app.kubernetes.io/name"@) && !one("app"@) && one("k8s-app"@) ==> s == by(
                "k8s-app"@,
            )
            &&& !one("app.kubernetes.io/name"@) && !one("app"@) && !one("k8s-app"@) ==> s is None
        }),
{
    let keys = preferred();
    reveal_with_fuel(selector, 4);
    assert(keys.drop_first() =~= seq!["app"@, "k8s-app"@]);
    assert(keys.drop_first().drop_first() =~= seq!["k8s-app"@]);
    assert(keys.drop_first().drop_first().drop_first() =~= Seq::empty());
}

/// The values of a key on one pod.
proof fn lemma_values_among(labels: Seq<(String, String)>, key: Seq<char>, value: Seq<char>)
    ensures
        values_among(labels, key).contains(value) <==> exists|j: int|
            0 <= j < labels.len() && (#[trigger] labels[j]).0@ == key && labels[j].1@ == value,
    decreases labels.len(),
{
    let r = values_among(labels, key);
    if labels.len() > 0 {
        let rest = labels.drop_last();
        let done = values_among(rest, key);
        let n = labels.len() - 1;
        lemma_values_among(rest, key, value);
        lemma_push_contains(done, labels[n].1@, value);
        if exists|j: int|
            0 <= j < labels.len() && (#[trigger] labels[j]).0@ == key && labels[j].1@ == value {
            let j = choose|j: int|
                0 <= j < labels.len() && (#[trigger] labels[j]).0@ == key && labels[j].1@ == value;
            if j < n {
                assert(rest[j] == labels[j]);
            }
        }
        if done.contains(value) {
            let j = choose|j: int|
                0 <= j < rest.len() && (#[trigger] rest[j]).0@ == key && rest[j].1@ == value;
            assert(labels[j] == rest[j]);
        }
        if r.contains(value) && !done.contains(value) {
            assert(labels[n].0@ == key && labels[n].1@ == value);
        }
    }
}

/// The values of a key on the pods.
proof fn lemma_values_in(pods: Seq<Labels>, key: Seq<char>, value: Seq<char>)
    ensures
        values_in(pods, key).contains(value) <==> exists|i: int, j: int|
            0 <= i < pods.len() && 0 <= j < pods[i]@.len() && (#[trigger] pods[i]@[j]).0@ == key
                && pods[i]@[j].1@ == value,
    decreases pods.len(),
{
    if pods.len() > 0 {
        let rest = pods.drop_last();
        let n = pods.len() - 1;
        let a = values_in(rest, key);
        let b = values_among(pods[n]@, key);
        lemma_values_in(rest, key, value);
        lemma_values_among(pods[n]@, key, value);
        assert((a + b).contains(value) <==> a.contains(value) || b.contains(value)) by {
            if a.contains(value) {
                let k = choose|k: int| 0 <= k < a.len() && a[k] == value;
                assert((a + b)[k] == value);
            }
            if b.contains(value) {
                let k = choose|k: int| 0 <= k < b.len() && b[k] == value;
                assert((a + b)[a.len() + k] == value);
            }
        }
        if a.contains(value) {
            let (i, j) = choose|i: int, j: int|
                0 <= i < rest.len() && 0 <= j < rest[i]@.len() && (#[trigger] rest[i]@[j]).0@ == key
                    && rest[i]@[j].1@ == value;
            assert(pods[i]@[j] == rest[i]@[j]);
        }
        if b.contains(value) {
            let j = choose|j: int|
                0 <= j < pods[n]@.len() && (#[trigger] pods[n]@[j]).0@ == key && pods[n]@[j].1@
                    == value;
            assert(pods[n]@[j].0@ == key);
        }
        if exists|i: int, j: int|
            0 <= i < pods.len() && 0 <= j < pods[i]@.len() && (#[trigger] pods[i]@[j]).0@ == key
                && pods[i]@[j].1@ == value {
            let (i, j) = choose|i: int, j: int|
                0 <= i < pods.len() && 0 <= j < pods[i]@.len() && (#[trigger] pods[i]@[j]).0@ == key
                    && pods[i]@[j].1@ == value;
            if i < n {
                assert(rest[i]@[j] == pods[i]@[j]);
            } else {
                assert(pods[n]@[j].0@ == key);
            }
        }
    }
}

/// The values that are told for a key are exactly those that some pod has for it.
pub proof fn lemma_harvested_values(
    list: Seq<(Seq<char>, Seq<Seq<char>>)>,
    pods: Seq<Labels>,
    k: int,
    value: Seq<char>,
)
    requires
        harvest(list, pods),
        0 <= k < list.len(),
    ensures
        list[k].1.contains(value) <==> exists|i: int, j: int|
            0 <= i < pods.len() && 0 <= j < pods[i]@.len() && (#[trigger] pods[i]@[j]).0@
                == list[k].0 && pods[i]@[j].1@ == value,
{
    lemma_values_in(pods, list[k].0, value);
    assert(names_of(list[k].1, values_in(pods, list[k].0)));
}

/// Up to six values of a label are shown, and how many more there are.
pub proof fn lemma_values_shown(key: Seq<char>, values: Seq<Seq<char>>)
    ensures
        values.len() <= 6 ==> label_line()((key, values)) == "    "@ + key + " = "@ + joined(
            values,
            ", "@,
        ) + "\n"@,
        values.len() > 6 ==> label_line()((key, values)) == "    "@ + key + " = "@ + joined(
            values.take(6),
            ", "@,
        ) + (" (+"@ + decimal(values.len() - 6) + " more)"@) + "\n"@,
{
    reveal_strlit("");
    if values.len() <= 6 {
        let a = "    "@ + key + " = "@ + joined(values, ", "@);
        assert(a + ""@ =~= a);
    }
}

/// A key is told exactly where some pod has it.
pub proof fn lemma_harvested_keys(
    list: Seq<(Seq<char>, Seq<Seq<char>>)>,
    pods: Seq<Labels>,
    key: Seq<char>,
)
    requires
        harvest(list, pods),
    ensures
        (exists|k: int| 0 <= k < list.len() && (#[trigger] list[k]).0 == key) <==> exists|
            i: int,
            j: int,
        |
            0 <= i < pods.len() && 0 <= j < pods[i]@.len() && (#[trigger] pods[i]@[j]).0@ == key,
{
    let keys = Seq::new(list.len(), |i: int| list[i].0);
    lemma_keys_in(pods, key);
    assert(keys.contains(key) <==> keys_in(pods).contains(key));
    if exists|k: int| 0 <= k < list.len() && (#[trigger] list[k]).0 == key {
        let k = choose|k: int| 0 <= k < list.len() && (#[trigger] list[k]).0 == key;
        assert(keys[k] == key);
    }
    if keys.contains(key) {
        let k = choose|k: int| 0 <= k < keys.len() && keys[k] == key;
        assert(list[k].0 == key);
    }
}

/// The keys of the pods are those of each pod.
proof fn lemma_keys_in(pods: Seq<Labels>, key: Seq<char>)
    ensures
        keys_in(pods).contains(key) <==> exists|i: int, j: int|
            0 <= i < pods.len() && 0 <= j < pods[i]@.len() && (#[trigger] pods[i]@[j]).0@ == key,
    decreases pods.len(),
{
    if pods.len() > 0 {
        let rest = pods.drop_last();
        let n = pods.len() - 1;
        let a = keys_in(rest);
        let b = keys_among(pods[n]@);
        lemma_keys_in(rest, key);
        if a.contains(key) {
            let k = choose|k: int| 0 <= k < a.len() && a[k] == key;
            assert((a + b)[k] == key);
            let (i, j) = choose|i: int, j: int|
                0 <= i < rest.len() && 0 <= j < rest[i]@.len() && (#[trigger] rest[i]@[j]).0@
                    == key;
            assert(pods[i]@[j] == rest[i]@[j]);
        }
        if b.contains(key) {
            let k = choose|k: int| 0 <= k < b.len() && b[k] == key;
            assert((a + b)[a.len() + k] == key);
            assert(pods[n]@[k].0@ == key);
        }
        if (a + b).contains(key) {
            let k = choose|k: int| 0 <= k < (a + b).len() && (a + b)[k] == key;
            if k < a.len() {
                assert(a[k] == key);
            } else {
                assert(b[k - a.len()] == key);
            }
        }
        if exists|i: int, j: int|
            0 <= i < pods.len() && 0 <= j < pods[i]@.len() && (#[trigger] pods[i]@[j]).0@ == key {
            let (i, j) = choose|i: int, j: int|
                0 <= i < pods.len() && 0 <= j < pods[i]@.len() && (#[trigger] pods[i]@[j]).0@
                    == key;
            if i < n {
                assert(rest[i]@[j] == pods[i]@[j]);
            } else {
                assert(b[j] == key);
            }
        }
    }
}

/// What is told where no pod was selected: the namespaces that there are, or the
/// labels that pods have and a selector to try.
pub proof fn lemma_discovery_told(names: Vec<String>, namespace: String, keys: Vec<(String, Vec<String>)>, s: String)
    ensures
        names@.len() == 0 ==> discovery_text(Discovery::Namespaces(names))
            == "  no namespaces found (or insufficient permissions)\n"@,
        names@.len() > 0 ==> discovery_text(Discovery::Namespaces(names))
            == "  namespace not found. Available namespaces:\n"@ + glued(
            names.deep_view().map_values(|name: Seq<char>| "    "@ + name + "\n"@),
        ),
        keys@.len() == 0 ==> discovery_text(
            Discovery::Labels { namespace, keys, suggestion: Some(s) },
        ) == "  no pods matched, and no labelled pods found in "@ + namespace@ + ".\n"@,
        keys@.len() > 0 ==> discovery_text(
            Discovery::Labels { namespace, keys, suggestion: Some(s) },
        ) == "  no pods matched the selector. Labels present on pods in "@ + namespace@ + ":\n"@
            + glued(keys.deep_view().map_values(label_line())) + ("\n  try: --kube-selector "@ + s@
            + "\n"@),
{
    let f = |name: Seq<char>| "    "@ + name + "\n"@;
    assert(name_line() =~= f);
}

} // verus!
