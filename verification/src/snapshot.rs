//! Snapshot files: how they are called, which one is the newest, and which ones
//! are removed.
use vstd::prelude::*;
use vstd::string::*;
use crate::decimal::{digits, lemma_digits, padded, zeros};
use crate::order::{
    is_before, lemma_precedes_after_prefix, lemma_precedes_irreflexive, lemma_precedes_total,
    lemma_precedes_transitive, lemma_sorted_map, lemma_sorted_ordered, precedes, sort_by, sorted,
    strict_weak_order,
};
use crate::text::{begins_with, chars_of, copy_of, ends_with, finishes_with, starts_with};
use crate::timestamp::{
    date_of, joined_fields, lemma_date_of_exists, lemma_joined_fields_order, lemma_stamp_fields,
    rfc3339,
};

verus! {

/// `s` without dashes and colons.
#[verifier::opaque]
pub open spec fn compact(s: Seq<char>) -> Seq<char> {
    s.filter(|c: char| c != '-' && c != ':')
}

/// The name of the snapshot of a run at the given time.
pub open spec fn snapshot_name(run_at: Seq<char>) -> Seq<char> {
    "pth-"@ + compact(run_at) + ".json"@
}

/// A file of this name is a snapshot.
pub open spec fn names_snapshot(name: Seq<char>) -> bool {
    begins_with(name, "pth-"@) && finishes_with(name, ".json"@)
}

/// The name of the snapshot of a run at the given time:
/// `2026-07-30T11:42:07Z` becomes `pth-20260730T114207Z.json`.
pub fn filename_for(run_at: &str) -> (r: String)
    ensures
        r@ == snapshot_name(run_at@),
{
    let v = chars_of(run_at);
    let mut r = copy_of("pth-");
    let ghost head = r@;
    let ghost p = |c: char| c != '-' && c != ':';
    assert(v@.take(0).filter(p) =~= Seq::empty());
    assert(head + Seq::<char>::empty() =~= head);
    for i in 0..v.len()
        invariant
            p == (|c: char| c != '-' && c != ':'),
            r@ == head + v@.take(i as int).filter(p),
    {
        let c = v[i];
        let ghost done = v@.take(i as int);
        proof {
            assert(v@.take(i + 1) =~= done.push(c));
            done.lemma_filter_push(c, p);
        }
        if c != '-' && c != ':' {
            r.push(c);
            assert(r@ =~= head + done.filter(p).push(c));
        }
    }
    assert(v@.take(v@.len() as int) =~= v@);
    assert(r@ == head + compact(run_at@)) by {
        reveal(compact);
    }
    r.append(".json");
    r
}

/// Whether a file of this name is a snapshot.
pub fn is_snapshot(name: &str) -> (r: bool)
    ensures
        r == names_snapshot(name@),
{
    let v = chars_of(name);
    starts_with(v.as_slice(), "pth-") && ends_with(v.as_slice(), ".json")
}

/// The snapshots among the names, oldest first.
pub open spec fn snapshots_in(names: Seq<Seq<char>>) -> Seq<Seq<char>> {
    sorted(
        names.filter(|n: Seq<char>| names_snapshot(n)),
        |a: Seq<char>, b: Seq<char>| precedes(a, b),
    )
}

fn text_before(a: &String, b: &String) -> (r: bool)
    ensures
        r == precedes(a@, b@),
{
    is_before(a.as_str(), b.as_str())
}

/// The snapshots among the names, oldest first.
fn ordered_snapshots(names: &Vec<String>) -> (r: Vec<String>)
    ensures
        r.deep_view() == snapshots_in(names.deep_view()),
{
    let mut found: Vec<String> = Vec::new();
    let ghost all = names.deep_view();
    let ghost p = |n: Seq<char>| names_snapshot(n);
    proof {
        assert(all.take(0).filter(p) =~= Seq::empty());
        assert(found.deep_view() =~= Seq::empty());
    }
    for i in 0..names.len()
        invariant
            all == names.deep_view(),
            p == (|n: Seq<char>| names_snapshot(n)),
            found.deep_view() == all.take(i as int).filter(p),
    {
        let ghost before = found.deep_view();
        proof {
            assert(all.take(i + 1) =~= all.take(i as int).push(all[i as int]));
            all.take(i as int).lemma_filter_push(all[i as int], p);
            assert(all[i as int] == names@[i as int]@);
        }
        if is_snapshot(names[i].as_str()) {
            found.push(copy_of(names[i].as_str()));
            assert(found.deep_view() =~= before.push(all[i as int]));
        }
    }
    assert(all.take(all.len() as int) =~= all);
    let ghost given = found@;
    let ghost lt = |a: String, b: String| precedes(a@, b@);
    let ghost lv = |a: Seq<char>, b: Seq<char>| precedes(a, b);
    let ghost view = |a: String| a@;
    let ghost unsorted = found.deep_view();
    let r = sort_by(found, text_before, Ghost(lt));
    proof {
        lemma_sorted_map(given, view, lt, lv);
        assert(given.map_values(view) =~= unsorted);
        assert(r.deep_view() =~= r@.map_values(view));
    }
    r
}

/// The files to remove so that at most `max_files` snapshots are left.
pub open spec fn to_prune(names: Seq<Seq<char>>, max_files: int) -> Seq<Seq<char>> {
    let found = snapshots_in(names);
    if max_files == 0 || found.len() <= max_files {
        Seq::empty()
    } else {
        found.take(found.len() - max_files)
    }
}

/// Which of a directory's files to remove so that at most `max_files` snapshots
/// are left: the oldest ones. With a maximum of 0 everything is kept.
pub fn prune(names: &Vec<String>, max_files: usize) -> (r: Vec<String>)
    ensures
        r.deep_view() == to_prune(names.deep_view(), max_files as int),
{
    let mut found = ordered_snapshots(names);
    let ghost all = found.deep_view();
    if max_files == 0 || found.len() <= max_files {
        let r: Vec<String> = Vec::new();
        assert(r.deep_view() =~= Seq::empty());
        return r;
    }
    let n: usize = found.len() - max_files;
    found.truncate(n);
    assert(found.deep_view() =~= all.take(n as int));
    found
}

/// The newest snapshot among a directory's files.
pub fn latest(names: &Vec<String>) -> (r: Option<String>)
    ensures
        match r {
            Some(n) => snapshots_in(names.deep_view()).len() > 0 && n@ == snapshots_in(
                names.deep_view(),
            ).last(),
            None => snapshots_in(names.deep_view()).len() == 0,
        },
{
    let mut found = ordered_snapshots(names);
    let ghost all = found.deep_view();
    proof {
        if found@.len() > 0 {
            assert(all.last() == found@.last()@);
        }
    }
    found.pop()
}

/// Why a snapshot could not be written.
#[derive(Debug)]
pub enum SnapshotError {
    CreateDir { path: String, source: String },
    Write { path: String, source: String },
    Serialize(String),
}

/// What to tell the user of a snapshot that could not be written.
pub open spec fn snapshot_error_text(e: SnapshotError) -> Seq<char> {
    match e {
        SnapshotError::CreateDir { path, source } => "failed to create snapshot dir "@ + path@
            + ": "@ + source@,
        SnapshotError::Write { path, source } => "failed to write snapshot "@ + path@ + ": "@
            + source@,
        SnapshotError::Serialize(m) => "failed to serialize snapshot: "@ + m@,
    }
}

impl SnapshotError {
    /// What to tell the user.
    pub fn message(&self) -> (r: String)
        ensures
            r@ == snapshot_error_text(*self),
    {
        match self {
            SnapshotError::CreateDir { path, source } => {
                let mut r = copy_of("failed to create snapshot dir ");
                r.append(path.as_str());
                r.append(": ");
                r.append(source.as_str());
                r
            },
            SnapshotError::Write { path, source } => {
                let mut r = copy_of("failed to write snapshot ");
                r.append(path.as_str());
                r.append(": ");
                r.append(source.as_str());
                r
            },
            SnapshotError::Serialize(m) => {
                let mut r = copy_of("failed to serialize snapshot: ");
                r.append(m.as_str());
                r
            },
        }
    }
}

// ── Laws ─────────────────────────────────────────────────────────────────────

/// The order of texts is one by which things can be sorted.
pub proof fn lemma_text_order()
    ensures
        strict_weak_order(|a: Seq<char>, b: Seq<char>| precedes(a, b)),
{
    let lt = |a: Seq<char>, b: Seq<char>| precedes(a, b);
    assert forall|a: Seq<char>| !#[trigger] lt(a, a) by {
        lemma_precedes_irreflexive(a);
    }
    assert forall|a: Seq<char>, b: Seq<char>, c: Seq<char>| #[trigger]
        lt(a, b) && #[trigger] lt(b, c) implies lt(a, c) by {
        lemma_precedes_transitive(a, b, c);
    }
    assert forall|a: Seq<char>, b: Seq<char>, c: Seq<char>| !#[trigger]
        lt(a, b) && !#[trigger] lt(b, c) implies !lt(a, c) by {
        lemma_precedes_total(a, b);
        lemma_precedes_total(b, c);
        if precedes(a, c) {
            lemma_precedes_irreflexive(a);
            if precedes(b, a) {
                lemma_precedes_transitive(b, a, c);
            }
        }
    }
}

/// Pruning only ever removes snapshots that are there: no other file is named.
pub proof fn lemma_prune_only_snapshots(names: Seq<Seq<char>>, max_files: int, i: int)
    requires
        max_files >= 0,
        0 <= i < to_prune(names, max_files).len(),
    ensures
        names_snapshot(to_prune(names, max_files)[i]),
        names.contains(to_prune(names, max_files)[i]),
{
    let p = |n: Seq<char>| names_snapshot(n);
    let lt = |a: Seq<char>, b: Seq<char>| precedes(a, b);
    lemma_text_order();
    lemma_sorted_ordered(names.filter(p), lt);
    let found = snapshots_in(names);
    let x = to_prune(names, max_files)[i];
    assert(found[i] == x);
    found.to_multiset_ensures();
    names.filter(p).to_multiset_ensures();
    assert(found.to_multiset().contains(x));
    assert(names.filter(p).contains(x));
    names.lemma_filter_contains_rev(p, x);
    let k = choose|k: int| 0 <= k < names.filter(p).len() && names.filter(p)[k] == x;
    names.lemma_filter_pred(p, k);
}

/// Pruning leaves at most as many snapshots as asked for, and exactly that many
/// where it removes any; a maximum of 0 removes nothing.
pub proof fn lemma_prune_count(names: Seq<Seq<char>>, max_files: int)
    requires
        max_files >= 0,
    ensures
        max_files == 0 ==> to_prune(names, max_files).len() == 0,
        max_files > 0 ==> snapshots_in(names).len() - to_prune(names, max_files).len() <= max_files,
        to_prune(names, max_files).len() > 0 ==> snapshots_in(names).len() - to_prune(
            names,
            max_files,
        ).len() == max_files,
{
}

/// What is removed is never newer than what is kept.
pub proof fn lemma_prune_oldest(names: Seq<Seq<char>>, max_files: int, i: int, j: int)
    requires
        max_files >= 0,
        0 <= i < to_prune(names, max_files).len() <= j < snapshots_in(names).len(),
    ensures
        !precedes(snapshots_in(names)[j], to_prune(names, max_files)[i]),
{
    let p = |n: Seq<char>| names_snapshot(n);
    let lt = |a: Seq<char>, b: Seq<char>| precedes(a, b);
    lemma_text_order();
    lemma_sorted_ordered(names.filter(p), lt);
    let found = snapshots_in(names);
    assert(found[i] == to_prune(names, max_files)[i]);
    assert(!lt(found[j], found[i]));
}

/// A sequence in which everything passes a filter is not changed by it.
proof fn lemma_filter_keeps(s: Seq<char>, p: spec_fn(char) -> bool)
    requires
        forall|i: int| 0 <= i < s.len() ==> p(#[trigger] s[i]),
    ensures
        s.filter(p) == s,
    decreases s.len(),
{
    if s.len() > 0 {
        let t = s.drop_last();
        assert forall|i: int| 0 <= i < t.len() implies p(#[trigger] t[i]) by {
            assert(t[i] == s[i]);
        }
        lemma_filter_keeps(t, p);
        t.lemma_filter_push(s.last(), p);
        assert(t.push(s.last()) =~= s);
        assert(p(s[s.len() - 1]));
    } else {
        assert(s.filter(p) =~= s);
    }
}

proof fn lemma_padded_kept(n: int, width: int)
    requires
        n >= 0,
    ensures
        compact(padded(n, width)) == padded(n, width),
{
    let p = |c: char| c != '-' && c != ':';
    let s = padded(n, width);
    lemma_digits(n as nat);
    assert forall|i: int| 0 <= i < s.len() implies p(#[trigger] s[i]) by {
        let z = zeros(width - digits(n as nat).len());
        if i < z.len() {
            assert(s[i] == '0');
        } else {
            assert(s[i] == digits(n as nat)[i - z.len()]);
        }
    }
    lemma_filter_keeps(s, p);
    reveal(compact);
}

proof fn lemma_compact_add(a: Seq<char>, b: Seq<char>)
    ensures
        compact(a + b) == compact(a) + compact(b),
{
    reveal(compact);
    Seq::filter_distributes_over_add(a, b, |c: char| c != '-' && c != ':');
}

/// Separators go, the letters of a timestamp stay.
proof fn lemma_compact_single(c: char)
    ensures
        compact(seq![c]) == (if c == '-' || c == ':' {
            Seq::empty()
        } else {
            seq![c]
        }),
{
    reveal(compact);
    let p = |c: char| c != '-' && c != ':';
    assert(seq![c] =~= Seq::<char>::empty().push(c));
    Seq::<char>::empty().lemma_filter_push(c, p);
    assert(Seq::<char>::empty().filter(p) =~= Seq::empty());
}

/// Compacting fields that hold no separators leaves the fields.
proof fn lemma_compact_fields(
    p0: Seq<char>,
    p1: Seq<char>,
    p2: Seq<char>,
    p3: Seq<char>,
    p4: Seq<char>,
    p5: Seq<char>,
)
    requires
        compact(p0) == p0,
        compact(p1) == p1,
        compact(p2) == p2,
        compact(p3) == p3,
        compact(p4) == p4,
        compact(p5) == p5,
    ensures
        ({
            let (a, b, t, z) = (seq!['-'], seq![':'], seq!['T'], seq!['Z']);
            let e = Seq::<char>::empty();
            compact(
                p0 + (a + (p1 + (a + (p2 + (t + (p3 + (b + (p4 + (b + (p5 + z)))))))))),
            ) == p0 + (e + (p1 + (e + (p2 + (t + (p3 + (e + (p4 + (e + (p5 + z))))))))))
        }),
{
    let (a, b, t, z) = (seq!['-'], seq![':'], seq!['T'], seq!['Z']);
    lemma_compact_single('-');
    lemma_compact_single(':');
    lemma_compact_single('T');
    lemma_compact_single('Z');
    let x5 = p5 + z;
    let x4 = p4 + (b + x5);
    let x3 = p3 + (b + x4);
    let x2 = p2 + (t + x3);
    let x1 = p1 + (a + x2);
    lemma_compact_add(p5, z);
    lemma_compact_add(b, x5);
    lemma_compact_add(p4, b + x5);
    lemma_compact_add(b, x4);
    lemma_compact_add(p3, b + x4);
    lemma_compact_add(t, x3);
    lemma_compact_add(p2, t + x3);
    lemma_compact_add(a, x2);
    lemma_compact_add(p1, a + x2);
    lemma_compact_add(a, x1);
    lemma_compact_add(p0, a + x1);
}

/// The compact form of a timestamp: its fields with nothing between them.
proof fn lemma_compact_stamp(e: int)
    requires
        0 <= date_of(e / 86_400).0,
    ensures
        compact(rfc3339(e)) == joined_fields(
            date_of(e / 86_400),
            e % 86_400,
            Seq::empty(),
            Seq::empty(),
            seq!['Z'],
        ),
{
    let t = date_of(e / 86_400);
    let secs = e % 86_400;
    lemma_date_of_exists(e / 86_400);
    lemma_stamp_fields(e);
    lemma_padded_kept(t.0, 4);
    lemma_padded_kept(t.1, 2);
    lemma_padded_kept(t.2, 2);
    lemma_padded_kept(secs / 3600, 2);
    lemma_padded_kept(secs % 3600 / 60, 2);
    lemma_padded_kept(secs % 60, 2);
    lemma_compact_fields(
        padded(t.0, 4),
        padded(t.1, 2),
        padded(t.2, 2),
        padded(secs / 3600, 2),
        padded(secs % 3600 / 60, 2),
        padded(secs % 60, 2),
    );
}

proof fn lemma_joined_end(
    t: (int, int, int),
    secs: int,
    end: Seq<char>,
    more: Seq<char>,
)
    ensures
        joined_fields(t, secs, Seq::empty(), Seq::empty(), end) + more == joined_fields(
            t,
            secs,
            Seq::empty(),
            Seq::empty(),
            end + more,
        ),
{
    let e = Seq::<char>::empty();
    let (p0, p1, p2) = (padded(t.0, 4), padded(t.1, 2), padded(t.2, 2));
    let (p3, p4, p5) = (padded(secs / 3600, 2), padded(secs % 3600 / 60, 2), padded(secs % 60, 2));
    let x3 = p3 + (e + (p4 + (e + (p5 + end))));
    let y3 = p3 + (e + (p4 + (e + (p5 + (end + more)))));
    assert(x3 + more =~= y3);
    let x = p0 + (e + (p1 + (e + (p2 + (seq!['T'] + x3)))));
    assert(x + more =~= p0 + (e + (p1 + (e + (p2 + (seq!['T'] + (x3 + more)))))));
}

/// Snapshot names sort the way their times do, for the years 0 to 9999.
pub proof fn lemma_snapshot_order(e1: int, e2: int)
    requires
        e1 < e2,
        0 <= date_of(e1 / 86_400).0 <= 9999,
        0 <= date_of(e2 / 86_400).0 <= 9999,
    ensures
        precedes(snapshot_name(rfc3339(e1)), snapshot_name(rfc3339(e2))),
{
    let none = Seq::<char>::empty();
    let tail = ".json"@;
    let end = seq!['Z'] + tail;
    lemma_compact_stamp(e1);
    lemma_compact_stamp(e2);
    lemma_joined_end(date_of(e1 / 86_400), e1 % 86_400, seq!['Z'], tail);
    lemma_joined_end(date_of(e2 / 86_400), e2 % 86_400, seq!['Z'], tail);
    lemma_joined_fields_order(e1, e2, none, none, end);
    lemma_named_order(compact(rfc3339(e1)), compact(rfc3339(e2)));
}

/// What the names have in common decides nothing.
proof fn lemma_named_order(c1: Seq<char>, c2: Seq<char>)
    requires
        precedes(c1 + ".json"@, c2 + ".json"@),
    ensures
        precedes("pth-"@ + c1 + ".json"@, "pth-"@ + c2 + ".json"@),
{
    let tail = ".json"@;
    lemma_precedes_after_prefix("pth-"@, c1 + tail, c2 + tail);
    assert("pth-"@ + c1 + tail =~= "pth-"@ + (c1 + tail));
    assert("pth-"@ + c2 + tail =~= "pth-"@ + (c2 + tail));
}

/// Every name that is given to a snapshot is recognised as one.
pub proof fn lemma_snapshot_recognised(run_at: Seq<char>)
    ensures
        names_snapshot(snapshot_name(run_at)),
{
    let n = snapshot_name(run_at);
    assert(n.subrange(0, "pth-"@.len() as int) =~= "pth-"@);
    let k = n.len() - ".json"@.len();
    assert(n.subrange(k, k + ".json"@.len()) =~= ".json"@);
}

/// The newest snapshot is one of the files, is called `pth-...json`, and no other
/// snapshot is called by a later name; there is one as soon as a file is called so.
pub proof fn lemma_latest(names: Seq<Seq<char>>, i: int)
    requires
        0 <= i < names.len(),
        begins_with(names[i], "pth-"@),
        finishes_with(names[i], ".json"@),
    ensures
        snapshots_in(names).len() > 0,
        names.contains(snapshots_in(names).last()),
        begins_with(snapshots_in(names).last(), "pth-"@),
        finishes_with(snapshots_in(names).last(), ".json"@),
        !precedes(snapshots_in(names).last(), names[i]),
{
    let p = |n: Seq<char>| names_snapshot(n);
    let lt = |a: Seq<char>, b: Seq<char>| precedes(a, b);
    let kept = names.filter(p);
    let found = snapshots_in(names);
    lemma_text_order();
    lemma_sorted_ordered(kept, lt);
    assert(p(names[i]));
    names.lemma_filter_contains(p, i);
    assert(kept.contains(names[i]));
    kept.to_multiset_ensures();
    found.to_multiset_ensures();
    let n = names[i];
    assert(found.to_multiset().count(n) == kept.to_multiset().count(n));
    let k = choose|k: int| 0 <= k < found.len() && found[k] == n;
    if k < found.len() - 1 {
        assert(!lt(found[found.len() - 1], found[k]));
        let y = found.last();
        lemma_precedes_irreflexive(y);
    } else {
        lemma_precedes_irreflexive(n);
    }
    let y = found.last();
    assert(found[found.len() - 1] == y);
    assert(kept.to_multiset().count(y) == found.to_multiset().count(y));
    assert(kept.contains(y));
    let j = choose|j: int| 0 <= j < kept.len() && kept[j] == y;
    names.lemma_filter_pred(p, j);
    names.lemma_filter_contains_rev(p, y);
}

/// The name of a snapshot is the time of its run without dashes and colons, between
/// a fixed beginning and end.
pub proof fn lemma_snapshot_name(run_at: Seq<char>, c: char)
    ensures
        ({
            let name = snapshot_name(run_at);
            let inner = name.subrange(4, name.len() - 5);
            &&& name == "pth-"@ + inner + ".json"@
            &&& inner.contains(c) <==> run_at.contains(c) && c != '-' && c != ':'
            &&& snapshot_name(run_at.push(c)) == (if c == '-' || c == ':' {
                name
            } else {
                "pth-"@ + inner.push(c) + ".json"@
            })
        }),
{
    reveal_strlit("pth-");
    reveal_strlit(".json");
    reveal(compact);
    let p = |c: char| c != '-' && c != ':';
    let name = snapshot_name(run_at);
    let inner = name.subrange(4, name.len() - 5);
    assert(inner =~= run_at.filter(p));
    run_at.lemma_filter_push(c, p);
    if inner.contains(c) {
        let j = choose|j: int| 0 <= j < inner.len() && inner[j] == c;
        run_at.lemma_filter_pred(p, j);
        run_at.lemma_filter_contains_rev(p, c);
    }
    if run_at.contains(c) && p(c) {
        let j = choose|j: int| 0 <= j < run_at.len() && run_at[j] == c;
        run_at.lemma_filter_contains(p, j);
    }
}

/// What is told of a snapshot that could not be written.
pub proof fn lemma_snapshot_errors(path: String, source: String)
    ensures
        snapshot_error_text(SnapshotError::CreateDir { path, source })
            == "failed to create snapshot dir "@ + path@ + ": "@ + source@,
        snapshot_error_text(SnapshotError::Write { path, source }) == "failed to write snapshot "@
            + path@ + ": "@ + source@,
        snapshot_error_text(SnapshotError::Serialize(source)) == "failed to serialize snapshot: "@
            + source@,
{
}

} // verus!
