//! The mathematical model of the store: a sequence of entries with distinct
//! normal paths, oldest first, and the rule by which a path asked for is
//! resolved to one of them.

use vstd::prelude::*;
use crate::io::path::{is_normal, normalized, occurs_in, relaxed};

verus! {

/// What a store holds: each entry a path and the bytes kept under it, in the
/// order in which the paths were first inserted.
pub type Entries = Seq<(Seq<char>, Seq<u8>)>;

/// The paths of the entries, in order.
pub open spec fn paths(entries: Entries) -> Seq<Seq<char>> {
    Seq::new(entries.len(), |i: int| entries[i].0)
}

/// The invariant of a store: no path is stored twice, and every stored path
/// is normal.
pub open spec fn well_formed(entries: Entries) -> bool {
    &&& forall|i: int, j: int| 0 <= i < j < entries.len() ==> entries[i].0 != entries[j].0
    &&& forall|i: int| 0 <= i < entries.len() ==> is_normal(#[trigger] entries[i].0)
}

/// The entries as a map from path to bytes.
pub open spec fn as_map(entries: Entries) -> Map<Seq<char>, Seq<u8>> {
    Map::new(
        |path: Seq<char>| exists|i: int| 0 <= i < entries.len() && entries[i].0 == path,
        |path: Seq<char>| entries[choose|i: int| 0 <= i < entries.len() && entries[i].0 == path].1,
    )
}

/// Whether `i` is the first position at which `hits` is true.
pub open spec fn is_first_hit(hits: Seq<bool>, i: int) -> bool {
    &&& 0 <= i < hits.len()
    &&& hits[i]
    &&& forall|j: int| 0 <= j < i ==> !hits[j]
}

/// The first position at which `hits` is true, if there is one.
pub open spec fn first_hit(hits: Seq<bool>) -> Option<int> {
    if exists|i: int| is_first_hit(hits, i) {
        Some(choose|i: int| is_first_hit(hits, i))
    } else {
        None
    }
}

/// For each key, whether it is `path`.
pub open spec fn exact_hits(keys: Seq<Seq<char>>, path: Seq<char>) -> Seq<bool> {
    Seq::new(keys.len(), |i: int| keys[i] == path)
}

/// For each key, whether `part` occurs in it.
pub open spec fn partial_hits(keys: Seq<Seq<char>>, part: Seq<char>) -> Seq<bool> {
    Seq::new(keys.len(), |i: int| occurs_in(part, keys[i]))
}

/// The position of the key that `query` resolves to: the key that equals the
/// normalized query; where there is none, the first key, in the order of
/// `keys`, in which the relaxed form of the normalized query occurs.
pub open spec fn resolve(keys: Seq<Seq<char>>, query: Seq<char>) -> Option<int> {
    let path = normalized(query);
    match first_hit(exact_hits(keys, path)) {
        Some(i) => Some(i),
        None => first_hit(partial_hits(keys, relaxed(path))),
    }
}

/// The bytes that a lookup of `query` finds.
pub open spec fn lookup(entries: Entries, query: Seq<char>) -> Option<Seq<u8>> {
    match resolve(paths(entries), query) {
        Some(i) => Some(entries[i].1),
        None => None,
    }
}

/// The entries after `bytes` are stored under `path`: an entry with that path
/// keeps its place and gets the new bytes, a new path goes to the end.
pub open spec fn put(entries: Entries, path: Seq<char>, bytes: Seq<u8>) -> Entries {
    match first_hit(exact_hits(paths(entries), path)) {
        Some(i) => entries.update(i, (path, bytes)),
        None => entries.push((path, bytes)),
    }
}

/// The position at which `put` leaves the entry of `path`.
pub open spec fn place(entries: Entries, path: Seq<char>) -> int {
    match first_hit(exact_hits(paths(entries), path)) {
        Some(i) => i,
        None => entries.len() as int,
    }
}

/// The entries of `into` after each entry of `from` has been put into it, in
/// the order of `from`.
pub open spec fn merged(into: Entries, from: Entries) -> Entries
    decreases from.len(),
{
    if from.len() == 0 {
        into
    } else {
        put(merged(into, from.drop_last()), from.last().0, from.last().1)
    }
}

/// A position that is the first hit is what `first_hit` returns.
pub proof fn lemma_first_hit_is(hits: Seq<bool>, i: int)
    requires
        is_first_hit(hits, i),
    ensures
        first_hit(hits) == Some(i),
{
    let k = choose|k: int| is_first_hit(hits, k);
    assert(k == i) by {
        if k < i {
            assert(!hits[k]);
        }
        if i < k {
            assert(!hits[i]);
        }
    }
}

/// Where nothing hits, `first_hit` returns nothing.
pub proof fn lemma_first_hit_none(hits: Seq<bool>)
    requires
        forall|i: int| 0 <= i < hits.len() ==> !hits[i],
    ensures
        first_hit(hits) is None,
{
}

/// Where something hits, `first_hit` returns a position, and it is the first hit.
pub proof fn lemma_first_hit_some(hits: Seq<bool>, i: int)
    requires
        0 <= i < hits.len(),
        hits[i],
    ensures
        first_hit(hits) matches Some(k) && is_first_hit(hits, k) && k <= i,
    decreases i,
{
    if exists|j: int| 0 <= j < i && hits[j] {
        let j = choose|j: int| 0 <= j < i && hits[j];
        lemma_first_hit_some(hits, j);
    } else {
        assert(is_first_hit(hits, i));
        lemma_first_hit_is(hits, i);
    }
}

/// Under the invariant, the map holds at each entry's path that entry's bytes.
pub proof fn lemma_as_map_at(entries: Entries, i: int)
    requires
        well_formed(entries),
        0 <= i < entries.len(),
    ensures
        as_map(entries).dom().contains(entries[i].0),
        as_map(entries)[entries[i].0] == entries[i].1,
{
    let k = choose|k: int| 0 <= k < entries.len() && entries[k].0 == entries[i].0;
    assert(k == i) by {
        if k < i {
            assert(entries[k].0 != entries[i].0);
        }
        if i < k {
            assert(entries[i].0 != entries[k].0);
        }
    }
}

/// What `first_hit` finds among the exact hits is where the path is stored, and
/// it finds nothing exactly when the path is not stored.
pub proof fn lemma_exact(entries: Entries, path: Seq<char>)
    ensures
        match first_hit(exact_hits(paths(entries), path)) {
            Some(i) => 0 <= i < entries.len() && entries[i].0 == path,
            None => !as_map(entries).dom().contains(path),
        },
{
    let hits = exact_hits(paths(entries), path);
    if first_hit(hits) is None {
        if as_map(entries).dom().contains(path) {
            let i = choose|i: int| 0 <= i < entries.len() && entries[i].0 == path;
            lemma_first_hit_some(hits, i);
        }
    }
}

/// After a put the entry stands where `place` says, every other entry is as
/// it was, and the path is found there and nowhere before.
pub proof fn lemma_put_place(entries: Entries, path: Seq<char>, bytes: Seq<u8>)
    ensures
        0 <= place(entries, path) <= entries.len(),
        put(entries, path, bytes).len() == if place(entries, path) < entries.len() {
            entries.len()
        } else {
            entries.len() + 1
        },
        put(entries, path, bytes)[place(entries, path)] == (path, bytes),
        forall|i: int|
            0 <= i < entries.len() && i != place(entries, path) ==> put(entries, path, bytes)[i]
                == entries[i],
        first_hit(exact_hits(paths(put(entries, path, bytes)), path)) == Some(
            place(entries, path),
        ),
{
    let before = exact_hits(paths(entries), path);
    let after = put(entries, path, bytes);
    let at = place(entries, path);
    lemma_exact(entries, path);
    assert(after[at] == (path, bytes));
    let hits = exact_hits(paths(after), path);
    assert(is_first_hit(hits, at)) by {
        assert forall|j: int| 0 <= j < at implies !hits[j] by {
            assert(after[j] == entries[j]);
            if first_hit(before) is Some {
                assert(is_first_hit(before, at));
                assert(!before[j]);
            } else if entries[j].0 == path {
                lemma_first_hit_some(before, j);
            }
        }
    }
    lemma_first_hit_is(hits, at);
}

/// Putting keeps the invariant, and in the map it is an insertion.
pub proof fn lemma_put(entries: Entries, path: Seq<char>, bytes: Seq<u8>)
    requires
        well_formed(entries),
        is_normal(path),
    ensures
        well_formed(put(entries, path, bytes)),
        as_map(put(entries, path, bytes)) == as_map(entries).insert(path, bytes),
{
    let after = put(entries, path, bytes);
    let at = place(entries, path);
    lemma_exact(entries, path);
    lemma_put_place(entries, path, bytes);
    assert(well_formed(after)) by {
        assert forall|i: int, j: int| 0 <= i < j < after.len() implies after[i].0 != after[j].0 by {
            if i < entries.len() && j < entries.len() {
                assert(entries[i].0 != entries[j].0);
            }
        }
    }
    assert forall|k: Seq<char>| #[trigger]
        as_map(after).dom().contains(k) == as_map(entries).insert(path, bytes).dom().contains(
            k,
        ) by {
        if as_map(after).dom().contains(k) {
            let i = choose|i: int| 0 <= i < after.len() && after[i].0 == k;
            if i != at {
                assert(entries[i].0 == k);
            }
        }
        if as_map(entries).dom().contains(k) {
            let i = choose|i: int| 0 <= i < entries.len() && entries[i].0 == k;
            assert(after[i].0 == k);
        }
        if k == path {
            assert(after[at].0 == k);
        }
    }
    assert forall|k: Seq<char>| #[trigger] as_map(after).dom().contains(k) implies as_map(after)[k]
        == as_map(entries).insert(path, bytes)[k] by {
        let i = choose|i: int| 0 <= i < after.len() && after[i].0 == k;
        lemma_as_map_at(after, i);
        if i != at {
            lemma_as_map_at(entries, i);
        }
    }
    assert(as_map(after) =~= as_map(entries).insert(path, bytes));
}

/// Taking an entry out keeps the invariant, and in the map it removes the
/// entry's path.
pub proof fn lemma_remove(entries: Entries, at: int)
    requires
        well_formed(entries),
        0 <= at < entries.len(),
    ensures
        well_formed(entries.remove(at)),
        as_map(entries.remove(at)) == as_map(entries).remove(entries[at].0),
{
    let after = entries.remove(at);
    assert(forall|i: int| 0 <= i < at ==> after[i] == entries[i]);
    assert(forall|i: int| at <= i < after.len() ==> after[i] == entries[i + 1]);
    assert(well_formed(after)) by {
        assert forall|i: int, j: int| 0 <= i < j < after.len() implies after[i].0 != after[j].0 by {
            let i0 = if i < at { i } else { i + 1 };
            let j0 = if j < at { j } else { j + 1 };
            assert(entries[i0].0 != entries[j0].0);
        }
        assert forall|i: int| 0 <= i < after.len() implies is_normal(#[trigger] after[i].0) by {
            let i0 = if i < at { i } else { i + 1 };
            assert(is_normal(entries[i0].0));
        }
    }
    assert forall|k: Seq<char>| #[trigger]
        as_map(after).dom().contains(k) == as_map(entries).remove(entries[at].0).dom().contains(
            k,
        ) by {
        if as_map(after).dom().contains(k) {
            let i = choose|i: int| 0 <= i < after.len() && after[i].0 == k;
            let i0 = if i < at { i } else { i + 1 };
            assert(entries[i0].0 == k);
            if i0 < at {
                assert(entries[i0].0 != entries[at].0);
            } else {
                assert(entries[at].0 != entries[i0].0);
            }
        }
        if as_map(entries).dom().contains(k) && k != entries[at].0 {
            let i0 = choose|i: int| 0 <= i < entries.len() && entries[i].0 == k;
            let i = if i0 < at { i0 } else { i0 - 1 };
            assert(after[i].0 == k);
        }
    }
    assert forall|k: Seq<char>| #[trigger] as_map(after).dom().contains(k) implies as_map(after)[k]
        == as_map(entries).remove(entries[at].0)[k] by {
        let i = choose|i: int| 0 <= i < after.len() && after[i].0 == k;
        let i0 = if i < at { i } else { i + 1 };
        lemma_as_map_at(after, i);
        lemma_as_map_at(entries, i0);
    }
    assert(as_map(after) =~= as_map(entries).remove(entries[at].0));
}

/// Merging keeps the invariant, and in the map it is a union in which the
/// entries that come in win.
pub proof fn lemma_merged(into: Entries, from: Entries)
    requires
        well_formed(into),
        well_formed(from),
    ensures
        well_formed(merged(into, from)),
        as_map(merged(into, from)) == as_map(into).union_prefer_right(as_map(from)),
    decreases from.len(),
{
    if from.len() == 0 {
        assert(as_map(from) =~= Map::empty());
        assert(as_map(into).union_prefer_right(as_map(from)) =~= as_map(into));
    } else {
        let rest = from.drop_last();
        let last = from.last();
        assert(well_formed(rest));
        lemma_merged(into, rest);
        lemma_put(merged(into, rest), last.0, last.1);
        assert(from =~= put(rest, last.0, last.1)) by {
            lemma_exact(rest, last.0);
        }
        lemma_put(rest, last.0, last.1);
        assert(as_map(into).union_prefer_right(as_map(rest)).insert(last.0, last.1) =~= as_map(
            into,
        ).union_prefer_right(as_map(rest).insert(last.0, last.1)));
    }
}

} // verus!
