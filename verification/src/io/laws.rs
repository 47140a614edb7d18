//! What holds of the store across several operations, proved over its model.

use vstd::prelude::*;
use crate::io::model::{
    as_map, exact_hits, first_hit, is_first_hit, lemma_as_map_at, lemma_exact,
    lemma_first_hit_some, lemma_put_place, lookup, partial_hits, paths, put, resolve,
    well_formed, Entries,
};
use crate::io::path::{
    lemma_occurs_in_transitive, lemma_relaxed, long_jpeg_extension, normalized, occurs_at,
    occurs_in, relaxed, short_jpeg_extension,
};

verus! {

/// A path resolves to an entry exactly when its relaxed normal form occurs in
/// some stored path.
pub proof fn lemma_resolves_iff_held(entries: Entries, query: Seq<char>)
    ensures
        resolve(paths(entries), query) is Some <==> exists|i: int|
            0 <= i < entries.len() && occurs_in(relaxed(normalized(query)), entries[i].0),
{
    let keys = paths(entries);
    let path = normalized(query);
    let part = relaxed(path);
    lemma_relaxed(path);
    lemma_exact(entries, path);
    if exists|i: int| 0 <= i < entries.len() && occurs_in(part, entries[i].0) {
        let i = choose|i: int| 0 <= i < entries.len() && occurs_in(part, entries[i].0);
        lemma_first_hit_some(partial_hits(keys, part), i);
    }
    if resolve(keys, query) is Some {
        let k = resolve(keys, query)->0;
        if first_hit(exact_hits(keys, path)) is Some {
            assert(occurs_in(part, entries[k].0));
        } else {
            assert(is_first_hit(partial_hits(keys, part), k));
            assert(occurs_in(part, entries[k].0));
        }
    }
}

/// A lookup that could find several entries finds one of them whole: where
/// the relaxed normal form of a path occurs in some stored path, the path
/// resolves to a stored path in which it occurs, and the lookup gives the
/// bytes of that entry. It is the entry whose path equals the normalized
/// path, or else the oldest in whose path the relaxed form occurs.
pub proof fn lemma_held_resolves(entries: Entries, query: Seq<char>, i: int)
    requires
        0 <= i < entries.len(),
        occurs_in(relaxed(normalized(query)), entries[i].0),
    ensures
        resolve(paths(entries), query) matches Some(k) && {
            &&& 0 <= k < entries.len()
            &&& occurs_in(relaxed(normalized(query)), entries[k].0)
            &&& lookup(entries, query) == Some(entries[k].1)
            &&& entries[k].0 == normalized(query) || (k <= i && forall|j: int|
                0 <= j < k ==> !occurs_in(relaxed(normalized(query)), entries[j].0))
        },
{
    let keys = paths(entries);
    let path = normalized(query);
    let part = relaxed(path);
    lemma_relaxed(path);
    lemma_exact(entries, path);
    lemma_first_hit_some(partial_hits(keys, part), i);
    if first_hit(exact_hits(keys, path)) is None {
        let k = first_hit(partial_hits(keys, part))->0;
        assert forall|j: int| 0 <= j < k implies !occurs_in(part, entries[j].0) by {
            assert(!partial_hits(keys, part)[j]);
        }
    }
}

/// Where the relaxed normal form of a path occurs in one stored path only,
/// the path resolves to that one, whatever else the stored path holds.
pub proof fn lemma_single_holder(entries: Entries, query: Seq<char>, i: int)
    requires
        0 <= i < entries.len(),
        forall|j: int|
            0 <= j < entries.len() ==> (occurs_in(relaxed(normalized(query)), entries[j].0) <==> j
                == i),
    ensures
        resolve(paths(entries), query) == Some(i),
        lookup(entries, query) == Some(entries[i].1),
{
    lemma_held_resolves(entries, query, i);
}

/// A lookup straight after an insertion under the same path finds the bytes
/// that were inserted.
pub proof fn lemma_insert_then_get(entries: Entries, path: Seq<char>, bytes: Seq<u8>)
    ensures
        lookup(put(entries, normalized(path), bytes), path) == Some(bytes),
{
    lemma_put_place(entries, normalized(path), bytes);
}

/// Of two insertions under paths that normalize to the same path, only the
/// second shows: the store is as if the first had not been made, and a lookup
/// of either path finds the second bytes.
pub proof fn lemma_insert_twice(
    entries: Entries,
    path: Seq<char>,
    again: Seq<char>,
    bytes: Seq<u8>,
    new_bytes: Seq<u8>,
)
    requires
        normalized(path) == normalized(again),
    ensures
        put(put(entries, normalized(path), bytes), normalized(again), new_bytes) == put(
            entries,
            normalized(again),
            new_bytes,
        ),
        lookup(put(put(entries, normalized(path), bytes), normalized(again), new_bytes), path)
            == Some(new_bytes),
        lookup(put(put(entries, normalized(path), bytes), normalized(again), new_bytes), again)
            == Some(new_bytes),
{
    let key = normalized(path);
    let once = put(entries, key, bytes);
    lemma_put_place(entries, key, bytes);
    assert(put(once, key, new_bytes) =~= put(entries, key, new_bytes));
    lemma_insert_then_get(entries, again, new_bytes);
    lemma_insert_then_get(entries, path, new_bytes);
}

/// A path that is stored, in its normal form, resolves to its own entry: a
/// lookup finds what the map holds under it, whatever other stored paths
/// the path occurs in.
pub proof fn lemma_stored_is_found(entries: Entries, query: Seq<char>)
    requires
        well_formed(entries),
        as_map(entries).dom().contains(normalized(query)),
    ensures
        resolve(paths(entries), query) matches Some(i) && 0 <= i < entries.len() && entries[i].0
            == normalized(query),
        lookup(entries, query) == Some(as_map(entries)[normalized(query)]),
{
    let path = normalized(query);
    lemma_exact(entries, path);
    let i = first_hit(exact_hits(paths(entries), path))->0;
    lemma_as_map_at(entries, i);
}

/// An entry that is stored under the normalized path is taken out by a
/// removal of the path, and after that the path resolves to nothing,
/// provided that the relaxed form of the path occurs in no other stored
/// path. (Where it does occur in another, the path resolves to that one
/// next.)
pub proof fn lemma_remove_then_absent(entries: Entries, query: Seq<char>)
    requires
        well_formed(entries),
        as_map(entries).dom().contains(normalized(query)),
        forall|j: int|
            0 <= j < entries.len() && entries[j].0 != normalized(query) ==> !occurs_in(
                relaxed(normalized(query)),
                #[trigger] entries[j].0,
            ),
    ensures
        resolve(paths(entries), query) matches Some(i) && {
            &&& 0 <= i < entries.len()
            &&& entries[i].0 == normalized(query)
            &&& lookup(entries, query) == Some(as_map(entries)[normalized(query)])
            &&& resolve(paths(entries.remove(i)), query) is None
            &&& lookup(entries.remove(i), query) is None
        },
{
    let path = normalized(query);
    lemma_stored_is_found(entries, query);
    let i = resolve(paths(entries), query)->0;
    let after = entries.remove(i);
    lemma_resolves_iff_held(after, query);
    assert forall|j: int| 0 <= j < after.len() implies !occurs_in(relaxed(path), after[j].0) by {
        let j0 = if j < i { j } else { j + 1 };
        assert(after[j] == entries[j0]);
        if j0 < i {
            assert(entries[j0].0 != entries[i].0);
        } else {
            assert(entries[i].0 != entries[j0].0);
        }
    }
}

/// The two spellings of the JPEG extension relax to the same text.
pub proof fn lemma_jpeg_spellings(stem: Seq<char>)
    ensures
        relaxed(stem + long_jpeg_extension()) == stem + seq!['.', 'j', 'p'],
        relaxed(stem + short_jpeg_extension()) == stem + seq!['.', 'j', 'p'],
{
    let long = stem + long_jpeg_extension();
    let short = stem + short_jpeg_extension();
    assert(long.subrange(long.len() - 5, long.len() as int) =~= long_jpeg_extension());
    assert(short.subrange(short.len() - 4, short.len() as int) =~= short_jpeg_extension());
    assert(!long_jpeg_extension().is_suffix_of(short)) by {
        if short.len() >= 5 {
            assert(short.subrange(short.len() - 5, short.len() as int)[3] == 'p');
            assert(long_jpeg_extension()[3] == 'e');
        }
    }
    assert(long.take(long.len() - 2) =~= stem + seq!['.', 'j', 'p']);
    assert(short.take(short.len() - 1) =~= stem + seq!['.', 'j', 'p']);
}

/// A stored path with one spelling of the JPEG extension is found under the
/// other: where a stored path holds the normal form of `stem` followed by
/// `.jpeg`, asking for `stem` followed by `.jpg` resolves to an entry, and so
/// with the spellings exchanged.
pub proof fn lemma_jpeg_alias(entries: Entries, stem: Seq<char>, i: int)
    requires
        0 <= i < entries.len(),
    ensures
        occurs_in(normalized(stem) + long_jpeg_extension(), entries[i].0) ==> resolve(
            paths(entries),
            stem + short_jpeg_extension(),
        ) is Some,
        occurs_in(normalized(stem) + short_jpeg_extension(), entries[i].0) ==> resolve(
            paths(entries),
            stem + long_jpeg_extension(),
        ) is Some,
{
    let normal = normalized(stem);
    let long = normal + long_jpeg_extension();
    let short = normal + short_jpeg_extension();
    let part = normal + seq!['.', 'j', 'p'];
    lemma_jpeg_spellings(normal);
    assert(normalized(stem + long_jpeg_extension()) =~= long);
    assert(normalized(stem + short_jpeg_extension()) =~= short);
    assert(occurs_at(part, long, 0)) by {
        assert(long.subrange(0, part.len() as int) =~= part);
    }
    assert(occurs_at(part, short, 0)) by {
        assert(short.subrange(0, part.len() as int) =~= part);
    }
    if occurs_in(long, entries[i].0) {
        lemma_occurs_in_transitive(part, long, entries[i].0);
        lemma_held_resolves(entries, stem + short_jpeg_extension(), i);
    }
    if occurs_in(short, entries[i].0) {
        lemma_occurs_in_transitive(part, short, entries[i].0);
        lemma_held_resolves(entries, stem + long_jpeg_extension(), i);
    }
}

} // verus!
