//! The store of raw assets.

use vstd::prelude::*;
use crate::error::Error;
use crate::io::deserialize::Deserialize;
use crate::io::model::{
    as_map, exact_hits, first_hit, is_first_hit, lemma_first_hit_is, lemma_first_hit_none, lemma_merged,
    lemma_put, lemma_remove, lookup, merged, partial_hits, paths, put, resolve, well_formed, Entries,
};
use crate::io::path::{normalized, relaxed, NormalizedPath};

verus! {

/// A path and the bytes kept under it.
struct Entry {
    path: NormalizedPath,
    bytes: Vec<u8>,
}

/// The entries that a vector of stored entries stands for.
spec fn model_of(entries: Seq<Entry>) -> Entries {
    Seq::new(entries.len(), |i: int| (entries[i].path@, entries[i].bytes@))
}

/// The position of the entry whose path is `path`.
fn position(entries: &Vec<Entry>, path: &NormalizedPath) -> (r: Option<usize>)
    ensures
        match r {
            Some(i) => i < entries@.len() && first_hit(exact_hits(paths(model_of(entries@)), path@))
                == Some(i as int),
            None => first_hit(exact_hits(paths(model_of(entries@)), path@)) is None,
        },
{
    let n: usize = entries.len();
    let ghost hits = exact_hits(paths(model_of(entries@)), path@);
    let mut i: usize = 0;
    while i < n
        invariant
            i <= n,
            n == entries@.len(),
            hits == exact_hits(paths(model_of(entries@)), path@),
            forall|j: int| 0 <= j < i ==> !hits[j],
        decreases n - i,
    {
        if entries[i].path.same(path) {
            proof {
                assert(is_first_hit(hits, i as int));
                lemma_first_hit_is(hits, i as int);
            }
            return Some(i);
        }
        i += 1;
    }
    proof {
        lemma_first_hit_none(hits);
    }
    None
}

/// The position of the first entry in whose path `part` occurs.
fn position_holding(entries: &Vec<Entry>, part: &NormalizedPath) -> (r: Option<usize>)
    ensures
        match r {
            Some(i) => i < entries@.len() && first_hit(
                partial_hits(paths(model_of(entries@)), part@),
            ) == Some(i as int),
            None => first_hit(partial_hits(paths(model_of(entries@)), part@)) is None,
        },
{
    let n: usize = entries.len();
    let ghost hits = partial_hits(paths(model_of(entries@)), part@);
    let mut i: usize = 0;
    while i < n
        invariant
            i <= n,
            n == entries@.len(),
            hits == partial_hits(paths(model_of(entries@)), part@),
            forall|j: int| 0 <= j < i ==> !hits[j],
        decreases n - i,
    {
        if entries[i].path.contains(part) {
            proof {
                assert(is_first_hit(hits, i as int));
                lemma_first_hit_is(hits, i as int);
            }
            return Some(i);
        }
        i += 1;
    }
    proof {
        lemma_first_hit_none(hits);
    }
    None
}

/// Raw assets: byte buffers, each kept under a normalized path.
///
/// A path that is asked for need not be the stored path in full. It resolves
/// to the stored path that equals it after normalization; failing that, to
/// the stored path in which it occurs, a JPEG extension counting in either
/// spelling. Where it occurs in several stored paths, the one that was
/// inserted first among them is taken.
pub struct RawAssets {
    entries: Vec<Entry>,
}

impl View for RawAssets {
    type V = Entries;

    closed spec fn view(&self) -> Entries {
        model_of(self.entries@)
    }
}

impl Default for RawAssets {
    /// A store with no entries.
    fn default() -> (r: Self)
        ensures
            r@ == Entries::empty(),
    {
        let r = RawAssets { entries: Vec::new() };
        assert(r@ =~= Entries::empty());
        r
    }
}

impl RawAssets {
    /// Holds of every store: its paths are distinct and normal.
    #[verifier::type_invariant]
    pub open spec fn wf(&self) -> bool {
        well_formed(self@)
    }

    /// A store with no entries.
    pub fn new() -> (r: Self)
        ensures
            r@ == Entries::empty(),
    {
        Self::default()
    }

    /// The position of the entry that `path` resolves to.
    fn locate(&self, path: &str) -> (r: Option<usize>)
        ensures
            match r {
                Some(i) => i < self@.len() && resolve(paths(self@), path@) == Some(i as int),
                None => resolve(paths(self@), path@) is None,
            },
    {
        let wanted = NormalizedPath::new(path);
        match position(&self.entries, &wanted) {
            Some(i) => Some(i),
            None => position_holding(&self.entries, &wanted.relaxed()),
        }
    }

    /// The stored path that `path` resolves to, or `NotLoaded` with `path` as
    /// it was given where it resolves to none.
    pub fn match_path(&self, path: &str) -> (r: Result<String, Error>)
        ensures
            match resolve(paths(self@), path@) {
                Some(i) => r matches Ok(found) && found@ == self@[i].0,
                None => r matches Err(Error::NotLoaded(asked)) && asked@ == path@,
            },
    {
        match self.locate(path) {
            Some(i) => Ok(self.entries[i].path.to_string()),
            None => Err(Error::NotLoaded(path.to_owned())),
        }
    }

    /// The bytes of the entry that `path` resolves to, which stay in the
    /// store; `NotLoaded` with `path` as it was given where it resolves to
    /// none.
    pub fn get(&self, path: &str) -> (r: Result<&[u8], Error>)
        ensures
            match lookup(self@, path@) {
                Some(bytes) => r matches Ok(found) && found@ == bytes,
                None => r matches Err(Error::NotLoaded(asked)) && asked@ == path@,
            },
    {
        match self.locate(path) {
            Some(i) => Ok(self.entries[i].bytes.as_slice()),
            None => Err(Error::NotLoaded(path.to_owned())),
        }
    }

    /// Takes the entry that `path` resolves to out of the store and returns
    /// its bytes. Where `path` resolves to none, the store stays as it is and
    /// the result is `NotLoaded` with `path` as it was given.
    pub fn remove(&mut self, path: &str) -> (r: Result<Vec<u8>, Error>)
        ensures
            match resolve(paths(old(self)@), path@) {
                Some(i) => {
                    &&& r matches Ok(bytes) && bytes@ == old(self)@[i].1
                    &&& final(self)@ == old(self)@.remove(i)
                    &&& as_map(final(self)@) == as_map(old(self)@).remove(old(self)@[i].0)
                },
                None => {
                    &&& r matches Err(Error::NotLoaded(asked)) && asked@ == path@
                    &&& final(self)@ == old(self)@
                },
            },
    {
        proof {
            use_type_invariant(&*self);
        }
        match self.locate(path) {
            Some(i) => {
                let mut entries: Vec<Entry> = Vec::new();
                std::mem::swap(&mut entries, &mut self.entries);
                let entry = entries.remove(i);
                proof {
                    lemma_remove(old(self)@, i as int);
                    assert(model_of(entries@) =~= old(self)@.remove(i as int));
                }
                self.entries = entries;
                Ok(entry.bytes)
            },
            None => Err(Error::NotLoaded(path.to_owned())),
        }
    }

    /// Stores `bytes` under `path`, whatever was stored there before.
    fn store(&mut self, path: NormalizedPath, bytes: Vec<u8>)
        ensures
            final(self)@ == put(old(self)@, path@, bytes@),
            as_map(final(self)@) == as_map(old(self)@).insert(path@, bytes@),
    {
        proof {
            use_type_invariant(&*self);
            use_type_invariant(&path);
            lemma_put(self@, path@, bytes@);
        }
        let mut entries: Vec<Entry> = Vec::new();
        std::mem::swap(&mut entries, &mut self.entries);
        match position(&entries, &path) {
            Some(i) => {
                entries[i] = Entry { path, bytes };
            },
            None => {
                entries.push(Entry { path, bytes });
            },
        }
        proof {
            assert(model_of(entries@) =~= put(old(self)@, path@, bytes@));
        }
        self.entries = entries;
    }

    /// Stores `bytes` under the normalized `path`. Bytes that were stored
    /// under that path before are dropped; no other entry changes.
    pub fn insert(&mut self, path: &str, bytes: Vec<u8>) -> (r: &mut Self)
        ensures
            r@ == put(old(self)@, normalized(path@), bytes@),
            as_map(r@) == as_map(old(self)@).insert(normalized(path@), bytes@),
            *final(self) == *final(r),
    {
        self.store(NormalizedPath::new(path), bytes);
        self
    }

    /// Moves every entry of `raw_assets` into this store, oldest first, as
    /// `insert` would: where both stores hold a path, the bytes that come in
    /// replace those that were here. `raw_assets` is left empty.
    pub fn extend(&mut self, raw_assets: &mut RawAssets) -> (r: &mut Self)
        ensures
            r@ == merged(old(self)@, old(raw_assets)@),
            as_map(r@) == as_map(old(self)@).union_prefer_right(as_map(old(raw_assets)@)),
            final(raw_assets)@ == Entries::empty(),
            *final(self) == *final(r),
    {
        proof {
            use_type_invariant(&*self);
            use_type_invariant(&*raw_assets);
            lemma_merged(self@, raw_assets@);
        }
        let mut incoming: Vec<Entry> = Vec::new();
        std::mem::swap(&mut incoming, &mut raw_assets.entries);
        assert(raw_assets@ =~= Entries::empty());
        let ghost from = model_of(incoming@);
        for entry in it: incoming
            invariant
                it.seq().len() == from.len(),
                forall|i: int|
                    0 <= i < from.len() ==> from[i] == (
                        (#[trigger] it.seq()[i]).path@,
                        it.seq()[i].bytes@,
                    ),
                self@ == merged(old(self)@, from.take(it.index() as int)),
        {
            proof {
                assert(from.take(it.index() + 1).drop_last() =~= from.take(it.index() as int));
            }
            self.store(entry.path, entry.bytes);
        }
        proof {
            assert(from.take(from.len() as int) =~= from);
        }
        self
    }

    /// The entries of the store, oldest first: each path with the bytes kept
    /// under it.
    pub fn iter(&self) -> (r: Vec<(String, &[u8])>)
        ensures
            r@.len() == self@.len(),
            forall|i: int|
                0 <= i < self@.len() ==> (#[trigger] r@[i]).0@ == self@[i].0 && r@[i].1@
                    == self@[i].1,
    {
        let n: usize = self.entries.len();
        let mut pairs: Vec<(String, &[u8])> = Vec::new();
        let mut i: usize = 0;
        while i < n
            invariant
                i <= n,
                n == self.entries@.len(),
                pairs@.len() == i,
                forall|j: int|
                    0 <= j < i ==> (#[trigger] pairs@[j]).0@ == self@[j].0 && pairs@[j].1@
                        == self@[j].1,
            decreases n - i,
        {
            pairs.push((self.entries[i].path.to_string(), self.entries[i].bytes.as_slice()));
            i += 1;
        }
        pairs
    }

    /// Hands `path` and the whole store to the decoder of `T`, and returns
    /// what the decoder returns, its error included. The decoder may have
    /// taken entries out of the store; it has added or changed none.
    pub fn deserialize<T: Deserialize>(&mut self, path: &str) -> (r: Result<T, Error>)
        ensures
            as_map(final(self)@).submap_of(as_map(old(self)@)),
            T::decoded(path@, old(self)@, final(self)@, r),
    {
        T::deserialize(path, self)
    }
}

} // verus!
