//! The interface between the store and the decoders of typed values.

use vstd::prelude::*;
use crate::error::Error;
use crate::io::model::{as_map, Entries};
use crate::io::raw_assets::RawAssets;

verus! {

/// A type whose values are made from raw assets.
///
/// A decoder consumes and never produces: what it leaves in the store was
/// there before, under the same path and with the same bytes. A decoder that
/// is verified proves this; of one that is not, the store takes it on trust.
pub trait Deserialize: Sized {
    /// What this decoder does: whether, asked for `path` on a store that
    /// holds `before`, it may leave the store holding `after` and return
    /// `result`. A decoder that says nothing of itself may do anything that
    /// the contract of `deserialize` allows.
    open spec fn decoded(
        path: Seq<char>,
        before: Entries,
        after: Entries,
        result: Result<Self, Error>,
    ) -> bool {
        true
    }

    /// Makes a value from the entry that `path` resolves to, and from any
    /// further entries that the value needs. The decoder may read and remove
    /// entries of `raw_assets`; it inserts none and changes no buffer.
    fn deserialize(path: &str, raw_assets: &mut RawAssets) -> (r: Result<Self, Error>)
        ensures
            as_map(final(raw_assets)@).submap_of(as_map(old(raw_assets)@)),
            Self::decoded(path@, old(raw_assets)@, final(raw_assets)@, r),
    ;
}

} // verus!
