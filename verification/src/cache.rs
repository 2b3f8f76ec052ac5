//! The sparse cache of subtree digests, one map of positions per level.

use std::collections::HashMap;
use vstd::prelude::*;

verus! {

/// The view of a digest that may be absent.
pub open spec fn digest_view(digest: Option<crate::Hash>) -> Option<Seq<u8>> {
    match digest {
        Some(d) => Some(d@),
        None => None,
    }
}

/// The views of the digests of a sibling path.
pub open spec fn path_view(path: Seq<Option<crate::Hash>>) -> Seq<Option<Seq<u8>>> {
    path.map_values(|d: Option<crate::Hash>| digest_view(d))
}

/// Digests by level and position. A position that was never written is
/// absent, which is not the same as holding a zero digest.
pub struct HashCache {
    levels: HashMap<u8, HashMap<u64, crate::Hash>>,
}

impl HashCache {
    /// The digest at `pos` of `level`, if one was written.
    pub closed spec fn at(&self, level: u8, pos: u64) -> Option<crate::Hash> {
        if self.levels@.contains_key(level) && self.levels@[level]@.contains_key(pos) {
            Some(self.levels@[level]@[pos])
        } else {
            None
        }
    }

    /// An empty cache.
    pub fn new() -> (cache: Self)
        ensures
            forall|level: u8, pos: u64| cache.at(level, pos) is None,
    {
        HashCache { levels: HashMap::new() }
    }

    /// Reads the digest at `pos` of `level`.
    pub fn get(&self, level: u8, pos: u64) -> (digest: Option<crate::Hash>)
        ensures
            digest == self.at(level, pos),
    {
        broadcast use vstd::std_specs::hash::group_hash_axioms;

        match self.levels.get(&level) {
            Some(positions) => match positions.get(&pos) {
                Some(d) => Some(*d),
                None => None,
            },
            None => None,
        }
    }

    /// Writes `digest` at `pos` of `level` and leaves every other position as
    /// it was.
    pub fn set(&mut self, level: u8, pos: u64, digest: crate::Hash)
        ensures
            final(self).at(level, pos) == Some(digest),
            forall|l: u8, p: u64|
                !(l == level && p == pos) ==> final(self).at(l, p) == old(self).at(l, p),
    {
        broadcast use vstd::std_specs::hash::group_hash_axioms;

        let mut positions = match self.levels.remove(&level) {
            Some(positions) => positions,
            None => HashMap::new(),
        };
        positions.insert(pos, digest);
        self.levels.insert(level, positions);
    }
}

} // verus!
