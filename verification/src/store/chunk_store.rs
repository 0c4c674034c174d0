//! The interface of a content-addressed chunk store.
use vstd::prelude::*;
use crate::chunk::spec_blake3;
use crate::error::Result;

verus! {

/// The set of hashes in a sequence, as byte strings.
pub open spec fn hash_set(hs: Seq<crate::common::Hash>) -> Set<Seq<u8>> {
    Set::new(|k: Seq<u8>| exists|i: int| 0 <= i < hs.len() && hs[i]@ == k)
}

/// A store of byte chunks, each found again by its Blake3 hash.
pub trait ChunkStore: Sized {
    /// The chunks held: hash to bytes.
    spec fn chunks(&self) -> Map<Seq<u8>, Seq<u8>>;

    /// The store's internal invariant.
    spec fn inv(&self) -> bool;

    /// The store never fails an operation on its own account (as an
    /// in-memory store); `put` may still refuse different bytes under a hash
    /// already stored.
    spec fn reliable(&self) -> bool;

    /// How many writes the store has refused so far (a write of bytes other
    /// than those already stored under their hash).
    spec fn refusals(&self) -> nat;

    /// Looks a chunk up; `Ok(None)` when the hash is not stored.
    fn get(&self, hash: &crate::common::Hash) -> (r: Result<Option<Vec<u8>>>)
        requires
            self.inv(),
        ensures
            r matches Ok(o) ==> match o {
                Some(b) => self.chunks().contains_key(hash@) && b@ == self.chunks()[hash@],
                None => !self.chunks().contains_key(hash@),
            },
            self.reliable() ==> r is Ok,
    ;

    /// Stores a chunk under its Blake3 hash and returns the hash. A chunk
    /// already stored under that hash must be the same bytes.
    fn put(&mut self, bytes: Vec<u8>) -> (r: Result<crate::common::Hash>)
        requires
            old(self).inv(),
        ensures
            final(self).inv(),
            r matches Ok(h) ==> {
                &&& h@ == spec_blake3(bytes@)
                &&& old(self).chunks().contains_key(h@) ==> old(self).chunks()[h@] == bytes@
                &&& final(self).chunks() == old(self).chunks().insert(h@, bytes@)
            },
            r is Err ==> final(self).chunks() == old(self).chunks(),
            final(self).reliable() == old(self).reliable(),
            old(self).reliable() && !(old(self).chunks().contains_key(spec_blake3(bytes@))
                && old(self).chunks()[spec_blake3(bytes@)] != bytes@) ==> r is Ok,
            r is Ok ==> final(self).refusals() == old(self).refusals(),
            final(self).refusals() >= old(self).refusals(),
            r is Err && old(self).reliable() ==> final(self).refusals() == old(self).refusals() + 1,
    ;

    /// Whether a chunk is stored under `hash`.
    fn contains_chunk(&self, hash: &crate::common::Hash) -> (r: Result<bool>)
        requires
            self.inv(),
        ensures
            r matches Ok(b) ==> b == self.chunks().contains_key(hash@),
            self.reliable() ==> r is Ok,
    {
        match self.get(hash) {
            Ok(o) => Ok(o.is_some()),
            Err(e) => Err(e),
        }
    }

    /// Removes the chunks under the given hashes; absent hashes are ignored.
    fn delete_batch(&mut self, hashes: &[crate::common::Hash]) -> (r: Result<()>)
        requires
            old(self).inv(),
        ensures
            final(self).inv(),
            r is Ok ==> final(self).chunks() == old(self).chunks().remove_keys(hash_set(hashes@)),
            final(self).reliable() == old(self).reliable(),
            old(self).reliable() ==> r is Ok,
            final(self).refusals() == old(self).refusals(),
    ;

    /// Every hash stored, each once.
    fn all_hashes(&self) -> (r: Result<Vec<crate::common::Hash>>)
        requires
            self.inv(),
        ensures
            r matches Ok(v) ==> {
                &&& hash_set(v@) == self.chunks().dom()
                &&& forall|i: int, j: int|
                    0 <= i < j < v@.len() ==> (#[trigger] v@[i])@ != (#[trigger] v@[j])@
            },
            self.reliable() ==> r is Ok,
    ;
}

} // verus!
