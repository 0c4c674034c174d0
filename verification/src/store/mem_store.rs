//! An in-memory chunk store.
use vstd::prelude::*;
use crate::chunk::{hash_bytes, spec_blake3};
use crate::common::hash_eq;
use crate::error::{ProllyError, Result};
use super::chunk_store::{hash_set, ChunkStore};

verus! {

/// The chunks of an in-memory store, as (hash, bytes) pairs.
#[derive(Debug)]
pub struct InMemoryStoreInner {
    data: Vec<(crate::common::Hash, Vec<u8>)>,
}

/// The map that a list of (hash, bytes) pairs stands for; later pairs win.
pub open spec fn pairs_map(s: Seq<(crate::common::Hash, Vec<u8>)>) -> Map<Seq<u8>, Seq<u8>>
    decreases s.len(),
{
    if s.len() == 0 {
        Map::empty()
    } else {
        pairs_map(s.drop_last()).insert(s.last().0@, s.last().1@)
    }
}

pub open spec fn pairs_distinct(s: Seq<(crate::common::Hash, Vec<u8>)>) -> bool {
    forall|i: int, j: int| 0 <= i < j < s.len() ==> (#[trigger] s[i]).0@ != (#[trigger] s[j]).0@
}

proof fn lemma_pairs_map_dom(s: Seq<(crate::common::Hash, Vec<u8>)>, k: Seq<u8>)
    ensures
        pairs_map(s).contains_key(k) <==> exists|i: int| 0 <= i < s.len() && s[i].0@ == k,
    decreases s.len(),
{
    if s.len() > 0 {
        lemma_pairs_map_dom(s.drop_last(), k);
        if pairs_map(s.drop_last()).contains_key(k) {
            let i = choose|i: int| 0 <= i < s.drop_last().len() && s.drop_last()[i].0@ == k;
            assert(s[i].0@ == k);
        }
        if exists|i: int| 0 <= i < s.len() && s[i].0@ == k {
            let i = choose|i: int| 0 <= i < s.len() && s[i].0@ == k;
            if i < s.len() - 1 {
                assert(s.drop_last()[i].0@ == k);
            }
        }
    }
}

proof fn lemma_pairs_map_value(s: Seq<(crate::common::Hash, Vec<u8>)>, i: int)
    requires
        0 <= i < s.len(),
        pairs_distinct(s),
    ensures
        pairs_map(s).contains_key(s[i].0@),
        pairs_map(s)[s[i].0@] == s[i].1@,
    decreases s.len(),
{
    if i < s.len() - 1 {
        let t = s.drop_last();
        assert forall|a: int, b: int| 0 <= a < b < t.len() implies (#[trigger] t[a]).0@ != (
        #[trigger] t[b]).0@ by {
            assert(t[a] == s[a] && t[b] == s[b]);
        }
        lemma_pairs_map_value(t, i);
        assert(t[i] == s[i]);
        assert(s[i].0@ != s[s.len() - 1].0@);
    }
}

impl InMemoryStoreInner {
    pub closed spec fn view_map(&self) -> Map<Seq<u8>, Seq<u8>> {
        pairs_map(self.data@)
    }

    pub closed spec fn wf(&self) -> bool {
        pairs_distinct(self.data@)
    }

    /// Position of `hash` in the pair list, if present.
    fn find(&self, hash: &crate::common::Hash) -> (r: Option<usize>)
        requires
            self.wf(),
        ensures
            match r {
                Some(i) => i < self.data@.len() && self.data@[i as int].0@ == hash@
                    && self.view_map().contains_key(hash@) && self.view_map()[hash@]
                    == self.data@[i as int].1@,
                None => !self.view_map().contains_key(hash@),
            },
    {
        let mut i: usize = 0;
        while i < self.data.len()
            invariant
                self.wf(),
                i <= self.data@.len(),
                forall|j: int| 0 <= j < i ==> self.data@[j].0@ != hash@,
            decreases self.data@.len() - i,
        {
            if hash_eq(&self.data[i].0, hash) {
                proof {
                    lemma_pairs_map_value(self.data@, i as int);
                }
                return Some(i);
            }
            i = i + 1;
        }
        proof {
            lemma_pairs_map_dom(self.data@, hash@);
        }
        None
    }
}

/// An in-memory `ChunkStore`.
pub struct InMemoryStore {
    inner: InMemoryStoreInner,
    /// How many writes were refused so far.
    refused: Ghost<nat>,
}

impl InMemoryStore {
    /// An empty store.
    pub fn new() -> (r: Self)
        ensures
            r.inv(),
            r.chunks() == Map::<Seq<u8>, Seq<u8>>::empty(),
            r.refusals() == 0,
    {
        let r = InMemoryStore { inner: InMemoryStoreInner { data: Vec::new() }, refused: Ghost(0) };
        assert(r.chunks() =~= Map::<Seq<u8>, Seq<u8>>::empty());
        r
    }

    /// A copy of every chunk, as (hash, bytes) pairs with distinct hashes.
    pub fn get_all_chunks_for_test(&self) -> (r: Vec<(crate::common::Hash, Vec<u8>)>)
        requires
            self.inv(),
        ensures
            pairs_map(r@) == self.chunks(),
            pairs_distinct(r@),
    {
        let mut out: Vec<(crate::common::Hash, Vec<u8>)> = Vec::new();
        let mut i: usize = 0;
        while i < self.inner.data.len()
            invariant
                i <= self.inner.data@.len(),
                out@.len() == i,
                forall|j: int| 0 <= j < i ==> (#[trigger] out@[j]).0@ == self.inner.data@[j].0@
                    && out@[j].1@ == self.inner.data@[j].1@,
            decreases self.inner.data@.len() - i,
        {
            let h = self.inner.data[i].0;
            let b = self.inner.data[i].1.clone();
            out.push((h, b));
            i = i + 1;
        }
        proof {
            lemma_pairs_map_same(out@, self.inner.data@);
        }
        out
    }
}

proof fn lemma_pairs_map_same(
    a: Seq<(crate::common::Hash, Vec<u8>)>,
    b: Seq<(crate::common::Hash, Vec<u8>)>,
)
    requires
        a.len() == b.len(),
        forall|j: int| 0 <= j < a.len() ==> (#[trigger] a[j]).0@ == b[j].0@ && a[j].1@ == b[j].1@,
    ensures
        pairs_map(a) == pairs_map(b),
        pairs_distinct(b) ==> pairs_distinct(a),
    decreases a.len(),
{
    if a.len() > 0 {
        lemma_pairs_map_same(a.drop_last(), b.drop_last());
        assert(a.last().0@ == b.last().0@);
        assert(pairs_distinct(b) ==> pairs_distinct(a)) by {
            if pairs_distinct(b) {
                assert forall|i: int, j: int| 0 <= i < j < a.len() implies (#[trigger] a[i]).0@
                    != (#[trigger] a[j]).0@ by {
                    assert(b[i].0@ != b[j].0@);
                }
            }
        }
    }
}

impl ChunkStore for InMemoryStore {
    closed spec fn chunks(&self) -> Map<Seq<u8>, Seq<u8>> {
        self.inner.view_map()
    }

    closed spec fn inv(&self) -> bool {
        self.inner.wf()
    }

    /// An in-memory store never fails on its own account.
    open spec fn reliable(&self) -> bool {
        true
    }

    closed spec fn refusals(&self) -> nat {
        self.refused@
    }

    /// Never fails.
    fn get(&self, hash: &crate::common::Hash) -> (r: Result<Option<Vec<u8>>>)
        ensures
            r is Ok,
    {
        match self.inner.find(hash) {
            Some(i) => Ok(Some(self.inner.data[i].1.clone())),
            None => Ok(None),
        }
    }

    /// Fails only when different bytes are already stored under the hash.
    fn put(&mut self, bytes: Vec<u8>) -> (r: Result<crate::common::Hash>)
        ensures
            r is Err <==> (old(self).chunks().contains_key(spec_blake3(bytes@))
                && old(self).chunks()[spec_blake3(bytes@)] != bytes@),
    {
        let hash = hash_bytes(bytes.as_slice());
        match self.inner.find(&hash) {
            Some(i) => {
                if bytes_eq(&self.inner.data[i].1, &bytes) {
                    proof {
                        assert(self.chunks().insert(hash@, bytes@) =~= self.chunks());
                    }
                    Ok(hash)
                } else {
                    proof {
                        self.refused = Ghost(self.refused@ + 1);
                    }
                    Err(
                        ProllyError::StorageError(
                            "a different chunk is already stored under this hash".to_string(),
                        ),
                    )
                }
            },
            None => {
                let ghost prev = self.inner.data@;
                self.inner.data.push((hash, bytes));
                proof {
                    assert(self.inner.data@.drop_last() =~= prev);
                    assert forall|i: int, j: int|
                        0 <= i < j < self.inner.data@.len() implies (
                    #[trigger] self.inner.data@[i]).0@ != (#[trigger] self.inner.data@[j]).0@ by {
                        if j == self.inner.data@.len() - 1 {
                            lemma_pairs_map_dom(prev, hash@);
                            assert(prev[i] == self.inner.data@[i]);
                        } else {
                            assert(prev[i] == self.inner.data@[i] && prev[j] == self.inner.data@[j]);
                        }
                    }
                }
                Ok(hash)
            },
        }
    }

    /// Never fails.
    fn delete_batch(&mut self, hashes: &[crate::common::Hash]) -> (r: Result<()>)
        ensures
            r is Ok,
    {
        let ghost gone = hash_set(hashes@);
        let ghost old_data = self.inner.data@;
        let mut kept: Vec<(crate::common::Hash, Vec<u8>)> = Vec::new();
        let mut rest: Vec<(crate::common::Hash, Vec<u8>)> = Vec::new();
        std::mem::swap(&mut rest, &mut self.inner.data);
        let n = rest.len();
        let mut i: usize = 0;
        assert(pairs_map(old_data.take(0)).remove_keys(gone) =~= pairs_map(kept@));
        while i < n
            invariant
                n == rest@.len(),
                rest@ == old_data,
                gone == hash_set(hashes@),
                i <= n,
                pairs_distinct(old_data),
                pairs_map(kept@) == pairs_map(old_data.take(i as int)).remove_keys(gone),
                forall|j: int| 0 <= j < kept@.len() ==> exists|m: int| 0 <= m < i && (
                #[trigger] kept@[j]).0@ == old_data[m].0@,
                pairs_distinct(kept@),
                forall|a: int, b: int|
                    #![trigger kept@[a], old_data[b]]
                    0 <= a < kept@.len() && i <= b < n ==> kept@[a].0@ != old_data[b].0@,
            decreases n - i,
        {
            let drop = contains_hash(hashes, &rest[i].0);
            let ghost key = old_data[i as int].0@;
            let ghost val = old_data[i as int].1@;
            assert(old_data.take(i + 1).drop_last() =~= old_data.take(i as int));
            assert(old_data.take(i + 1).last() == old_data[i as int]);
            assert(pairs_map(old_data.take(i + 1)) == pairs_map(old_data.take(i as int)).insert(
                key,
                val,
            ));
            if !drop {
                let h = rest[i].0;
                let b = rest[i].1.clone();
                let ghost prev = kept@;
                kept.push((h, b));
                proof {
                    assert(kept@.drop_last() =~= prev);
                    assert(kept@.last().1@ == val);
                    assert(pairs_map(kept@) == pairs_map(prev).insert(key, val));
                    assert(!gone.contains(key));
                    assert(pairs_map(kept@) =~= pairs_map(old_data.take(i + 1)).remove_keys(gone));
                    assert forall|j: int| 0 <= j < kept@.len() implies exists|m: int|
                        0 <= m < i + 1 && (#[trigger] kept@[j]).0@ == old_data[m].0@ by {
                        if j < prev.len() {
                            assert(kept@[j] == prev[j]);
                        } else {
                            assert(kept@[j].0@ == old_data[i as int].0@);
                        }
                    }
                    assert forall|a: int, b: int|
                        0 <= a < b < kept@.len() implies (#[trigger] kept@[a]).0@ != (
                    #[trigger] kept@[b]).0@ by {
                        assert(kept@[a] == prev[a] || a == prev.len());
                        if b == prev.len() {
                            assert(kept@[a] == prev[a]);
                            assert(prev[a].0@ != old_data[i as int].0@);
                        } else {
                            assert(kept@[a] == prev[a] && kept@[b] == prev[b]);
                        }
                    }
                    assert forall|a: int, b: int|
                        0 <= a < kept@.len() && i + 1 <= b < n implies #[trigger] kept@[a].0@
                        != #[trigger] old_data[b].0@ by {
                        if a < prev.len() {
                            assert(kept@[a] == prev[a]);
                        } else {
                            assert(old_data[i as int].0@ != old_data[b].0@);
                        }
                    }
                }
            } else {
                proof {
                    assert(gone.contains(key));
                    assert(pairs_map(kept@) =~= pairs_map(old_data.take(i + 1)).remove_keys(gone));
                    assert forall|j: int| 0 <= j < kept@.len() implies exists|m: int|
                        0 <= m < i + 1 && (#[trigger] kept@[j]).0@ == old_data[m].0@ by {
                        let m = choose|m: int| 0 <= m < i && (#[trigger] kept@[j]).0@ == old_data[m].0@;
                        assert(0 <= m < i + 1 && kept@[j].0@ == old_data[m].0@);
                    }
                }
            }
            i = i + 1;
        }
        assert(old_data.take(n as int) =~= old_data);
        self.inner.data = kept;
        Ok(())
    }

    /// Never fails.
    fn all_hashes(&self) -> (r: Result<Vec<crate::common::Hash>>)
        ensures
            r is Ok,
    {
        let mut out: Vec<crate::common::Hash> = Vec::new();
        let mut i: usize = 0;
        while i < self.inner.data.len()
            invariant
                i <= self.inner.data@.len(),
                out@.len() == i,
                forall|j: int| 0 <= j < i ==> (#[trigger] out@[j])@ == self.inner.data@[j].0@,
            decreases self.inner.data@.len() - i,
        {
            out.push(self.inner.data[i].0);
            i = i + 1;
        }
        proof {
            assert forall|k: Seq<u8>| hash_set(out@).contains(k) <==> self.chunks().contains_key(
                k,
            ) by {
                lemma_pairs_map_dom(self.inner.data@, k);
                if hash_set(out@).contains(k) {
                    let j = choose|j: int| 0 <= j < out@.len() && out@[j]@ == k;
                    assert(self.inner.data@[j].0@ == k);
                }
                if self.chunks().contains_key(k) {
                    let j = choose|j: int| 0 <= j < self.inner.data@.len() && self.inner.data@[j].0@ == k;
                    assert(out@[j]@ == k);
                }
            }
            assert(hash_set(out@) =~= self.chunks().dom());
            assert forall|a: int, b: int| 0 <= a < b < out@.len() implies (#[trigger] out@[a])@
                != (#[trigger] out@[b])@ by {
                assert(self.inner.data@[a].0@ != self.inner.data@[b].0@);
            }
        }
        Ok(out)
    }
}

/// Whether `hash` occurs in `hashes`.
pub fn contains_hash(hashes: &[crate::common::Hash], hash: &crate::common::Hash) -> (r: bool)
    ensures
        r == hash_set(hashes@).contains(hash@),
{
    let mut i: usize = 0;
    while i < hashes.len()
        invariant
            i <= hashes@.len(),
            forall|j: int| 0 <= j < i ==> hashes@[j]@ != hash@,
        decreases hashes@.len() - i,
    {
        if hash_eq(&hashes[i], hash) {
            return true;
        }
        i = i + 1;
    }
    false
}

/// Byte-wise equality of two byte strings.
pub fn bytes_eq(a: &Vec<u8>, b: &Vec<u8>) -> (r: bool)
    ensures
        r == (a@ == b@),
{
    if a.len() != b.len() {
        return false;
    }
    let mut i: usize = 0;
    while i < a.len()
        invariant
            i <= a@.len(),
            a@.len() == b@.len(),
            forall|j: int| 0 <= j < i ==> a@[j] == b@[j],
        decreases a@.len() - i,
    {
        if a[i] != b[i] {
            return false;
        }
        i = i + 1;
    }
    assert(a@ =~= b@);
    true
}

} // verus!
