//! Basic types shared by the whole library.
use vstd::prelude::*;

verus! {

/// A 32-byte content hash (Blake3).
pub type Hash = [u8; 32];

/// Keys are byte strings.
pub type Key = Vec<u8>;

/// Values are byte strings.
pub type Value = Vec<u8>;

/// Configuration of a prolly tree.
#[derive(Debug, Clone, Copy, PartialEq, Eq, Structural)]
pub struct TreeConfig {
    /// A node with more than this many entries splits.
    pub target_fanout: usize,
    /// A non-root node with fewer entries than this is rebalanced.
    pub min_fanout: usize,
    /// Minimum chunk size of content-defined chunking.
    pub cdc_min_size: usize,
    /// Average chunk size of content-defined chunking.
    pub cdc_avg_size: usize,
    /// Maximum chunk size of content-defined chunking.
    pub cdc_max_size: usize,
    /// Values longer than this are split into chunks; shorter ones are stored inline.
    pub max_inline_value_size: usize,
}

impl TreeConfig {
    /// The fanout settings a tree accepts: `min_fanout > 0` and
    /// `target_fanout >= 2 * min_fanout`.
    pub open spec fn fanout_valid(self) -> bool {
        &&& self.min_fanout > 0
        &&& self.target_fanout > 0
        &&& self.target_fanout >= 2 * self.min_fanout
    }

    /// The chunker parameters, cast to `u32` as the chunker receives them,
    /// lie in the ranges the chunker accepts, and the average size does not
    /// exceed the maximum.
    pub open spec fn cdc_valid(self) -> bool {
        &&& 64 <= self.cdc_min_size as u32 <= 1_048_576
        &&& 256 <= self.cdc_avg_size as u32 <= 4_194_304
        &&& 1024 <= self.cdc_max_size as u32 <= 16_777_216
        &&& self.cdc_avg_size as u32 <= self.cdc_max_size as u32
    }

    /// Checks `fanout_valid`.
    pub fn is_fanout_valid(&self) -> (r: bool)
        ensures
            r == self.fanout_valid(),
    {
        self.min_fanout > 0 && self.target_fanout > 0 && self.target_fanout / 2 >= self.min_fanout
    }

    /// Checks `cdc_valid`.
    pub fn is_cdc_valid(&self) -> (r: bool)
        ensures
            r == self.cdc_valid(),
    {
        let min = self.cdc_min_size as u32;
        let avg = self.cdc_avg_size as u32;
        let max = self.cdc_max_size as u32;
        64 <= min && min <= 1_048_576 && 256 <= avg && avg <= 4_194_304 && 1024 <= max && max
            <= 16_777_216 && avg <= max
    }
}

impl Default for TreeConfig {
    fn default() -> (r: Self)
        ensures
            r.target_fanout == 32,
            r.min_fanout == 16,
            r.cdc_min_size == 4096,
            r.cdc_avg_size == 16384,
            r.cdc_max_size == 65536,
            r.max_inline_value_size == 1024,
    {
        let target_fanout: usize = 32;
        TreeConfig {
            target_fanout,
            min_fanout: target_fanout / 2,
            cdc_min_size: 4 * 1024,
            cdc_avg_size: 16 * 1024,
            cdc_max_size: 64 * 1024,
            max_inline_value_size: 1024,
        }
    }
}

/// Compares two hashes byte by byte.
pub fn hash_eq(a: &Hash, b: &Hash) -> (r: bool)
    ensures
        r == (a@ == b@),
{
    let mut i: usize = 0;
    while i < 32
        invariant
            i <= 32,
            a@.len() == 32,
            b@.len() == 32,
            forall|j: int| 0 <= j < i ==> a@[j] == b@[j],
        decreases 32 - i,
    {
        if a[i] != b[i] {
            return false;
        }
        i = i + 1;
    }
    assert(a@ =~= b@);
    true
}

} // verus!
