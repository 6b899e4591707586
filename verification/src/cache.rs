//! The path-cache capability and its two backends.
//!
//! A cache maps a record number to that record's previously resolved path.
//! The two backends trade memory for lookup structure: the hash-keyed cache
//! grows with the number of distinct records inserted and suits sparse
//! access, the index-addressed cache grows with the highest record number
//! inserted and suits full table scans. The resolver is written once against
//! the trait, and callers pick a backend by expected access density.

use std::collections::HashMap;
use vstd::prelude::*;

use crate::mft::record_path;
use crate::mft::NtfsFile;

verus! {

broadcast use vstd::std_specs::hash::group_hash_axioms;

/// A memoization table from record numbers to resolved paths.
///
/// `cache_view` is the mathematical content of the cache; `get` and `insert`
/// are exact over it. Records are addressed by index in one backend, so an
/// inserted record number must be addressable.
pub trait FileInfoCache: Sized {
    spec fn cache_view(&self) -> Map<u64, Seq<char>>;

    /// The stored path for `number`, or nothing. Does not allocate on a miss.
    fn get(&self, number: u64) -> (r: Option<&String>)
        ensures
            match r {
                Some(path) => self.cache_view().contains_key(number) && path@
                    == self.cache_view()[number],
                None => !self.cache_view().contains_key(number),
            },
    ;

    /// Stores or overwrites the path for `number`. Always succeeds.
    fn insert(&mut self, number: u64, path: String)
        requires
            number < usize::MAX as u64,
        ensures
            final(self).cache_view() == old(self).cache_view().insert(number, path@),
    ;
}

/// Every cached entry is the true resolved path of its record: the invariant
/// each cache holds between resolutions against one unchanging table.
pub open spec fn cache_valid(
    cv: Map<u64, Seq<char>>,
    records: Map<u64, NtfsFile>,
    root: u64,
    root_path: Seq<char>,
) -> bool {
    forall|n: u64| #[trigger]
        cv.contains_key(n) ==> record_path(records, root, root_path, n) == Some(cv[n])
}

/// The sparse, hash-keyed cache: backing storage grows only with the keys
/// actually inserted.
#[derive(Default)]
pub struct HashMapCache(pub HashMap<u64, String>);

impl HashMapCache {
    /// An empty cache.
    pub fn new() -> (cache: HashMapCache)
        ensures
            cache.cache_view() == Map::<u64, Seq<char>>::empty(),
    {
        let cache = HashMapCache(HashMap::new());
        proof {
            assert(cache.cache_view() =~= Map::<u64, Seq<char>>::empty());
        }
        cache
    }
}

impl FileInfoCache for HashMapCache {
    open spec fn cache_view(&self) -> Map<u64, Seq<char>> {
        Map::new(|n: u64| self.0@.contains_key(n), |n: u64| self.0@[n]@)
    }

    fn get(&self, number: u64) -> (r: Option<&String>) {
        match self.0.get(&number) {
            Some(path) => Some(path),
            None => None,
        }
    }

    /// Beyond the trait contract: the backing map gains exactly one entry
    /// for a new record number and none for an overwrite, whatever the
    /// magnitude of the number — sparse memory scales with the count of
    /// distinct records inserted.
    fn insert(&mut self, number: u64, path: String)
        ensures
            final(self).0@.len() == (if old(self).0@.contains_key(number) {
                old(self).0@.len() as int
            } else {
                old(self).0@.len() + 1 as int
            }),
    {
        let ghost before = self.cache_view();
        let ghost v = path@;
        self.0.insert(number, path);
        proof {
            broadcast use vstd::set::group_set_axioms;

            assert(self.cache_view() =~= before.insert(number, v));
            assert(self.0@.dom() =~= old(self).0@.dom().insert(number));
        }
    }
}

/// Law: the sparse cache's backing storage holds exactly one slot per
/// distinct record number inserted, however large those numbers are.
pub proof fn lemma_sparse_cache_size(cache: HashMapCache)
    ensures
        cache.0@.dom() == cache.cache_view().dom(),
        cache.0@.dom().finite() ==> cache.0@.len() == cache.cache_view().len(),
{
    assert(cache.0@.dom() =~= cache.cache_view().dom());
}

/// The dense, index-addressed cache: the path of record `n` sits at index
/// `n` of the backing storage, which grows to `n + 1` slots on insert if it
/// is not that large already.
#[derive(Default)]
pub struct VecCache(pub Vec<Option<String>>);

impl VecCache {
    /// An empty cache.
    pub fn new() -> (cache: VecCache)
        ensures
            cache.cache_view() == Map::<u64, Seq<char>>::empty(),
            cache.0@.len() == 0,
    {
        let cache = VecCache(Vec::new());
        proof {
            assert(cache.cache_view() =~= Map::<u64, Seq<char>>::empty());
        }
        cache
    }
}

impl FileInfoCache for VecCache {
    open spec fn cache_view(&self) -> Map<u64, Seq<char>> {
        Map::new(
            |n: u64| n < self.0@.len() && self.0@[n as int] is Some,
            |n: u64| self.0@[n as int]->0@,
        )
    }

    fn get(&self, number: u64) -> (r: Option<&String>) {
        if number < self.0.len() as u64 {
            let idx = number as usize;
            match &self.0[idx] {
                Some(path) => Some(path),
                None => None,
            }
        } else {
            None
        }
    }

    /// Beyond the trait contract: the backing storage grows to exactly
    /// `number + 1` slots when it was smaller and is untouched in size
    /// otherwise — dense memory scales with the highest record number
    /// inserted, not with the count of distinct records. The slot of
    /// `number` holds the path, every other pre-existing slot is kept, and
    /// every newly added slot is an empty placeholder.
    fn insert(&mut self, number: u64, path: String)
        ensures
            final(self).0@.len() == (if old(self).0@.len() >= number as int + 1 {
                old(self).0@.len() as int
            } else {
                number as int + 1
            }),
            final(self).0@[number as int] == Some(path),
            forall|i: int|
                0 <= i < old(self).0@.len() && i != number as int
                    ==> final(self).0@[i] == old(self).0@[i],
            forall|i: int|
                old(self).0@.len() <= i < final(self).0@.len() && i != number as int
                    ==> final(self).0@[i] is None,
    {
        let ghost before = self.cache_view();
        let ghost v = path@;
        let idx = number as usize;
        while self.0.len() <= idx
            invariant
                idx < usize::MAX,
                self.0@.len() >= old(self).0@.len(),
                self.0@.len() == old(self).0@.len() || self.0@.len() <= idx + 1,
                forall|j: int|
                    0 <= j < old(self).0@.len() ==> self.0@[j] == old(self).0@[j],
                forall|j: int| old(self).0@.len() <= j < self.0@.len() ==> self.0@[j] is None,
            decreases idx + 1 - self.0@.len(),
        {
            self.0.push(None);
        }
        self.0[idx] = Some(path);
        proof {
            assert(self.cache_view() =~= before.insert(number, v));
        }
    }
}

/// Law: the dense cache's backing storage spans every inserted record
/// number, so its memory use scales with the highest record number inserted
/// rather than with the count of distinct records.
pub proof fn lemma_dense_cache_extent(cache: VecCache)
    ensures
        forall|n: u64| #[trigger]
            cache.cache_view().contains_key(n) ==> (n as int) < cache.0@.len(),
{
}

} // verus!
