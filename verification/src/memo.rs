//! The memory of the search: for the key of a world, the schedule found for it.
//!
//! The schedules are kept in the order in which they were found. A hash of
//! the key leads to the places of the entries with that hash, so that a
//! lookup compares few keys.
use vstd::prelude::*;
use std::collections::HashMap;
use crate::movement::{Movement, MovementView, schedule_view};

verus! {

broadcast use vstd::std_specs::hash::group_hash_axioms;

/// What is remembered: for the key of a world the schedule found for it.
pub type Memo = Map<Seq<usize>, Seq<MovementView>>;

/// The hashes are the numbers below this prime.
pub const HASH_MODULUS: u64 = 0x1FFF_FFFF_FFFF_FFFF;

/// A schedule remembered for the world that `key` stands for.
pub struct CacheEntry {
    pub key: Vec<usize>,
    pub movements: Vec<Movement>,
}

/// What a list of remembered schedules says: for each key the schedule of
/// the last entry that has it.
pub open spec fn memo_of(entries: Seq<CacheEntry>) -> Memo
    decreases entries.len(),
{
    if entries.len() == 0 {
        Map::empty()
    } else {
        memo_of(entries.drop_last()).insert(
            entries.last().key@,
            schedule_view(entries.last().movements@),
        )
    }
}

/// The hash of the first `upto` numbers of a key.
pub open spec fn hash_upto(key: Seq<usize>, upto: int) -> int
    decreases upto,
{
    if upto <= 0 {
        0
    } else {
        (hash_upto(key, upto - 1) * 31 + key[upto - 1]) % (HASH_MODULUS as int)
    }
}

/// The hash of a key.
pub open spec fn hash_of(key: Seq<usize>) -> int {
    hash_upto(key, key.len() as int)
}

/// The places listed under hash `h` are places of entries with that hash,
/// in ascending order.
pub open spec fn bucket_ok(entries: Seq<CacheEntry>, h: int, bucket: Seq<usize>) -> bool {
    &&& forall|k: int|
        0 <= k < bucket.len() ==> (#[trigger] bucket[k]) < entries.len() && hash_of(
            entries[bucket[k] as int].key@,
        ) == h
    &&& forall|k: int, l: int| 0 <= k < l < bucket.len() ==> bucket[k] < bucket[l]
}

/// The last entry with a key is what is remembered for the key.
pub proof fn lemma_memo_last(entries: Seq<CacheEntry>, key: Seq<usize>, at: int)
    requires
        0 <= at < entries.len(),
        entries[at].key@ == key,
        forall|i: int| at < i < entries.len() ==> (#[trigger] entries[i]).key@ != key,
    ensures
        memo_of(entries).contains_key(key),
        memo_of(entries)[key] == schedule_view(entries[at].movements@),
    decreases entries.len(),
{
    if at < entries.len() - 1 {
        assert(entries.last().key@ != key);
        lemma_memo_last(entries.drop_last(), key, at);
    }
}

/// A key that no entry has is not remembered.
pub proof fn lemma_memo_absent(entries: Seq<CacheEntry>, key: Seq<usize>)
    requires
        forall|i: int| 0 <= i < entries.len() ==> (#[trigger] entries[i]).key@ != key,
    ensures
        !memo_of(entries).contains_key(key),
    decreases entries.len(),
{
    if entries.len() > 0 {
        assert(entries.last().key@ != key);
        lemma_memo_absent(entries.drop_last(), key);
    }
}

/// The schedules remembered, and an index into them.
pub struct ScheduleCache {
    /// The schedules in the order in which they were found.
    pub entries: Vec<CacheEntry>,
    /// For each hash the places in `entries` of the entries whose key has it.
    pub index: HashMap<u64, Vec<usize>>,
}

impl ScheduleCache {
    /// What is remembered.
    pub open spec fn memo(&self) -> Memo {
        memo_of(self.entries@)
    }

    /// The index lists every entry under the hash of its key, and nothing else.
    pub open spec fn wf(&self) -> bool {
        &&& forall|h: u64| #[trigger]
            self.index@.contains_key(h) ==> bucket_ok(self.entries@, h as int, self.index@[h]@)
        &&& forall|i: int|
            0 <= i < self.entries@.len() ==> {
                let h = hash_of((#[trigger] self.entries@[i]).key@) as u64;
                self.index@.contains_key(h) && self.index@[h]@.contains(i as usize)
            }
    }

    /// A memory that holds nothing.
    pub fn new() -> (cache: ScheduleCache)
        ensures
            cache.wf(),
            cache.memo() == Map::<Seq<usize>, Seq<MovementView>>::empty(),
            cache.entries@.len() == 0,
    {
        ScheduleCache { entries: Vec::new(), index: HashMap::new() }
    }

    /// The hash of `key`.
    pub fn hash(key: &Vec<usize>) -> (h: u64)
        ensures
            h == hash_of(key@),
            h < HASH_MODULUS,
    {
        let mut h: u64 = 0;
        let mut i: usize = 0;
        while i < key.len()
            invariant
                i <= key.len(),
                h == hash_upto(key@, i as int),
                h < HASH_MODULUS,
            decreases key.len() - i,
        {
            let wide: u128 = (h as u128) * 31 + (key[i] as u128);
            h = (wide % (HASH_MODULUS as u128)) as u64;
            i += 1;
        }
        h
    }

    /// Whether two keys are the same.
    pub fn same_key(a: &Vec<usize>, b: &Vec<usize>) -> (same: bool)
        ensures
            same == (a@ == b@),
    {
        if a.len() != b.len() {
            return false;
        }
        let mut i: usize = 0;
        while i < a.len()
            invariant
                i <= a.len(),
                a.len() == b.len(),
                forall|k: int| 0 <= k < i ==> a@[k] == b@[k],
            decreases a.len() - i,
        {
            if a[i] != b[i] {
                return false;
            }
            i += 1;
        }
        assert(a@ =~= b@);
        true
    }

    /// The schedule remembered for `key`, if there is one.
    pub fn get(&self, key: &Vec<usize>) -> (found: Option<&Vec<Movement>>)
        requires
            self.wf(),
        ensures
            match found {
                Some(movements) => self.memo().contains_key(key@) && self.memo()[key@]
                    == schedule_view(movements@),
                None => !self.memo().contains_key(key@),
            },
    {
        let h = Self::hash(key);
        let ghost entries = self.entries@;
        match self.index.get(&h) {
            None => {
                proof {
                    assert forall|i: int| 0 <= i < entries.len() implies (#[trigger] entries[i]).key@
                        != key@ by {
                        if entries[i].key@ == key@ {
                            assert(self.index@.contains_key(h));
                        }
                    }
                    lemma_memo_absent(entries, key@);
                }
                None
            },
            Some(bucket) => {
                assert(bucket_ok(entries, h as int, bucket@));
                let count = self.entries.len();
                let mut k: usize = bucket.len();
                while k > 0
                    invariant
                        k <= bucket@.len(),
                        entries == self.entries@,
                        entries.len() == count,
                        self.wf(),
                        h == hash_of(key@),
                        self.index@.contains_key(h),
                        self.index@[h] == *bucket,
                        bucket_ok(entries, h as int, bucket@),
                        forall|l: int|
                            k <= l < bucket@.len() ==> entries[(#[trigger] bucket@[l]) as int].key@
                                != key@,
                    decreases k,
                {
                    let at = bucket[k - 1];
                    if Self::same_key(&self.entries[at].key, key) {
                        proof {
                            assert forall|i: int| at < i < entries.len() implies (
                            #[trigger] entries[i]).key@ != key@ by {
                                if entries[i].key@ == key@ {
                                    assert(self.index@[h]@.contains(i as usize));
                                    let l = choose|l: int|
                                        0 <= l < bucket@.len() && bucket@[l] == i as usize;
                                    if l < k - 1 {
                                        assert(bucket@[l] < bucket@[k - 1]);
                                    }
                                }
                            }
                            lemma_memo_last(entries, key@, at as int);
                        }
                        return Some(&self.entries[at].movements);
                    }
                    k -= 1;
                }
                proof {
                    assert forall|i: int| 0 <= i < entries.len() implies (#[trigger] entries[i]).key@
                        != key@ by {
                        if entries[i].key@ == key@ {
                            assert(self.index@[h]@.contains(i as usize));
                            let l = choose|l: int| 0 <= l < bucket@.len() && bucket@[l] == i as usize;
                            assert(entries[bucket@[l] as int].key@ != key@);
                        }
                    }
                    lemma_memo_absent(entries, key@);
                }
                None
            },
        }
    }

    /// Remembers `movements` for `key`. What was remembered for `key`
    /// before is no longer found.
    pub fn insert(&mut self, key: Vec<usize>, movements: Vec<Movement>)
        requires
            old(self).wf(),
        ensures
            final(self).wf(),
            final(self).memo() == old(self).memo().insert(key@, schedule_view(movements@)),
            final(self).entries@.len() == old(self).entries@.len() + 1,
    {
        let h = Self::hash(&key);
        let at = self.entries.len();
        let ghost before = self.entries@;
        let ghost listed = self.index@;
        self.entries.push(CacheEntry { key, movements });
        assert(self.entries@.drop_last() =~= before);
        let mut bucket: Vec<usize> = match self.index.remove(&h) {
            Some(bucket) => bucket,
            None => Vec::new(),
        };
        let ghost was = bucket@;
        assert(listed.contains_key(h) ==> was == listed[h]@);
        assert(!listed.contains_key(h) ==> was.len() == 0);
        bucket.push(at);
        self.index.insert(h, bucket);
        proof {
            let entries = self.entries@;
            assert forall|g: u64| #[trigger] self.index@.contains_key(g) implies bucket_ok(
                entries,
                g as int,
                self.index@[g]@,
            ) by {
                if g == h {
                    if listed.contains_key(h) {
                        assert(bucket_ok(before, h as int, was));
                    }
                    let now = self.index@[g]@;
                    assert(now == was.push(at));
                    assert forall|k: int| 0 <= k < now.len() implies (#[trigger] now[k])
                        < entries.len() && hash_of(entries[now[k] as int].key@) == h as int by {
                        if k < was.len() {
                            assert(was[k] < before.len());
                            assert(entries[was[k] as int] == before[was[k] as int]);
                        }
                    }
                    assert forall|k: int, l: int| 0 <= k < l < now.len() implies now[k] < now[l] by {
                        assert(was[k] < before.len());
                    }
                } else {
                    assert(listed.contains_key(g));
                    assert(bucket_ok(before, g as int, listed[g]@));
                    let now = self.index@[g]@;
                    assert forall|k: int| 0 <= k < now.len() implies (#[trigger] now[k])
                        < entries.len() && hash_of(entries[now[k] as int].key@) == g as int by {
                        assert(entries[now[k] as int] == before[now[k] as int]);
                    }
                }
            }
            assert forall|i: int| 0 <= i < entries.len() implies ({
                let g = hash_of((#[trigger] entries[i]).key@) as u64;
                self.index@.contains_key(g) && self.index@[g]@.contains(i as usize)
            }) by {
                let g = hash_of(entries[i].key@) as u64;
                if i < before.len() {
                    assert(entries[i] == before[i]);
                    assert(listed.contains_key(g) && listed[g]@.contains(i as usize));
                    if g == h {
                        let l = choose|l: int| 0 <= l < was.len() && was[l] == i as usize;
                        assert(was.push(at)[l] == i as usize);
                    }
                } else {
                    assert(was.push(at)[was.len() as int] == at);
                }
            }
        }
    }
}

} // verus!
