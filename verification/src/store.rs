//! The router/store: owns a fixed-size ordered sequence of shards and
//! dispatches every operation to the one shard that owns the key.
//!
//! The store is a pure dispatcher: each operation computes the target shard
//! index from the key alone, forwards to that shard's identically named
//! operation, and returns its result unchanged. The shard count is fixed at
//! construction and never changes. The store's well-formedness invariant says
//! that every key held by shard `i` routes to `i`, so the store's key set is
//! the disjoint union of its shards' key sets.

use vstd::prelude::*;
use crate::routing::{shard_index_of, lemma_shard_index_in_range, hash_key};
use crate::shard::Shard;

verus! {

/// The one construction-time failure: a shard count of zero is rejected as a
/// fatal configuration error before the store becomes usable.
#[derive(Clone, Copy, Debug, PartialEq, Eq, Structural)]
pub enum ConfigError {
    ZeroShardCount,
}

/// A horizontally partitioned key-value store: a fixed number of shards,
/// each holding the disjoint subset of keys that routes to it.
pub struct ShardedDatabase {
    shards: Vec<Shard>,
}

impl ShardedDatabase {
    /// The fixed number of shards, configured at construction.
    pub closed spec fn spec_shard_count(&self) -> int {
        self.shards@.len() as int
    }

    /// The abstract map held by the shard at index `i`.
    pub closed spec fn shard_map(&self, i: int) -> Map<Seq<char>, Seq<char>> {
        self.shards@[i]@
    }

    /// The store's abstract key-value map: a key is present exactly when the
    /// shard it routes to holds it, with that shard's value.
    pub closed spec fn view(&self) -> Map<Seq<char>, Seq<char>> {
        Map::new(
            (|k: Seq<char>| self.shards@[shard_index_of(k, self.shards@.len() as int)]@.contains_key(k)),
            (|k: Seq<char>| self.shards@[shard_index_of(k, self.shards@.len() as int)]@[k]),
        )
    }

    /// The store's answer for a key: its value, or absent.
    pub open spec fn spec_get(&self, k: Seq<char>) -> Option<Seq<char>> {
        self@.index_opt(k)
    }

    /// Well-formedness: at least one shard, every shard well-formed, and
    /// every key held by shard `i` routes to `i` (shard ownership).
    pub closed spec fn wf(&self) -> bool {
        &&& self.spec_shard_count() >= 1
        &&& (forall|i: int| 0 <= i < self.shards@.len() ==> (#[trigger] self.shards@[i]).wf())
        &&& (forall|i: int, k: Seq<char>|
            0 <= i < self.shards@.len() && (#[trigger] self.shards@[i]@.contains_key(k))
                ==> shard_index_of(k, self.shards@.len() as int) == i)
    }

    /// Creates a store with `shard_count` empty shards; a shard count of
    /// zero is rejected as a configuration error, and nothing else fails.
    pub fn new(shard_count: usize) -> (r: Result<ShardedDatabase, ConfigError>)
        ensures
            match r {
                Ok(db) => {
                    &&& shard_count >= 1
                    &&& db.wf()
                    &&& db.spec_shard_count() == shard_count as int
                    &&& db@ == Map::<Seq<char>, Seq<char>>::empty()
                },
                Err(e) => shard_count == 0 && e == ConfigError::ZeroShardCount,
            },
    {
        if shard_count == 0 {
            return Err(ConfigError::ZeroShardCount);
        }
        let mut shards: Vec<Shard> = Vec::new();
        let mut i: usize = 0;
        while i < shard_count
            invariant
                i <= shard_count,
                shards@.len() == i,
                forall|j: int| 0 <= j < i ==> (#[trigger] shards@[j]).wf(),
                forall|j: int|
                    0 <= j < i ==> (#[trigger] shards@[j])@ == Map::<Seq<char>, Seq<char>>::empty(),
            decreases shard_count - i,
        {
            shards.push(Shard::new());
            i = i + 1;
        }
        let db = ShardedDatabase { shards };
        proof {
            assert forall|k: Seq<char>| !(#[trigger] db@.contains_key(k)) by {
                lemma_shard_index_in_range(k, shard_count as int);
            }
            assert(db@ =~= Map::<Seq<char>, Seq<char>>::empty());
        }
        Ok(db)
    }

    /// Routes a key: hashes its characters and reduces modulo the shard
    /// count. A pure, deterministic function of the key alone.
    pub fn determine_shard(&self, key: &String) -> (idx: usize)
        requires
            self.wf(),
        ensures
            idx as int == shard_index_of(key@, self.spec_shard_count()),
            (idx as int) < self.spec_shard_count(),
    {
        let h = hash_key(key.as_str());
        let n = self.shards.len();
        let idx = (h % (n as u64)) as usize;
        proof {
            lemma_shard_index_in_range(key@, n as int);
        }
        idx
    }

    /// Inserts or overwrites: afterwards the store maps `key` to `value`.
    /// Only the shard owning `key` changes; every other shard is untouched.
    pub fn insert(&mut self, key: String, value: String)
        requires
            old(self).wf(),
        ensures
            final(self).wf(),
            final(self).spec_shard_count() == old(self).spec_shard_count(),
            final(self)@ == old(self)@.insert(key@, value@),
            final(self).shard_map(shard_index_of(key@, old(self).spec_shard_count()))
                == old(self).shard_map(shard_index_of(key@, old(self).spec_shard_count())).insert(
                key@,
                value@,
            ),
            forall|i: int|
                0 <= i < old(self).spec_shard_count() && i != shard_index_of(
                    key@,
                    old(self).spec_shard_count(),
                ) ==> final(self).shard_map(i) == old(self).shard_map(i),
    {
        let ghost pre = *self;
        let idx = self.determine_shard(&key);
        let ghost k = key@;
        let ghost v = value@;
        self.shards[idx].insert(key, value);
        proof {
            lemma_store_write(pre, *self, idx as int, k, Some(v));
        }
    }

    /// Looks the key up in the shard that owns it; returns its current
    /// value, or absent. Read-only.
    pub fn get<'a>(&'a self, key: &String) -> (r: Option<&'a String>)
        requires
            self.wf(),
        ensures
            match r {
                Some(v) => self@.contains_key(key@) && v@ == self@[key@],
                None => !self@.contains_key(key@),
            },
    {
        let idx = self.determine_shard(key);
        let r = self.shards[idx].get(key);
        proof {
            assert(self@.contains_key(key@) == self.shards@[idx as int]@.contains_key(key@));
        }
        r
    }

    /// Upserts exactly like `insert`, and additionally returns the value
    /// that was previously associated with the key, or absent if the key
    /// was new. Only the shard owning `key` changes.
    pub fn update(&mut self, key: String, value: String) -> (prev: Option<String>)
        requires
            old(self).wf(),
        ensures
            final(self).wf(),
            final(self).spec_shard_count() == old(self).spec_shard_count(),
            final(self)@ == old(self)@.insert(key@, value@),
            match prev {
                Some(v) => old(self)@.contains_key(key@) && v@ == old(self)@[key@],
                None => !old(self)@.contains_key(key@),
            },
            forall|i: int|
                0 <= i < old(self).spec_shard_count() && i != shard_index_of(
                    key@,
                    old(self).spec_shard_count(),
                ) ==> final(self).shard_map(i) == old(self).shard_map(i),
    {
        let ghost pre = *self;
        let idx = self.determine_shard(&key);
        let ghost k = key@;
        let ghost v = value@;
        let prev = self.shards[idx].update(key, value);
        proof {
            assert(pre@.contains_key(k) == pre.shards@[idx as int]@.contains_key(k));
            lemma_store_write(pre, *self, idx as int, k, Some(v));
        }
        prev
    }

    /// Removes the key from the shard that owns it and returns its last
    /// value, or absent if the key did not exist. Only the shard owning
    /// `key` changes; deleting an absent key changes nothing.
    pub fn delete(&mut self, key: &String) -> (prev: Option<String>)
        requires
            old(self).wf(),
        ensures
            final(self).wf(),
            final(self).spec_shard_count() == old(self).spec_shard_count(),
            final(self)@ == old(self)@.remove(key@),
            match prev {
                Some(v) => old(self)@.contains_key(key@) && v@ == old(self)@[key@],
                None => !old(self)@.contains_key(key@) && final(self)@ == old(self)@,
            },
            forall|i: int|
                0 <= i < old(self).spec_shard_count() && i != shard_index_of(
                    key@,
                    old(self).spec_shard_count(),
                ) ==> final(self).shard_map(i) == old(self).shard_map(i),
    {
        let ghost pre = *self;
        let idx = self.determine_shard(key);
        let ghost k = key@;
        let prev = self.shards[idx].delete(key);
        proof {
            assert(pre@.contains_key(k) == pre.shards@[idx as int]@.contains_key(k));
            lemma_store_write(pre, *self, idx as int, k, None);
            if !pre@.contains_key(k) {
                assert(pre@.remove(k) =~= pre@);
            }
        }
        prev
    }
}

/// After one shard-local write at the key's owning index — an upsert of
/// `value` or, for absent `value`, a removal — the store's map changes at
/// that key alone, well-formedness is preserved, and every other shard is
/// untouched.
proof fn lemma_store_write(
    pre: ShardedDatabase,
    post: ShardedDatabase,
    idx: int,
    k: Seq<char>,
    value: Option<Seq<char>>,
)
    requires
        pre.wf(),
        idx == shard_index_of(k, pre.spec_shard_count()),
        post.shards@.len() == pre.shards@.len(),
        forall|i: int| 0 <= i < pre.shards@.len() && i != idx ==> post.shards@[i] == pre.shards@[i],
        post.shards@[idx].wf(),
        post.shards@[idx]@ == (match value {
            Some(v) => pre.shards@[idx]@.insert(k, v),
            None => pre.shards@[idx]@.remove(k),
        }),
    ensures
        post.wf(),
        post@ == (match value {
            Some(v) => pre@.insert(k, v),
            None => pre@.remove(k),
        }),
        forall|i: int| 0 <= i < pre.spec_shard_count() && i != idx ==> post.shard_map(i)
            == pre.shard_map(i),
{
    let n = pre.spec_shard_count();
    lemma_shard_index_in_range(k, n);
    assert forall|i: int, k2: Seq<char>|
        0 <= i < post.shards@.len() && (#[trigger] post.shards@[i]@.contains_key(k2)) implies
        shard_index_of(k2, post.shards@.len() as int) == i by {
        if i == idx {
            if k2 != k {
                assert(pre.shards@[idx]@.contains_key(k2));
            }
        }
    }
    let target = (match value {
        Some(v) => pre@.insert(k, v),
        None => pre@.remove(k),
    });
    assert forall|k2: Seq<char>| post@.contains_key(k2) == target.contains_key(k2) && (
    post@.contains_key(k2) ==> post@[k2] == target[k2]) by {
        lemma_shard_index_in_range(k2, n);
        let j = shard_index_of(k2, n);
        if k2 != k {
            assert(post.shards@[j]@.contains_key(k2) == pre.shards@[j]@.contains_key(k2));
        }
    }
    assert(post@ =~= target);
}

/// Partition disjointness: when two keys route to different shard indices,
/// inserting the first never affects the shard owning the second, and the
/// second key's lookup answer is unchanged.
pub proof fn lemma_partition_disjointness(
    pre: ShardedDatabase,
    post: ShardedDatabase,
    k1: Seq<char>,
    v1: Seq<char>,
    k2: Seq<char>,
)
    requires
        pre.wf(),
        post.spec_shard_count() == pre.spec_shard_count(),
        shard_index_of(k2, pre.spec_shard_count()) != shard_index_of(k1, pre.spec_shard_count()),
        post@ == pre@.insert(k1, v1),
        forall|i: int|
            0 <= i < pre.spec_shard_count() && i != shard_index_of(k1, pre.spec_shard_count())
                ==> post.shard_map(i) == pre.shard_map(i),
    ensures
        post.shard_map(shard_index_of(k2, pre.spec_shard_count())) == pre.shard_map(
            shard_index_of(k2, pre.spec_shard_count()),
        ),
        post.spec_get(k2) == pre.spec_get(k2),
{
    lemma_shard_index_in_range(k2, pre.spec_shard_count());
}

/// Round trip: after an insert of `(k, v)`, looking `k` up answers `v`.
pub proof fn lemma_insert_then_get(
    pre: ShardedDatabase,
    post: ShardedDatabase,
    k: Seq<char>,
    v: Seq<char>,
)
    requires
        post@ == pre@.insert(k, v),
    ensures
        post.spec_get(k) == Some(v),
{
}

/// Overwrite semantics: after `insert(k, v1)`, an `update(k, v2)` sees and
/// returns `v1` as the previous value, and a subsequent `get(k)` answers
/// `v2`.
pub proof fn lemma_overwrite_semantics(
    s0: ShardedDatabase,
    s1: ShardedDatabase,
    s2: ShardedDatabase,
    k: Seq<char>,
    v1: Seq<char>,
    v2: Seq<char>,
)
    requires
        s1@ == s0@.insert(k, v1),
        s2@ == s1@.insert(k, v2),
    ensures
        s1.spec_get(k) == Some(v1),
        s2.spec_get(k) == Some(v2),
{
}

/// Delete removes: after a delete of `k`, looking `k` up answers absent,
/// and a second delete of `k` also answers absent and changes nothing.
pub proof fn lemma_delete_removes(
    s0: ShardedDatabase,
    s1: ShardedDatabase,
    s2: ShardedDatabase,
    k: Seq<char>,
)
    requires
        s1@ == s0@.remove(k),
        s2@ == s1@.remove(k),
    ensures
        s1.spec_get(k) == None::<Seq<char>>,
        s2.spec_get(k) == None::<Seq<char>>,
        s2@ == s1@,
{
    assert(s2@ =~= s1@);
}

/// Absent on fresh key: a key the store does not hold answers absent.
pub proof fn lemma_absent_on_fresh_key(db: ShardedDatabase, k: Seq<char>)
    requires
        !db@.contains_key(k),
    ensures
        db.spec_get(k) == None::<Seq<char>>,
{
}

/// Updating a fresh key reports absent as the previous value while still
/// performing the insert: afterwards the key answers the new value.
pub proof fn lemma_update_on_fresh_key_inserts(
    pre: ShardedDatabase,
    post: ShardedDatabase,
    k: Seq<char>,
    v: Seq<char>,
)
    requires
        !pre@.contains_key(k),
        post@ == pre@.insert(k, v),
    ensures
        pre.spec_get(k) == None::<Seq<char>>,
        post.spec_get(k) == Some(v),
{
}

/// The cross-cutting invariant: a key exists in the store iff it exists in
/// exactly the one shard selected by the routing function for that key; no
/// other shard holds it.
pub proof fn lemma_key_in_exactly_owning_shard(db: ShardedDatabase, k: Seq<char>)
    requires
        db.wf(),
    ensures
        db@.contains_key(k) <==> db.shard_map(shard_index_of(k, db.spec_shard_count()))
            .contains_key(k),
        forall|i: int|
            0 <= i < db.spec_shard_count() && i != shard_index_of(k, db.spec_shard_count())
                ==> !(#[trigger] db.shard_map(i)).contains_key(k),
{
    lemma_shard_index_in_range(k, db.spec_shard_count());
}

} // verus!
