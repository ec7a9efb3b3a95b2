//! A single shard: an isolated key-value map with string keys and values.
//!
//! A shard owns its entries exclusively and knows nothing of other shards or
//! of routing. It is modelled by a `Map<Seq<char>, Seq<char>>` from key
//! characters to value characters; re-inserting a key overwrites its value.

use vstd::prelude::*;

verus! {

/// The abstract map denoted by a sequence of entries: later entries win,
/// so the map agrees with `Map::insert` applied entry by entry.
pub closed spec fn entries_map(entries: Seq<(String, String)>) -> Map<Seq<char>, Seq<char>>
    decreases entries.len(),
{
    if entries.len() == 0 {
        Map::<Seq<char>, Seq<char>>::empty()
    } else {
        entries_map(entries.drop_last()).insert(entries.last().0@, entries.last().1@)
    }
}

/// Every key occurs at most once in the entry sequence.
pub open spec fn entry_keys_unique(entries: Seq<(String, String)>) -> bool {
    forall|i: int, j: int|
        0 <= i < j < entries.len() ==> (#[trigger] entries[i]).0@ != (#[trigger] entries[j]).0@
}

/// A key is in the map iff some entry carries it.
proof fn lemma_entries_map_contains(entries: Seq<(String, String)>, k: Seq<char>)
    ensures
        entries_map(entries).contains_key(k) <==> (exists|i: int|
            0 <= i < entries.len() && (#[trigger] entries[i]).0@ == k),
    decreases entries.len(),
{
    if entries.len() > 0 {
        lemma_entries_map_contains(entries.drop_last(), k);
        let prefix = entries.drop_last();
        if entries_map(entries).contains_key(k) {
            if k == entries.last().0@ {
                assert(entries[entries.len() - 1].0@ == k);
            } else {
                let i = choose|i: int| 0 <= i < prefix.len() && (#[trigger] prefix[i]).0@ == k;
                assert(entries[i].0@ == k);
            }
        }
        if exists|i: int| 0 <= i < entries.len() && (#[trigger] entries[i]).0@ == k {
            let i = choose|i: int| 0 <= i < entries.len() && (#[trigger] entries[i]).0@ == k;
            if i < entries.len() - 1 {
                assert(prefix[i].0@ == k);
            }
        }
    }
}

/// With unique keys, the map's value at an entry's key is that entry's value.
proof fn lemma_entries_map_value(entries: Seq<(String, String)>, i: int)
    requires
        entry_keys_unique(entries),
        0 <= i < entries.len(),
    ensures
        entries_map(entries).contains_key(entries[i].0@),
        entries_map(entries)[entries[i].0@] == entries[i].1@,
    decreases entries.len(),
{
    let prefix = entries.drop_last();
    if i == entries.len() - 1 {
    } else {
        assert(entry_keys_unique(prefix)) by {
            assert(forall|x: int, y: int|
                0 <= x < y < prefix.len() ==> (#[trigger] prefix[x]).0@ != (#[trigger] prefix[y]).0@)
                by {
                assert(forall|x: int| 0 <= x < prefix.len() ==> prefix[x] == entries[x]);
            }
        }
        lemma_entries_map_value(prefix, i);
        assert(entries[i].0@ != entries.last().0@);
    }
}

/// An isolated key-value partition: a map from string keys to string values,
/// held as a sequence of entries with pairwise distinct keys.
pub struct Shard {
    data: Vec<(String, String)>,
}

impl Shard {
    /// The abstract key-value map this shard holds.
    pub closed spec fn view(&self) -> Map<Seq<char>, Seq<char>> {
        entries_map(self.data@)
    }

    /// Well-formedness: no key occurs twice among the entries.
    pub closed spec fn wf(&self) -> bool {
        entry_keys_unique(self.data@)
    }

    /// Creates an empty shard.
    pub fn new() -> (shard: Shard)
        ensures
            shard.wf(),
            shard@ == Map::<Seq<char>, Seq<char>>::empty(),
    {
        Shard { data: Vec::new() }
    }

    /// The index of the entry carrying `key`, if any.
    fn find(&self, key: &String) -> (r: Option<usize>)
        ensures
            match r {
                Some(i) => i < self.data@.len() && self.data@[i as int].0@ == key@,
                None => forall|j: int|
                    0 <= j < self.data@.len() ==> (#[trigger] self.data@[j]).0@ != key@,
            },
    {
        let n = self.data.len();
        let mut i: usize = 0;
        while i < n
            invariant
                n == self.data@.len(),
                i <= n,
                forall|j: int| 0 <= j < i ==> (#[trigger] self.data@[j]).0@ != key@,
            decreases n - i,
        {
            if self.data[i].0 == *key {
                return Some(i);
            }
            i = i + 1;
        }
        None
    }

    /// Looks the key up; returns its current value, or absent. Read-only.
    pub fn get<'a>(&'a self, key: &String) -> (r: Option<&'a String>)
        requires
            self.wf(),
        ensures
            match r {
                Some(v) => self@.contains_key(key@) && v@ == self@[key@],
                None => !self@.contains_key(key@),
            },
    {
        proof {
            lemma_entries_map_contains(self.data@, key@);
        }
        match self.find(key) {
            Some(i) => {
                proof {
                    lemma_entries_map_value(self.data@, i as int);
                }
                Some(&self.data[i].1)
            },
            None => None,
        }
    }

    /// Inserts or overwrites: afterwards the shard maps `key` to `value`.
    pub fn insert(&mut self, key: String, value: String)
        requires
            old(self).wf(),
        ensures
            final(self).wf(),
            final(self)@ == old(self)@.insert(key@, value@),
    {
        let _ = self.update(key, value);
    }

    /// Upserts exactly like `insert`, and additionally returns the value that
    /// was previously associated with the key, or absent if the key was new.
    pub fn update(&mut self, key: String, value: String) -> (prev: Option<String>)
        requires
            old(self).wf(),
        ensures
            final(self).wf(),
            final(self)@ == old(self)@.insert(key@, value@),
            match prev {
                Some(v) => old(self)@.contains_key(key@) && v@ == old(self)@[key@],
                None => !old(self)@.contains_key(key@),
            },
    {
        proof {
            lemma_entries_map_contains(self.data@, key@);
        }
        match self.find(&key) {
            Some(i) => {
                proof {
                    lemma_entries_map_value(self.data@, i as int);
                }
                let prev = self.data[i].1.clone();
                self.data[i] = (key, value);
                proof {
                    lemma_update_at_key(old(self).data@, self.data@, i as int);
                }
                Some(prev)
            },
            None => {
                self.data.push((key, value));
                proof {
                    assert(self.data@.drop_last() =~= old(self).data@);
                }
                None
            },
        }
    }

    /// Removes the key if present and returns its last value, or absent.
    pub fn delete(&mut self, key: &String) -> (prev: Option<String>)
        requires
            old(self).wf(),
        ensures
            final(self).wf(),
            final(self)@ == old(self)@.remove(key@),
            match prev {
                Some(v) => old(self)@.contains_key(key@) && v@ == old(self)@[key@],
                None => !old(self)@.contains_key(key@) && *final(self) == *old(self),
            },
    {
        proof {
            lemma_entries_map_contains(self.data@, key@);
        }
        match self.find(key) {
            Some(i) => {
                proof {
                    lemma_entries_map_value(self.data@, i as int);
                }
                let (_, v) = self.data.remove(i);
                proof {
                    lemma_remove_at_key(old(self).data@, self.data@, i as int);
                }
                Some(v)
            },
            None => {
                proof {
                    assert(self@ =~= self@.remove(key@));
                }
                None
            },
        }
    }
}

/// Replacing the entry at `key`'s index rewrites the map at `key` alone.
proof fn lemma_update_at_key(pre: Seq<(String, String)>, post: Seq<(String, String)>, i: int)
    requires
        entry_keys_unique(pre),
        0 <= i < pre.len(),
        post.len() == pre.len(),
        post[i].0@ == pre[i].0@,
        forall|j: int| 0 <= j < pre.len() && j != i ==> post[j] == pre[j],
    ensures
        entry_keys_unique(post),
        entries_map(post) == entries_map(pre).insert(post[i].0@, post[i].1@),
{
    assert(entry_keys_unique(post)) by {
        assert(forall|x: int, y: int|
            0 <= x < y < post.len() ==> (#[trigger] post[x]).0@ != (#[trigger] post[y]).0@) by {
            assert(forall|x: int| 0 <= x < post.len() ==> (#[trigger] post[x]).0@ == pre[x].0@);
        }
    }
    let lhs = entries_map(post);
    let rhs = entries_map(pre).insert(post[i].0@, post[i].1@);
    assert(lhs =~= rhs) by {
        assert forall|k: Seq<char>| lhs.contains_key(k) <==> rhs.contains_key(k) by {
            lemma_entries_map_contains(post, k);
            lemma_entries_map_contains(pre, k);
            if k == post[i].0@ {
                assert(pre[i].0@ == k);
            } else {
                if exists|x: int| 0 <= x < post.len() && (#[trigger] post[x]).0@ == k {
                    let x = choose|x: int| 0 <= x < post.len() && (#[trigger] post[x]).0@ == k;
                    assert(pre[x].0@ == k);
                }
                if exists|x: int| 0 <= x < pre.len() && (#[trigger] pre[x]).0@ == k {
                    let x = choose|x: int| 0 <= x < pre.len() && (#[trigger] pre[x]).0@ == k;
                    assert(post[x].0@ == k);
                }
            }
        }
        assert forall|k: Seq<char>| lhs.contains_key(k) && rhs.contains_key(k) implies lhs[k]
            == rhs[k] by {
            if k == post[i].0@ {
                lemma_entries_map_value(post, i);
            } else {
                lemma_entries_map_contains(post, k);
                let x = choose|x: int| 0 <= x < post.len() && (#[trigger] post[x]).0@ == k;
                lemma_entries_map_value(post, x);
                lemma_entries_map_value(pre, x);
            }
        }
    }
}

/// Removing the entry at `key`'s index removes `key` from the map and
/// leaves every other key untouched.
proof fn lemma_remove_at_key(pre: Seq<(String, String)>, post: Seq<(String, String)>, i: int)
    requires
        entry_keys_unique(pre),
        0 <= i < pre.len(),
        post == pre.remove(i),
    ensures
        entry_keys_unique(post),
        entries_map(post) == entries_map(pre).remove(pre[i].0@),
{
    assert(forall|x: int| 0 <= x < i ==> #[trigger] post[x] == pre[x]);
    assert(forall|x: int| i <= x < post.len() ==> #[trigger] post[x] == pre[x + 1]);
    assert(entry_keys_unique(post)) by {
        assert forall|x: int, y: int|
            0 <= x < y < post.len() implies (#[trigger] post[x]).0@ != (#[trigger] post[y]).0@ by {
            let px: int = if x < i { x } else { x + 1 };
            let py: int = if y < i { y } else { y + 1 };
            assert(post[x] == pre[px]);
            assert(post[y] == pre[py]);
        }
    }
    let lhs = entries_map(post);
    let rhs = entries_map(pre).remove(pre[i].0@);
    assert(lhs =~= rhs) by {
        assert forall|k: Seq<char>| lhs.contains_key(k) <==> rhs.contains_key(k) by {
            lemma_entries_map_contains(post, k);
            lemma_entries_map_contains(pre, k);
            if k == pre[i].0@ {
                if exists|x: int| 0 <= x < post.len() && (#[trigger] post[x]).0@ == k {
                    let x = choose|x: int| 0 <= x < post.len() && (#[trigger] post[x]).0@ == k;
                    let px: int = if x < i { x } else { x + 1 };
                    assert(pre[px].0@ == k);
                    assert(px != i ==> pre[px].0@ != pre[i].0@);
                }
            } else {
                if exists|x: int| 0 <= x < post.len() && (#[trigger] post[x]).0@ == k {
                    let x = choose|x: int| 0 <= x < post.len() && (#[trigger] post[x]).0@ == k;
                    let px: int = if x < i { x } else { x + 1 };
                    assert(pre[px].0@ == k);
                }
                if exists|x: int| 0 <= x < pre.len() && (#[trigger] pre[x]).0@ == k {
                    let x = choose|x: int| 0 <= x < pre.len() && (#[trigger] pre[x]).0@ == k;
                    let qx: int = if x < i { x } else { x - 1 };
                    assert(post[qx].0@ == k);
                }
            }
        }
        assert forall|k: Seq<char>| lhs.contains_key(k) && rhs.contains_key(k) implies lhs[k]
            == rhs[k] by {
            lemma_entries_map_contains(post, k);
            let x = choose|x: int| 0 <= x < post.len() && (#[trigger] post[x]).0@ == k;
            let px: int = if x < i { x } else { x + 1 };
            lemma_entries_map_value(post, x);
            lemma_entries_map_value(pre, px);
        }
    }
}

} // verus!
