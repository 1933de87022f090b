//! In-memory index of the content-addressed result cache: a key/value map
//! with exact lookup semantics. Loading the index from disk and writing it
//! back are the embedding program's concern; the map logic lives here.

use vstd::prelude::*;

verus! {

/// Metadata of one cached task run.
pub struct CacheEntry {
    /// Full fingerprint the entry was stored under.
    pub hash: String,
    /// Seconds since the epoch when the entry was stored.
    pub timestamp: u64,
    /// How long the captured run took, in milliseconds.
    pub duration_ms: u64,
    /// Exit code of the captured run.
    pub exit_code: i32,
    /// Captured output lines.
    pub outputs: Vec<String>,
}

impl CacheEntry {
    /// An identical copy of the entry, field by field.
    pub fn duplicate(&self) -> (r: CacheEntry)
        ensures
            r.hash@ == self.hash@,
            r.timestamp == self.timestamp,
            r.duration_ms == self.duration_ms,
            r.exit_code == self.exit_code,
            r.outputs@.len() == self.outputs@.len(),
            forall|i: int| 0 <= i < self.outputs@.len() ==> (#[trigger] r.outputs@[i])@
                == self.outputs@[i]@,
    {
        let mut outputs: Vec<String> = Vec::new();
        let mut i: usize = 0;
        while i < self.outputs.len()
            invariant
                i <= self.outputs@.len(),
                outputs@.len() == i,
                forall|j: int| 0 <= j < i ==> (#[trigger] outputs@[j])@ == self.outputs@[j]@,
            decreases self.outputs@.len() - i,
        {
            outputs.push(self.outputs[i].clone());
            i = i + 1;
        }
        CacheEntry {
            hash: self.hash.clone(),
            timestamp: self.timestamp,
            duration_ms: self.duration_ms,
            exit_code: self.exit_code,
            outputs,
        }
    }
}

/// The first entry stored under the given key, if any.
pub open spec fn seq_lookup(s: Seq<(String, CacheEntry)>, k: Seq<char>) -> Option<CacheEntry>
    decreases s.len(),
{
    if s.len() == 0 {
        None
    } else if s[0].0@ == k {
        Some(s[0].1)
    } else {
        seq_lookup(s.drop_first(), k)
    }
}

/// Looking a key up after storing a different one is unchanged.
proof fn lemma_lookup_insert_front(
    s: Seq<(String, CacheEntry)>,
    kv: (String, CacheEntry),
    k: Seq<char>,
)
    ensures
        kv.0@ == k ==> seq_lookup(s.insert(0, kv), k) == Some(kv.1),
        kv.0@ != k ==> seq_lookup(s.insert(0, kv), k) == seq_lookup(s, k),
{
    let s2 = s.insert(0, kv);
    assert(s2[0] == kv);
    assert(s2.drop_first() =~= s);
}

/// Removing an entry stored under a different key leaves a lookup unchanged.
proof fn lemma_lookup_remove_other(s: Seq<(String, CacheEntry)>, i: int, k: Seq<char>)
    requires
        0 <= i < s.len(),
        s[i].0@ != k,
    ensures
        seq_lookup(s.remove(i), k) == seq_lookup(s, k),
    decreases s.len(),
{
    if i == 0 {
        assert(s.remove(0) =~= s.drop_first());
    } else {
        assert(s.remove(i).drop_first() =~= s.drop_first().remove(i - 1));
        assert(s.remove(i)[0] == s[0]);
        lemma_lookup_remove_other(s.drop_first(), i - 1, k);
    }
}

/// The content-addressed cache index: keys are cache keys, values the stored
/// run metadata. Keys are unique.
pub struct Cache {
    entries: Vec<(String, CacheEntry)>,
    cache_dir: String,
}

/// A summary of the cache: how many entries it holds and where it lives.
pub struct CacheStats {
    pub entries: usize,
    pub cache_dir: String,
}

impl Cache {
    /// Keys are pairwise distinct.
    pub closed spec fn wf(self) -> bool {
        forall|i: int, j: int|
            0 <= i < j < self.entries@.len() ==> (#[trigger] self.entries@[i].0@) != (
            #[trigger] self.entries@[j].0@)
    }

    /// The entry stored under `k`, if any.
    pub closed spec fn spec_get(self, k: Seq<char>) -> Option<CacheEntry> {
        seq_lookup(self.entries@, k)
    }

    /// Number of stored entries.
    pub closed spec fn spec_len(self) -> nat {
        self.entries@.len()
    }

    /// The directory the cache reports in its stats.
    pub closed spec fn spec_dir(self) -> Seq<char> {
        self.cache_dir@
    }

    /// An empty cache index that reports the given directory in its stats.
    pub fn empty(cache_dir: String) -> (r: Cache)
        ensures
            r.wf(),
            r.spec_len() == 0,
            forall|k: Seq<char>| r.spec_get(k) is None,
            r.spec_dir() == cache_dir@,
    {
        Cache { entries: Vec::new(), cache_dir }
    }

    /// Index of the entry stored under the key, if any.
    fn find(&self, key: &String) -> (r: Option<usize>)
        ensures
            match r {
                Some(i) => i < self.entries@.len() && self.entries@[i as int].0@ == key@,
                None => forall|i: int|
                    0 <= i < self.entries@.len() ==> (#[trigger] self.entries@[i].0@) != key@,
            },
    {
        let mut i: usize = 0;
        while i < self.entries.len()
            invariant
                i <= self.entries@.len(),
                forall|j: int| 0 <= j < i ==> (#[trigger] self.entries@[j].0@) != key@,
            decreases self.entries@.len() - i,
        {
            if self.entries[i].0 == *key {
                return Some(i);
            }
            i = i + 1;
        }
        None
    }

    /// Whether an entry is stored under the key.
    pub fn has(&self, hash: &String) -> (r: bool)
        requires
            self.wf(),
        ensures
            r == (self.spec_get(hash@) is Some),
    {
        proof {
            self.lemma_find_lookup(hash@);
        }
        match self.find(hash) {
            Some(_) => true,
            None => false,
        }
    }

    /// A find hit means a lookup hit on the same key.
    proof fn lemma_find_lookup(self, k: Seq<char>)
        ensures
            (exists|i: int| 0 <= i < self.entries@.len() && (#[trigger] self.entries@[i].0@) == k)
                <==> (seq_lookup(self.entries@, k) is Some),
            forall|i: int|
                0 <= i < self.entries@.len() && (#[trigger] self.entries@[i].0@) == k
                    && self.wf() ==> seq_lookup(self.entries@, k) == Some(self.entries@[i].1),
    {
        Self::lemma_seq_lookup_index(self.entries@, k);
    }

    /// Relation between positional search and the recursive lookup.
    proof fn lemma_seq_lookup_index(s: Seq<(String, CacheEntry)>, k: Seq<char>)
        ensures
            (exists|i: int| 0 <= i < s.len() && (#[trigger] s[i].0@) == k) <==> (seq_lookup(s, k)
                is Some),
            forall|i: int|
                0 <= i < s.len() && (#[trigger] s[i].0@) == k && (forall|p: int, q: int|
                    0 <= p < q < s.len() ==> (#[trigger] s[p].0@) != (#[trigger] s[q].0@))
                    ==> seq_lookup(s, k) == Some(s[i].1),
        decreases s.len(),
    {
        if s.len() > 0 {
            Self::lemma_seq_lookup_index(s.drop_first(), k);
            if s[0].0@ != k {
                assert forall|i: int| 0 <= i < s.len() && (#[trigger] s[i].0@) == k implies i
                    >= 1 by {}
                assert(forall|i: int|
                    1 <= i < s.len() ==> (#[trigger] s[i].0@) == s.drop_first()[i - 1].0@);
            }
        }
    }

    /// The entry stored under the key, if any.
    pub fn get(&self, hash: &String) -> (r: Option<&CacheEntry>)
        requires
            self.wf(),
        ensures
            match r {
                Some(e) => self.spec_get(hash@) == Some(*e),
                None => self.spec_get(hash@) is None,
            },
    {
        proof {
            self.lemma_find_lookup(hash@);
        }
        match self.find(hash) {
            Some(i) => Some(&self.entries[i].1),
            None => None,
        }
    }

    /// Store an entry under a key, replacing what the key held before. After
    /// the call a `get` of this key returns exactly this entry, and every
    /// other key is untouched: the cache round-trips.
    pub fn put(&mut self, hash: String, entry: CacheEntry) -> (r: Result<(), ()>)
        requires
            old(self).wf(),
        ensures
            final(self).wf(),
            r is Ok,
            final(self).spec_get(hash@) == Some(entry),
            forall|k: Seq<char>| k != hash@ ==> final(self).spec_get(k) == old(self).spec_get(k),
            final(self).spec_dir() == old(self).spec_dir(),
    {
        proof {
            self.lemma_find_lookup(hash@);
        }
        let found = self.find(&hash);
        match found {
            Some(i) => {
                let ghost pre = self.entries@;
                let _ = self.entries.remove(i);
                proof {
                    assert forall|p: int, q: int|
                        0 <= p < q < self.entries@.len() implies (#[trigger] self.entries@[p].0@)
                        != (#[trigger] self.entries@[q].0@) by {
                        let r0 = pre.remove(i as int);
                        if q < i {
                            assert(r0[p] == pre[p] && r0[q] == pre[q]);
                        } else if p < i {
                            assert(r0[p] == pre[p] && r0[q] == pre[q + 1]);
                        } else {
                            assert(r0[p] == pre[p + 1] && r0[q] == pre[q + 1]);
                        }
                    }
                    assert forall|i2: int|
                        0 <= i2 < self.entries@.len() implies (#[trigger] self.entries@[i2].0@)
                        != hash@ by {
                        let r0 = pre.remove(i as int);
                        if i2 < i {
                            assert(r0[i2] == pre[i2]);
                        } else {
                            assert(r0[i2] == pre[i2 + 1]);
                        }
                    }
                    assert forall|k: Seq<char>| k != hash@ implies seq_lookup(self.entries@, k)
                        == seq_lookup(pre, k) by {
                        lemma_lookup_remove_other(pre, i as int, k);
                    }
                }
                self.insert_front(hash, entry);
                Ok(())
            },
            None => {
                self.insert_front(hash, entry);
                Ok(())
            },
        }
    }

    /// Prepend an entry whose key is not yet present.
    fn insert_front(&mut self, hash: String, entry: CacheEntry)
        requires
            old(self).wf(),
            forall|i: int|
                0 <= i < old(self).entries@.len() ==> (#[trigger] old(self).entries@[i].0@)
                    != hash@,
        ensures
            final(self).wf(),
            final(self).spec_get(hash@) == Some(entry),
            forall|k: Seq<char>| k != hash@ ==> final(self).spec_get(k) == old(self).spec_get(k),
            final(self).spec_dir() == old(self).spec_dir(),
    {
        let ghost pre = self.entries@;
        let ghost kv = (hash, entry);
        self.entries.insert(0, (hash, entry));
        proof {
            assert(self.entries@ == pre.insert(0, kv));
            lemma_lookup_insert_front(pre, kv, kv.0@);
            assert forall|k: Seq<char>| k != kv.0@ implies seq_lookup(self.entries@, k)
                == seq_lookup(pre, k) by {
                lemma_lookup_insert_front(pre, kv, k);
            }
            assert forall|p: int, q: int|
                0 <= p < q < self.entries@.len() implies (#[trigger] self.entries@[p].0@) != (
            #[trigger] self.entries@[q].0@) by {
                if p == 0 {
                    assert(self.entries@[q] == pre[q - 1]);
                } else {
                    assert(self.entries@[p] == pre[p - 1] && self.entries@[q] == pre[q - 1]);
                }
            }
        }
    }

    /// The stored key/entry pairs, newest first.
    pub closed spec fn spec_entries(self) -> Seq<(String, CacheEntry)> {
        self.entries@
    }

    /// All stored entries, for persisting the index.
    pub fn entries(&self) -> (r: &Vec<(String, CacheEntry)>)
        ensures
            r@ == self.spec_entries(),
    {
        &self.entries
    }

    /// How many entries the cache holds and where it lives on disk.
    pub fn stats(&self) -> (r: CacheStats)
        ensures
            r.entries == self.spec_len(),
            r.cache_dir@ == self.spec_dir(),
    {
        CacheStats { entries: self.entries.len(), cache_dir: self.cache_dir.clone() }
    }

    /// Drop every entry.
    pub fn clear(&mut self) -> (r: Result<(), ()>)
        ensures
            final(self).wf(),
            r is Ok,
            final(self).spec_len() == 0,
            forall|k: Seq<char>| final(self).spec_get(k) is None,
            final(self).spec_dir() == old(self).spec_dir(),
    {
        self.entries.clear();
        Ok(())
    }
}

} // verus!
