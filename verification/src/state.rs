//! The daemon's live hash index: an in-memory map from file path to content
//! digest, mirrored into a persistent store for crash recovery. File reading
//! and hashing happen outside; the index logic and its persistence contract
//! live here.

use vstd::prelude::*;
use crate::store::{utf8_string, KvStore, StoreError};
use crate::symbol_graph::{assoc, lemma_assoc_at, lemma_assoc_none};

verus! {

/// A summary of the daemon state.
#[derive(Debug)]
pub struct DaemonStats {
    pub cached_files: usize,
    pub db_size: u64,
}

/// The persistent map a list of path/digest pairs denotes, both sides UTF-8
/// encoded.
pub open spec fn map_of(s: Seq<(String, String)>) -> Map<Seq<u8>, Seq<u8>>
    decreases s,
{
    if s.len() == 0 {
        Map::empty()
    } else {
        map_of(s.drop_last()).insert(
            vstd::utf8::encode_utf8(s.last().0@),
            vstd::utf8::encode_utf8(s.last().1@),
        )
    }
}

/// The paths in `index` whose digest is absent from `old_map` or differs
/// from it.
pub open spec fn changed_paths(
    index: Seq<(String, String)>,
    old_map: Seq<(String, String)>,
) -> Seq<Seq<char>>
    decreases index,
{
    if index.len() == 0 {
        Seq::empty()
    } else {
        (match assoc(old_map, index[0].0@) {
            Some(h) => if h@ == index[0].1@ {
                Seq::empty()
            } else {
                seq![index[0].0@]
            },
            None => seq![index[0].0@],
        }) + changed_paths(index.drop_first(), old_map)
    }
}

/// Appending an entry extends the changed list at the end.
proof fn lemma_changed_paths_push(
    index: Seq<(String, String)>,
    x: (String, String),
    old_map: Seq<(String, String)>,
)
    ensures
        changed_paths(index.push(x), old_map) == changed_paths(index, old_map) + (match assoc(
            old_map,
            x.0@,
        ) {
            Some(h) => if h@ == x.1@ {
                Seq::<Seq<char>>::empty()
            } else {
                seq![x.0@]
            },
            None => seq![x.0@],
        }),
    decreases index.len(),
{
    if index.len() == 0 {
        assert(index.push(x)[0] == x);
        assert(index.push(x).drop_first() =~= Seq::<(String, String)>::empty());
        assert(index.push(x).len() == 1);
        assert(changed_paths(index.push(x), old_map) == (match assoc(
            old_map,
            index.push(x)[0].0@,
        ) {
            Some(h) => if h@ == index.push(x)[0].1@ {
                Seq::<Seq<char>>::empty()
            } else {
                seq![index.push(x)[0].0@]
            },
            None => seq![index.push(x)[0].0@],
        }) + changed_paths(index.push(x).drop_first(), old_map));
        assert(changed_paths(Seq::<(String, String)>::empty(), old_map) == Seq::<
            Seq<char>,
        >::empty());
        assert(changed_paths(index.push(x), old_map) =~= changed_paths(index, old_map) + (
        match assoc(old_map, x.0@) {
            Some(h) => if h@ == x.1@ {
                Seq::<Seq<char>>::empty()
            } else {
                seq![x.0@]
            },
            None => seq![x.0@],
        }));
    } else {
        assert(index.push(x)[0] == index[0]);
        assert(index.push(x).drop_first() =~= index.drop_first().push(x));
        lemma_changed_paths_push(index.drop_first(), x, old_map);
        assert(changed_paths(index.push(x), old_map) =~= changed_paths(index, old_map) + (
        match assoc(old_map, x.0@) {
            Some(h) => if h@ == x.1@ {
                Seq::<Seq<char>>::empty()
            } else {
                seq![x.0@]
            },
            None => seq![x.0@],
        }));
    }
}

/// The daemon's hash index: in-memory path/digest pairs with unique paths,
/// backed by a persistent store.
pub struct DaemonState {
    index: Vec<(String, String)>,
    db: KvStore,
}

impl DaemonState {
    /// The in-memory path/digest pairs.
    pub closed spec fn spec_index(self) -> Seq<(String, String)> {
        self.index@
    }

    /// The persistent backing contents.
    pub closed spec fn db_contents(self) -> Map<Seq<u8>, Seq<u8>> {
        self.db.contents()
    }

    /// Paths are pairwise distinct.
    pub closed spec fn wf(self) -> bool {
        forall|i: int, j: int|
            0 <= i < j < self.index@.len() ==> (#[trigger] self.index@[i].0@) != (
            #[trigger] self.index@[j].0@)
    }

    /// A fresh daemon state over the given backing store, with an empty
    /// in-memory index.
    pub fn new(db: KvStore) -> (r: DaemonState)
        ensures
            r.wf(),
            r.spec_index().len() == 0,
            r.db_contents() == db.contents(),
    {
        DaemonState { index: Vec::new(), db }
    }

    /// Load the in-memory index from the backing store after a restart:
    /// every loaded pair is one the store holds, and every stored pair whose
    /// key and value are UTF-8 text is loaded under its decoded path.
    #[verifier::loop_isolation(false)]
    pub fn load_from_db(&mut self) -> (r: Result<usize, StoreError>)
        ensures
            final(self).wf(),
            final(self).db_contents() == old(self).db_contents(),
            r matches Ok(n) ==> n == final(self).spec_index().len(),
            r is Ok ==> forall|i: int|
                0 <= i < final(self).spec_index().len()
                    ==> final(self).db_contents().contains_key(
                    vstd::utf8::encode_utf8((#[trigger] final(self).spec_index()[i]).0@),
                ) && final(self).db_contents()[vstd::utf8::encode_utf8(
                    final(self).spec_index()[i].0@,
                )] == vstd::utf8::encode_utf8(final(self).spec_index()[i].1@),
            r is Ok ==> forall|p: Seq<char>, h: Seq<char>|
                #![trigger final(self).db_contents()[vstd::utf8::encode_utf8(p)], vstd::utf8::encode_utf8(h)]
                final(self).db_contents().contains_key(vstd::utf8::encode_utf8(p))
                    && final(self).db_contents()[vstd::utf8::encode_utf8(p)]
                    == vstd::utf8::encode_utf8(h) ==> (assoc(final(self).spec_index(), p)
                    matches Some(e) && e@ == h),
    {
        broadcast use vstd::utf8::encode_utf8_decode_utf8;

        let pairs = match self.db.entries() {
            Ok(p) => p,
            Err(e) => {
                self.index = Vec::new();
                return Err(e);
            },
        };
        let mut index: Vec<(String, String)> = Vec::new();
        let mut i: usize = 0;
        while i < pairs.len()
            invariant
                i <= pairs@.len(),
                forall|a: int, b: int|
                    0 <= a < b < index@.len() ==> (#[trigger] index@[a].0@) != (
                    #[trigger] index@[b].0@),
                forall|a: int|
                    #![trigger index@[a]]
                    0 <= a < index@.len() ==> exists|i0: int|
                        0 <= i0 < i && (#[trigger] pairs@[i0]).0@ == vstd::utf8::encode_utf8(
                            index@[a].0@,
                        ) && pairs@[i0].1@ == vstd::utf8::encode_utf8(index@[a].1@),
                forall|i0: int, p: Seq<char>, h: Seq<char>|
                    #![trigger pairs@[i0], vstd::utf8::encode_utf8(p), vstd::utf8::encode_utf8(h)]
                    0 <= i0 < i && (pairs@[i0]).0@ == vstd::utf8::encode_utf8(p) && pairs@[i0].1@
                        == vstd::utf8::encode_utf8(h) ==> (assoc(index@, p) matches Some(e) && e@
                        == h),
            decreases pairs@.len() - i,
        {
            let k = pairs[i].0.clone();
            let v = pairs[i].1.clone();
            let kd = crate::store::utf8_string(k);
            let vd = crate::store::utf8_string(v);
            match (kd, vd) {
                (Some(path), Some(hash)) => {
                    let ghost pre = index@;
                    let ghost pathg = path;
                    let ghost hashg = hash;
                    proof {
                        // a second entry with this path would come from an
                        // earlier pair with the same key, and keys are unique
                        assert forall|a: int| 0 <= a < pre.len() implies (#[trigger] pre[a].0@)
                            != pathg@ by {
                            if pre[a].0@ == pathg@ {
                                let i0 = choose|i0: int|
                                    0 <= i0 < i && (#[trigger] pairs@[i0]).0@
                                        == vstd::utf8::encode_utf8(pre[a].0@) && pairs@[i0].1@
                                        == vstd::utf8::encode_utf8(pre[a].1@);
                                assert(pairs@[i0].0@ == pairs@[i as int].0@);
                            }
                        }
                    }
                    index.push((path, hash));
                    proof {
                        let kv = (pathg, hashg);
                        assert(index@ == pre.push(kv));
                        crate::symbol_graph::lemma_assoc_push_new(pre, kv);
                        assert forall|a: int| #![trigger index@[a]]
                            0 <= a < index@.len() implies exists|i0: int|
                            0 <= i0 < i + 1 && (#[trigger] pairs@[i0]).0@
                                == vstd::utf8::encode_utf8(index@[a].0@) && pairs@[i0].1@
                                == vstd::utf8::encode_utf8(index@[a].1@) by {
                            if a < pre.len() {
                                assert(index@[a] == pre[a]);
                                let i0 = choose|i0: int|
                                    0 <= i0 < i && (#[trigger] pairs@[i0]).0@
                                        == vstd::utf8::encode_utf8(pre[a].0@) && pairs@[i0].1@
                                        == vstd::utf8::encode_utf8(pre[a].1@);
                            } else {
                                assert(index@[a] == kv);
                                assert((pairs@[i as int]).0@ == vstd::utf8::encode_utf8(kv.0@));
                            }
                        }
                        assert forall|i0: int, p: Seq<char>, h: Seq<char>|
                            #![trigger pairs@[i0], vstd::utf8::encode_utf8(p), vstd::utf8::encode_utf8(h)]
                            0 <= i0 < i + 1 && (pairs@[i0]).0@ == vstd::utf8::encode_utf8(p)
                                && pairs@[i0].1@ == vstd::utf8::encode_utf8(h) implies (assoc(
                            index@,
                            p,
                        ) matches Some(e) && e@ == h) by {
                            if i0 == i {
                                assert(vstd::utf8::decode_utf8(vstd::utf8::encode_utf8(p)) == p);
                                assert(vstd::utf8::decode_utf8(vstd::utf8::encode_utf8(pathg@))
                                    == pathg@);
                                assert(p == pathg@);
                                assert(vstd::utf8::decode_utf8(vstd::utf8::encode_utf8(h)) == h);
                                assert(vstd::utf8::decode_utf8(vstd::utf8::encode_utf8(hashg@))
                                    == hashg@);
                                assert(h == hashg@);
                                assert(assoc(index@, pathg@) == Some(kv.1));
                            } else {
                                if p == pathg@ {
                                    let a0 = choose|i1: int|
                                        0 <= i1 < i && (#[trigger] pairs@[i1]).0@
                                            == vstd::utf8::encode_utf8(p) && pairs@[i1].1@
                                            == vstd::utf8::encode_utf8(h);
                                    assert(pairs@[a0].0@ == pairs@[i as int].0@);
                                    assert(false);
                                } else {
                                    assert(assoc(index@, p) == assoc(pre, p));
                                }
                            }
                        }
                    }
                },
                _ => {
                    proof {
                        assert forall|i0: int, p: Seq<char>, h: Seq<char>|
                            #![trigger pairs@[i0], vstd::utf8::encode_utf8(p), vstd::utf8::encode_utf8(h)]
                            0 <= i0 < i + 1 && (pairs@[i0]).0@ == vstd::utf8::encode_utf8(p)
                                && pairs@[i0].1@ == vstd::utf8::encode_utf8(h) implies (assoc(
                            index@,
                            p,
                        ) matches Some(e) && e@ == h) by {
                            if i0 == i {
                                assert(exists|cs: Seq<char>|
                                    pairs@[i as int].0@ == vstd::utf8::encode_utf8(cs));
                                assert(exists|cs: Seq<char>|
                                    pairs@[i as int].1@ == vstd::utf8::encode_utf8(cs));
                                assert(false);
                            }
                        }
                    }
                },
            }
            i = i + 1;
        }
        let n = index.len();
        self.index = index;
        proof {
            assert forall|p: Seq<char>, h: Seq<char>|
                #![trigger self.db_contents()[vstd::utf8::encode_utf8(p)], vstd::utf8::encode_utf8(h)]
                self.db_contents().contains_key(vstd::utf8::encode_utf8(p))
                    && self.db_contents()[vstd::utf8::encode_utf8(p)] == vstd::utf8::encode_utf8(
                    h,
                ) implies (assoc(self.spec_index(), p) matches Some(e) && e@ == h) by {
                let key = vstd::utf8::encode_utf8(p);
                let i0 = choose|i0: int| 0 <= i0 < pairs@.len() && (#[trigger] pairs@[i0]).0@ == key;
                assert(self.db_contents()[pairs@[i0].0@] == pairs@[i0].1@);
            }
        }
        Ok(n)
    }

    /// Replace the whole index with a fresh scan, atomically: the in-memory
    /// map holds exactly the scanned pairs and the backing store is replaced
    /// in one durable batch that mirrors them.
    #[verifier::loop_isolation(false)]
    pub fn full_scan(&mut self, files: Vec<(String, String)>) -> (r: Result<usize, StoreError>)
        requires
            forall|i: int, j: int|
                0 <= i < j < files@.len() ==> (#[trigger] files@[i].0@) != (
                #[trigger] files@[j].0@),
        ensures
            r matches Ok(n) ==> {
                &&& final(self).wf()
                &&& final(self).spec_index() == files@
                &&& n == files@.len()
                &&& final(self).db_contents() == map_of(files@)
            },
    {
        let mut pairs: Vec<(Vec<u8>, Vec<u8>)> = Vec::new();
        proof {
            assert(files@.subrange(0, 0) =~= Seq::<(String, String)>::empty());
            assert(crate::store::pairs_map(pairs@) =~= map_of(files@.subrange(0, 0)));
        }
        let mut i: usize = 0;
        while i < files.len()
            invariant
                i <= files@.len(),
                pairs@.len() == i,
                crate::store::pairs_map(pairs@) == map_of(files@.subrange(0, i as int)),
            decreases files@.len() - i,
        {
            let kb = files[i].0.as_str().as_bytes_vec();
            let vb = files[i].1.as_str().as_bytes_vec();
            let ghost pre = pairs@;
            pairs.push((kb, vb));
            proof {
                let sub = files@.subrange(0, i + 1);
                assert(sub.drop_last() =~= files@.subrange(0, i as int));
                assert(sub.last() == files@[i as int]);
                assert(pairs@.drop_last() =~= pre);
                assert(crate::store::pairs_map(pairs@) =~= map_of(sub));
            }
            i = i + 1;
        }
        proof {
            assert(files@.subrange(0, files@.len() as int) =~= files@);
        }
        match self.db.replace_all(&pairs) {
            Ok(_) => {},
            Err(e) => {
                return Err(e);
            },
        }
        match self.db.flush() {
            Ok(_) => {},
            Err(e) => {
                return Err(e);
            },
        }
        let n = files.len();
        self.index = files;
        Ok(n)
    }

    /// Record a fresh digest for one file, in memory and in the backing
    /// store. Returns the digest that now stands for the path.
    pub fn update_file(&mut self, path: &String, hash: String) -> (r: Result<
        Option<String>,
        StoreError,
    >)
        requires
            old(self).wf(),
        ensures
            final(self).wf(),
            r matches Ok(h) ==> {
                &&& h matches Some(hh) && hh@ == hash@
                &&& assoc(final(self).spec_index(), path@) matches Some(e) && e@ == hash@
                &&& forall|k: Seq<char>|
                    k != path@ ==> assoc(final(self).spec_index(), k) == assoc(
                        old(self).spec_index(),
                        k,
                    )
                &&& final(self).db_contents() == old(self).db_contents().insert(
                    vstd::utf8::encode_utf8(path@),
                    vstd::utf8::encode_utf8(hash@),
                )
            },
    {
        let kb = path.as_str().as_bytes_vec();
        let vb = hash.as_str().as_bytes_vec();
        match self.db.insert(&kb, vb) {
            Ok(_) => {},
            Err(e) => {
                return Err(e);
            },
        }
        self.set_index(path, &hash);
        Ok(Some(hash))
    }

    /// Drop one file from the index and the backing store.
    pub fn remove_file(&mut self, path: &String) -> (r: Result<(), StoreError>)
        requires
            old(self).wf(),
        ensures
            final(self).wf(),
            r is Ok ==> {
                &&& assoc(final(self).spec_index(), path@) is None
                &&& forall|k: Seq<char>|
                    k != path@ ==> assoc(final(self).spec_index(), k) == assoc(
                        old(self).spec_index(),
                        k,
                    )
                &&& final(self).db_contents() == old(self).db_contents().remove(
                    vstd::utf8::encode_utf8(path@),
                )
            },
    {
        let kb = path.as_str().as_bytes_vec();
        match self.db.remove(&kb) {
            Ok(_) => {},
            Err(e) => {
                return Err(e);
            },
        }
        match self.find_index(path) {
            Some(i) => {
                let ghost pre = self.index@;
                let _ = self.index.remove(i);
                proof {
                    self.lemma_after_remove(pre, i as int, path@);
                }
            },
            None => {
                proof {
                    lemma_assoc_none(self.index@, path@);
                }
            },
        }
        Ok(())
    }

    /// Distinct-path lists keep lookups stable when one entry is removed.
    proof fn lemma_after_remove(self, pre: Seq<(String, String)>, i: int, path: Seq<char>)
        requires
            0 <= i < pre.len(),
            pre[i].0@ == path,
            forall|a: int, b: int|
                0 <= a < b < pre.len() ==> (#[trigger] pre[a].0@) != (#[trigger] pre[b].0@),
            self.index@ == pre.remove(i),
        ensures
            self.wf(),
            assoc(self.index@, path) is None,
            forall|k: Seq<char>| k != path ==> assoc(self.index@, k) == assoc(pre, k),
    {
        let cur = pre.remove(i);
        assert forall|a: int, b: int|
            0 <= a < b < cur.len() implies (#[trigger] cur[a].0@) != (#[trigger] cur[b].0@) by {
            if b < i {
                assert(cur[a] == pre[a] && cur[b] == pre[b]);
            } else if a < i {
                assert(cur[a] == pre[a] && cur[b] == pre[b + 1]);
            } else {
                assert(cur[a] == pre[a + 1] && cur[b] == pre[b + 1]);
            }
        }
        assert forall|a: int| 0 <= a < cur.len() implies (#[trigger] cur[a].0@) != path by {
            if a < i {
                assert(cur[a] == pre[a]);
            } else {
                assert(cur[a] == pre[a + 1]);
            }
        }
        lemma_assoc_none(cur, path);
        assert forall|k: Seq<char>| k != path implies assoc(cur, k) == assoc(pre, k) by {
            Self::lemma_assoc_remove_other(pre, i, k);
        }
    }

    /// Removing an entry under a different key leaves a lookup unchanged.
    proof fn lemma_assoc_remove_other(s: Seq<(String, String)>, i: int, k: Seq<char>)
        requires
            0 <= i < s.len(),
            s[i].0@ != k,
        ensures
            assoc(s.remove(i), k) == assoc(s, k),
        decreases s.len(),
    {
        if i == 0 {
            assert(s.remove(0) =~= s.drop_first());
        } else {
            assert(s.remove(i).drop_first() =~= s.drop_first().remove(i - 1));
            assert(s.remove(i)[0] == s[0]);
            Self::lemma_assoc_remove_other(s.drop_first(), i - 1, k);
        }
    }

    /// Index position of a path.
    fn find_index(&self, path: &String) -> (r: Option<usize>)
        ensures
            match r {
                Some(i) => i < self.index@.len() && self.index@[i as int].0@ == path@,
                None => forall|j: int|
                    0 <= j < self.index@.len() ==> (#[trigger] self.index@[j].0@) != path@,
            },
    {
        let mut i: usize = 0;
        while i < self.index.len()
            invariant
                i <= self.index@.len(),
                forall|j: int| 0 <= j < i ==> (#[trigger] self.index@[j].0@) != path@,
            decreases self.index@.len() - i,
        {
            if self.index[i].0 == *path {
                return Some(i);
            }
            i = i + 1;
        }
        None
    }

    /// Set or replace the in-memory digest of one path.
    fn set_index(&mut self, path: &String, hash: &String)
        requires
            old(self).wf(),
        ensures
            final(self).wf(),
            final(self).db_contents() == old(self).db_contents(),
            assoc(final(self).spec_index(), path@) matches Some(e) && e@ == hash@,
            forall|k: Seq<char>|
                k != path@ ==> assoc(final(self).spec_index(), k) == assoc(
                    old(self).spec_index(),
                    k,
                ),
    {
        match self.find_index(path) {
            Some(i) => {
                let ghost pre = self.index@;
                let _ = self.index.remove(i);
                proof {
                    self.lemma_after_remove(pre, i as int, path@);
                }
            },
            None => {
                proof {
                    lemma_assoc_none(self.index@, path@);
                }
            },
        }
        let ghost mid = self.index@;
        self.index.insert(0, (path.clone(), hash.clone()));
        proof {
            let kv = self.index@[0];
            assert(self.index@ == mid.insert(0, kv));
            assert(self.index@.drop_first() =~= mid);
            assert(assoc(self.index@, path@) == Some(kv.1));
            assert forall|k: Seq<char>| k != path@ implies assoc(self.index@, k) == assoc(
                mid,
                k,
            ) by {
                assert(self.index@[0].0@ == path@);
            }
            assert forall|a: int, b: int|
                0 <= a < b < self.index@.len() implies (#[trigger] self.index@[a].0@) != (
            #[trigger] self.index@[b].0@) by {
                if a == 0 {
                    assert(self.index@[b] == mid[b - 1]);
                    assert(mid[b - 1].0@ != path@) by {
                        if mid[b - 1].0@ == path@ {
                            lemma_assoc_at(mid, path@, b - 1);
                        }
                    }
                } else {
                    assert(self.index@[a] == mid[a - 1] && self.index@[b] == mid[b - 1]);
                }
            }
        }
    }

    /// The digest the index holds for a path, if any.
    pub fn get_hash(&self, path: &String) -> (r: Option<String>)
        requires
            self.wf(),
        ensures
            match r {
                Some(h) => assoc(self.spec_index(), path@) matches Some(e) && e@ == h@,
                None => assoc(self.spec_index(), path@) is None,
            },
    {
        match self.find_index(path) {
            Some(i) => {
                proof {
                    lemma_assoc_at(self.index@, path@, i as int);
                }
                Some(self.index[i].1.clone())
            },
            None => {
                proof {
                    lemma_assoc_none(self.index@, path@);
                }
                None
            },
        }
    }

    /// The paths whose current digest is absent from the given old map or
    /// differs from it.
    pub fn get_changed(&self, old_hashes: &Vec<(String, String)>) -> (r: Vec<String>)
        ensures
            crate::symbols::strs_view(r@) == changed_paths(self.spec_index(), old_hashes@),
    {
        let mut r: Vec<String> = Vec::new();
        proof {
            assert(self.index@.subrange(0, 0) =~= Seq::<(String, String)>::empty());
            assert(crate::symbols::strs_view(r@) =~= changed_paths(
                self.index@.subrange(0, 0),
                old_hashes@,
            ));
        }
        let mut i: usize = 0;
        while i < self.index.len()
            invariant
                i <= self.index@.len(),
                crate::symbols::strs_view(r@) == changed_paths(
                    self.index@.subrange(0, i as int),
                    old_hashes@,
                ),
            decreases self.index@.len() - i,
        {
            let ghost pre = r@;
            let keep = match crate::symbol_graph::find_key(old_hashes, &self.index[i].0) {
                Some(ci) => !(old_hashes[ci].1 == self.index[i].1),
                None => true,
            };
            if keep {
                r.push(self.index[i].0.clone());
            }
            proof {
                let sub = self.index@.subrange(0, i + 1);
                assert(sub =~= self.index@.subrange(0, i as int).push(self.index@[i as int]));
                lemma_changed_paths_push(
                    self.index@.subrange(0, i as int),
                    self.index@[i as int],
                    old_hashes@,
                );
                if keep {
                    assert(crate::symbols::strs_view(r@) =~= crate::symbols::strs_view(pre).push(
                        self.index@[i as int].0@,
                    ));
                }
                assert(crate::symbols::strs_view(r@) =~= changed_paths(sub, old_hashes@));
            }
            i = i + 1;
        }
        proof {
            assert(self.index@.subrange(0, self.index@.len() as int) =~= self.index@);
        }
        r
    }

    /// How many files the index holds and how large the backing store is on
    /// disk; a store that cannot report its size counts as empty.
    pub fn stats(&self) -> (r: DaemonStats)
        ensures
            r.cached_files == self.spec_index().len(),
    {
        let db_size = match self.db.size_on_disk() {
            Ok(n) => n,
            Err(_) => 0,
        };
        DaemonStats { cached_files: self.index.len(), db_size }
    }
}

} // verus!
