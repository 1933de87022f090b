//! The embedded key/value store behind the result cache and the daemon's
//! hash index. The engine itself is an outside crate; its handle is held
//! here behind a verified interface whose contracts speak of the store's
//! contents as a map from key bytes to value bytes.

use vstd::prelude::*;

verus! {

#[verifier::external_type_specification]
#[verifier::external_body]
pub struct ExDb(sled::Db);

/// The key/value map a store handle currently holds.
pub uninterp spec fn db_view(db: sled::Db) -> Map<Seq<u8>, Seq<u8>>;

/// A failure of the embedded store, rendered as text.
#[derive(Debug)]
pub struct StoreError {
    pub message: String,
}

/// An embedded, durable key/value store. The raw engine handle is exposed so
/// that the embedding program can open or share one; verified code reads and
/// writes it only through the contracts below.
pub struct KvStore {
    pub db: sled::Db,
}

impl KvStore {
    /// The stored key/value pairs.
    pub open spec fn contents(self) -> Map<Seq<u8>, Seq<u8>> {
        db_view(self.db)
    }

    /// Relies on `sled::open`: opens or creates the store at the given
    /// directory.
    #[verifier::external_body]
    pub fn open(path: &String) -> (r: Result<KvStore, StoreError>)
    {
        match sled::open(path.as_str()) {
            Ok(db) => Ok(KvStore { db }),
            Err(e) => Err(StoreError { message: e.to_string() }),
        }
    }

    /// Relies on `sled::Tree::get`: the value stored under the key, if any.
    #[verifier::external_body]
    pub fn get(&self, key: &Vec<u8>) -> (r: Result<Option<Vec<u8>>, StoreError>)
        ensures
            match r {
                Ok(Some(v)) => db_view(self.db).contains_key(key@) && v@ == db_view(
                    self.db,
                )[key@],
                Ok(None) => !db_view(self.db).contains_key(key@),
                Err(_) => true,
            },
    {
        match self.db.get(key.as_slice()) {
            Ok(Some(v)) => Ok(Some(v.to_vec())),
            Ok(None) => Ok(None),
            Err(e) => Err(StoreError { message: e.to_string() }),
        }
    }

    /// Relies on `sled::Tree::insert`: stores the value under the key,
    /// replacing what was there.
    #[verifier::external_body]
    pub fn insert(&mut self, key: &Vec<u8>, value: Vec<u8>) -> (r: Result<(), StoreError>)
        ensures
            r is Ok ==> db_view(final(self).db) == db_view(old(self).db).insert(key@, value@),
    {
        match self.db.insert(key.as_slice(), value) {
            Ok(_) => Ok(()),
            Err(e) => Err(StoreError { message: e.to_string() }),
        }
    }

    /// Relies on `sled::Tree::remove`: removes the key.
    #[verifier::external_body]
    pub fn remove(&mut self, key: &Vec<u8>) -> (r: Result<(), StoreError>)
        ensures
            r is Ok ==> db_view(final(self).db) == db_view(old(self).db).remove(key@),
    {
        match self.db.remove(key.as_slice()) {
            Ok(_) => Ok(()),
            Err(e) => Err(StoreError { message: e.to_string() }),
        }
    }

    /// Relies on `sled::Tree::clear`: removes every key.
    #[verifier::external_body]
    pub fn clear(&mut self) -> (r: Result<(), StoreError>)
        ensures
            r is Ok ==> forall|k: Seq<u8>| !(#[trigger] db_view(final(self).db).contains_key(k)),
    {
        match self.db.clear() {
            Ok(_) => Ok(()),
            Err(e) => Err(StoreError { message: e.to_string() }),
        }
    }

    /// Relies on `sled::Tree::flush`: forces stored data to disk; the
    /// contents are unchanged.
    #[verifier::external_body]
    pub fn flush(&mut self) -> (r: Result<usize, StoreError>)
        ensures
            db_view(final(self).db) == db_view(old(self).db),
    {
        match self.db.flush() {
            Ok(n) => Ok(n),
            Err(e) => Err(StoreError { message: e.to_string() }),
        }
    }

    /// The number of stored keys, counted by an error-guarded full scan: on
    /// success the count is exactly the size of the contents.
    pub fn count(&self) -> (r: Result<usize, StoreError>)
        ensures
            r matches Ok(n) ==> db_view(self.db).dom().finite() && n == db_view(
                self.db,
            ).dom().len(),
    {
        match self.entries() {
            Ok(v) => {
                proof {
                    broadcast use vstd::seq_lib::seq_to_set_is_finite;

                    let ks = Seq::new(v@.len(), |i: int| (v@[i].0)@);
                    assert(ks.no_duplicates()) by {
                        assert forall|i: int, j: int|
                            0 <= i < ks.len() && 0 <= j < ks.len() && i != j implies ks[i]
                            != ks[j] by {
                            if i < j {
                                assert((v@[i].0)@ != (v@[j].0)@);
                            } else {
                                assert((v@[j].0)@ != (v@[i].0)@);
                            }
                        }
                    }
                    assert(db_view(self.db).dom() =~= ks.to_set()) by {
                        assert forall|k: Seq<u8>|
                            #[trigger] db_view(self.db).dom().contains(k) implies ks.to_set()
                            .contains(k) by {
                            let i = choose|i: int|
                                0 <= i < v@.len() && (#[trigger] v@[i]).0@ == k;
                            assert(ks[i] == k);
                        }
                        assert forall|k: Seq<u8>| #[trigger] ks.to_set().contains(k)
                            implies db_view(self.db).dom().contains(k) by {
                            let i = choose|i: int| 0 <= i < ks.len() && ks[i] == k;
                            assert((v@[i].0)@ == k);
                        }
                    }
                    ks.unique_seq_to_set();
                }
                Ok(v.len())
            },
            Err(e) => Err(e),
        }
    }

    /// Relies on `sled::Db::size_on_disk`: bytes the store occupies on disk.
    #[verifier::external_body]
    pub fn size_on_disk(&self) -> (r: Result<u64, StoreError>)
    {
        match self.db.size_on_disk() {
            Ok(n) => Ok(n),
            Err(e) => Err(StoreError { message: e.to_string() }),
        }
    }

    /// Relies on `sled::Batch` and `sled::Tree::apply_batch`: replace the
    /// whole contents in one atomic batch that removes every stored key and
    /// writes the given pairs, later pairs winning per key.
    #[verifier::external_body]
    pub fn replace_all(&mut self, pairs: &Vec<(Vec<u8>, Vec<u8>)>) -> (r: Result<(), StoreError>)
        ensures
            r is Ok ==> db_view(final(self).db) == pairs_map(pairs@),
    {
        let mut batch = sled::Batch::default();
        for item in self.db.iter() {
            match item {
                Ok((k, _)) => batch.remove(k),
                Err(e) => return Err(StoreError { message: e.to_string() }),
            }
        }
        for p in pairs.iter() {
            batch.insert(p.0.clone(), p.1.clone());
        }
        match self.db.apply_batch(batch) {
            Ok(_) => Ok(()),
            Err(e) => Err(StoreError { message: e.to_string() }),
        }
    }

    /// Relies on `sled::Tree::iter`: a full scan that yields every stored
    /// key/value pair exactly once.
    #[verifier::external_body]
    pub fn entries(&self) -> (r: Result<Vec<(Vec<u8>, Vec<u8>)>, StoreError>)
        ensures
            r matches Ok(v) ==> forall|i: int|
                0 <= i < v@.len() ==> db_view(self.db).contains_key((#[trigger] v@[i]).0@)
                    && db_view(self.db)[v@[i].0@] == v@[i].1@,
            r matches Ok(v) ==> forall|k: Seq<u8>|
                #[trigger] db_view(self.db).contains_key(k) ==> exists|i: int|
                    0 <= i < v@.len() && (#[trigger] v@[i]).0@ == k,
            r matches Ok(v) ==> forall|i: int, j: int|
                0 <= i < j < v@.len() ==> (#[trigger] v@[i]).0@ != (#[trigger] v@[j]).0@,
    {
        let mut out = Vec::new();
        for item in self.db.iter() {
            match item {
                Ok((k, v)) => out.push((k.to_vec(), v.to_vec())),
                Err(e) => return Err(StoreError { message: e.to_string() }),
            }
        }
        Ok(out)
    }
}

/// The map a list of key/value byte pairs denotes, later pairs winning.
pub open spec fn pairs_map(s: Seq<(Vec<u8>, Vec<u8>)>) -> Map<Seq<u8>, Seq<u8>>
    decreases s,
{
    if s.len() == 0 {
        Map::empty()
    } else {
        pairs_map(s.drop_last()).insert(s.last().0@, s.last().1@)
    }
}

/// Relies on `String::from_utf8`: bytes that are the UTF-8 encoding of a
/// character sequence decode to exactly that sequence, and any such bytes do
/// decode; anything else is `None`.
#[verifier::external_body]
pub fn utf8_string(bytes: Vec<u8>) -> (r: Option<String>)
    ensures
        r matches Some(s) ==> bytes@ == vstd::utf8::encode_utf8(s@),
        (exists|cs: Seq<char>| bytes@ == vstd::utf8::encode_utf8(cs)) ==> r is Some,
{
    match String::from_utf8(bytes) {
        Ok(s) => Some(s),
        Err(_) => None,
    }
}

} // verus!
