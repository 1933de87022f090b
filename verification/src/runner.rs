//! The task runner's verified half: script lookup in a parsed manifest and
//! the persistent result cache keyed by cache keys. Spawning the subprocess,
//! capturing its streams and replaying output are the embedding program's
//! work; what it stores and reads back goes through the contracts here.

use vstd::prelude::*;
use crate::store::{KvStore, StoreError};
use crate::symbol_graph::assoc;

verus! {

/// The captured output of one task run.
#[derive(Debug)]
pub struct TaskOutput {
    pub stdout: Vec<String>,
    pub stderr: Vec<String>,
    pub exit_code: i32,
    pub duration_ms: u64,
    /// The cache key or fingerprint the run was stored under.
    pub hash: String,
    /// Seconds since the epoch when the run was captured.
    pub cached_at: u64,
}

/// The part of a package manifest the runner reads: the package name and its
/// scripts.
#[derive(Debug)]
pub struct PackageJson {
    pub name: Option<String>,
    /// Script name to shell command.
    pub scripts: Vec<(String, String)>,
}

/// Task runner state: the root directory it runs in and the persistent
/// result cache.
pub struct TaskRunner {
    root: String,
    db: KvStore,
}

impl TaskRunner {
    /// The bytes currently stored in the result cache.
    pub closed spec fn cache_contents(self) -> Map<Seq<u8>, Seq<u8>> {
        self.db.contents()
    }

    /// The root directory.
    pub closed spec fn spec_root(self) -> Seq<char> {
        self.root@
    }

    /// A runner over the given root, with its result cache in the given
    /// store.
    pub fn new(root: String, db: KvStore) -> (r: TaskRunner)
        ensures
            r.spec_root() == root@,
            r.cache_contents() == db.contents(),
    {
        TaskRunner { root, db }
    }

    /// The shell command the manifest declares for the script, or `None`
    /// when the manifest declares no script of that name.
    pub fn get_script(&self, manifest: &PackageJson, script_name: &String) -> (r: Option<String>)
        ensures
            match r {
                Some(cmd) => exists|c: String|
                    assoc(manifest.scripts@, script_name@) == Some(c) && (#[trigger] c@) == cmd@,
                None => assoc(manifest.scripts@, script_name@) is None,
            },
    {
        let mut i: usize = 0;
        while i < manifest.scripts.len()
            invariant
                i <= manifest.scripts@.len(),
                forall|j: int| 0 <= j < i ==> (#[trigger] manifest.scripts@[j].0@) != script_name@,
            decreases manifest.scripts@.len() - i,
        {
            if manifest.scripts[i].0 == *script_name {
                proof {
                    crate::symbol_graph::lemma_assoc_at(
                        manifest.scripts@,
                        script_name@,
                        i as int,
                    );
                }
                let c = manifest.scripts[i].1.clone();
                proof {
                    let witness = manifest.scripts@[i as int].1;
                    assert(assoc(manifest.scripts@, script_name@) == Some(witness) && witness@
                        == c@);
                }
                return Some(c);
            }
            i = i + 1;
        }
        proof {
            crate::symbol_graph::lemma_assoc_none(manifest.scripts@, script_name@);
        }
        None
    }

    /// The cached bytes stored under the key, or `None` on a cache miss. A
    /// stored value that fails to decode downstream is treated by callers as
    /// a miss.
    pub fn get_cached(&self, key: &String) -> (r: Result<Option<Vec<u8>>, StoreError>)
        ensures
            match r {
                Ok(Some(v)) => self.cache_contents().contains_key(
                    vstd::utf8::encode_utf8(key@),
                ) && v@ == self.cache_contents()[vstd::utf8::encode_utf8(key@)],
                Ok(None) => !self.cache_contents().contains_key(vstd::utf8::encode_utf8(key@)),
                Err(_) => true,
            },
    {
        let kb = key.as_str().as_bytes_vec();
        self.db.get(&kb)
    }

    /// Store the bytes under the key, durably: a later `get_cached` of the
    /// same key returns exactly these bytes.
    pub fn store_cached(&mut self, key: &String, data: Vec<u8>) -> (r: Result<(), StoreError>)
        ensures
            final(self).spec_root() == old(self).spec_root(),
            r is Ok ==> final(self).cache_contents() == old(self).cache_contents().insert(
                vstd::utf8::encode_utf8(key@),
                data@,
            ),
    {
        let kb = key.as_str().as_bytes_vec();
        match self.db.insert(&kb, data) {
            Ok(_) => {
                match self.db.flush() {
                    Ok(_) => Ok(()),
                    Err(e) => Err(e),
                }
            },
            Err(e) => Err(e),
        }
    }

    /// Number of cached entries and bytes on disk: exact on success.
    pub fn cache_stats(&self) -> (r: Result<(usize, u64), StoreError>)
        ensures
            r matches Ok(p) ==> p.0 == self.cache_contents().dom().len(),
    {
        let count = match self.db.count() {
            Ok(n) => n,
            Err(e) => {
                return Err(e);
            },
        };
        match self.db.size_on_disk() {
            Ok(size) => Ok((count, size)),
            Err(e) => Err(e),
        }
    }

    /// Drop every cached entry, durably.
    pub fn clear_cache(&mut self) -> (r: Result<(), StoreError>)
        ensures
            final(self).spec_root() == old(self).spec_root(),
            r is Ok ==> forall|k: Seq<u8>|
                !(#[trigger] final(self).cache_contents().contains_key(k)),
    {
        match self.db.clear() {
            Ok(_) => {
                match self.db.flush() {
                    Ok(_) => Ok(()),
                    Err(e) => Err(e),
                }
            },
            Err(e) => Err(e),
        }
    }
}

} // verus!
