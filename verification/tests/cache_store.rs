//! Result cache round trips, in memory and through the embedded store.

use neex::cache::{Cache, CacheEntry};
use neex::p2p::artifact_response;
use neex::runner::{PackageJson, TaskRunner};
use neex::store::KvStore;

fn entry(lines: &[&str]) -> CacheEntry {
    CacheEntry {
        hash: "f".repeat(64),
        timestamp: 1,
        duration_ms: 42,
        exit_code: 0,
        outputs: lines.iter().map(|s| s.to_string()).collect(),
    }
}

#[test]
fn cache_put_then_get_round_trips() {
    let mut cache = Cache::empty(".neex/cache".to_string());
    let key = "build:0123456789abcdef".to_string();
    cache.put(key.clone(), entry(&["compiling", "done"])).unwrap();

    assert!(cache.has(&key));
    let got = cache.get(&key).unwrap();
    assert_eq!(got.outputs, vec!["compiling".to_string(), "done".to_string()]);
    assert_eq!(got.duration_ms, 42);
    assert_eq!(got.exit_code, 0);

    assert!(!cache.has(&"other".to_string()));
    assert!(cache.get(&"other".to_string()).is_none());
}

#[test]
fn cache_put_overwrites() {
    let mut cache = Cache::empty(String::new());
    let key = "k".to_string();
    cache.put(key.clone(), entry(&["one"])).unwrap();
    cache.put(key.clone(), entry(&["two"])).unwrap();
    assert_eq!(cache.stats().entries, 1);
    assert_eq!(cache.get(&key).unwrap().outputs, vec!["two".to_string()]);
}

#[test]
fn cache_clear_empties() {
    let mut cache = Cache::empty(String::new());
    cache.put("a".to_string(), entry(&[])).unwrap();
    cache.clear().unwrap();
    assert_eq!(cache.stats().entries, 0);
    assert!(!cache.has(&"a".to_string()));
}

#[test]
fn cache_stats_reports_dir() {
    let cache = Cache::empty("/repo/.neex/cache".to_string());
    assert_eq!(cache.stats().cache_dir, "/repo/.neex/cache");
}

fn temp_store() -> KvStore {
    let db = sled::Config::new().temporary(true).open().unwrap();
    KvStore { db }
}

#[test]
fn store_round_trips_bytes() {
    let mut store = temp_store();
    let key = b"some-key".to_vec();
    store.insert(&key, b"payload".to_vec()).unwrap();
    assert_eq!(store.get(&key).unwrap(), Some(b"payload".to_vec()));
    store.remove(&key).unwrap();
    assert_eq!(store.get(&key).unwrap(), None);
}

#[test]
fn runner_cache_round_trips() {
    let mut runner = TaskRunner::new(".".to_string(), temp_store());
    let key = "build:0123456789abcdef".to_string();
    assert_eq!(runner.get_cached(&key).unwrap(), None);
    runner.store_cached(&key, b"captured output".to_vec()).unwrap();
    assert_eq!(runner.get_cached(&key).unwrap(), Some(b"captured output".to_vec()));

    let (count, _size) = runner.cache_stats().unwrap();
    assert_eq!(count, 1);

    runner.clear_cache().unwrap();
    assert_eq!(runner.get_cached(&key).unwrap(), None);
}

#[test]
fn runner_finds_scripts() {
    let runner = TaskRunner::new(".".to_string(), temp_store());
    let manifest = PackageJson {
        name: Some("app".to_string()),
        scripts: vec![
            ("build".to_string(), "tsc".to_string()),
            ("test".to_string(), "jest".to_string()),
        ],
    };
    assert_eq!(runner.get_script(&manifest, &"build".to_string()), Some("tsc".to_string()));
    assert_eq!(runner.get_script(&manifest, &"lint".to_string()), None);
}

#[test]
fn test_artifact_server() {
    let mut store = temp_store();
    store.insert(&b"test-hash".to_vec(), b"Hello P2P!".to_vec()).unwrap();

    let (status, body) = artifact_response(&store, &"test-hash".to_string());
    assert_eq!(status, 200);
    assert_eq!(body, b"Hello P2P!".to_vec());

    let (status, body) = artifact_response(&store, &"missing".to_string());
    assert_eq!(status, 404);
    assert!(body.is_empty());
}
