//! Daemon state, request handling, watcher rules, peers, and the remote
//! cache configuration.

use neex::cloud::{artifact_key, default_true, CloudCache, CloudConfig, S3Config};
use neex::p2p::{health_response, PeerInfo, PeerRegistry};
use neex::server::{handle_request, DaemonRequest, DaemonResponse, RequestOutcome};
use neex::state::DaemonState;
use neex::store::KvStore;
use neex::watcher::{filter_changes, should_ignore, ChangeKind, FileChange};

fn temp_state() -> DaemonState {
    let db = sled::Config::new().temporary(true).open().unwrap();
    DaemonState::new(KvStore { db })
}

#[test]
fn daemon_index_updates_and_lookups() {
    let mut state = temp_state();
    let path = "/repo/src/a.ts".to_string();
    let updated = state.update_file(&path, "abcd".to_string()).unwrap();
    assert_eq!(updated, Some("abcd".to_string()));
    assert_eq!(state.get_hash(&path), Some("abcd".to_string()));

    state.update_file(&path, "efgh".to_string()).unwrap();
    assert_eq!(state.get_hash(&path), Some("efgh".to_string()));
    assert_eq!(state.stats().cached_files, 1);

    state.remove_file(&path).unwrap();
    assert_eq!(state.get_hash(&path), None);
    assert_eq!(state.stats().cached_files, 0);
}

#[test]
fn daemon_change_detection() {
    let mut state = temp_state();
    state.full_scan(vec![
        ("/r/a".to_string(), "1".to_string()),
        ("/r/b".to_string(), "2".to_string()),
    ])
    .unwrap();

    let old = vec![("/r/a".to_string(), "1".to_string()), ("/r/b".to_string(), "9".to_string())];
    let changed = state.get_changed(&old);
    assert_eq!(changed, vec!["/r/b".to_string()]);

    let empty: Vec<(String, String)> = Vec::new();
    let mut all = state.get_changed(&empty);
    all.sort();
    assert_eq!(all, vec!["/r/a".to_string(), "/r/b".to_string()]);
}

#[test]
fn daemon_index_survives_restart() {
    let db = sled::Config::new().temporary(true).open().unwrap();
    let mut state = DaemonState::new(KvStore { db: db.clone() });
    state.full_scan(vec![("/r/a".to_string(), "1".to_string())]).unwrap();

    let mut restarted = DaemonState::new(KvStore { db });
    let n = restarted.load_from_db().unwrap();
    assert_eq!(n, 1);
    assert_eq!(restarted.get_hash(&"/r/a".to_string()), Some("1".to_string()));
}

#[test]
fn request_handling() {
    let mut state = temp_state();
    state.update_file(&"/r/a".to_string(), "1".to_string()).unwrap();

    match handle_request(&state, &DaemonRequest::GetHash { path: "/r/a".to_string() }) {
        RequestOutcome::Reply(DaemonResponse::Hash(h)) => assert_eq!(h, Some("1".to_string())),
        _ => panic!("wrong outcome"),
    }
    match handle_request(&state, &DaemonRequest::Stats) {
        RequestOutcome::Reply(DaemonResponse::Stats { cached_files, .. }) => {
            assert_eq!(cached_files, 1)
        },
        _ => panic!("wrong outcome"),
    }
    assert!(matches!(
        handle_request(&state, &DaemonRequest::GlobalHash),
        RequestOutcome::NeedsGlobalHash
    ));
    assert!(matches!(
        handle_request(&state, &DaemonRequest::Rescan),
        RequestOutcome::Reply(DaemonResponse::Done)
    ));
    assert!(matches!(
        handle_request(&state, &DaemonRequest::Shutdown),
        RequestOutcome::ShutdownRequested
    ));
    match handle_request(
        &state,
        &DaemonRequest::GetChanged { hashes: vec![("/r/a".to_string(), "0".to_string())] },
    ) {
        RequestOutcome::Reply(DaemonResponse::Changed(ps)) => {
            assert_eq!(ps, vec!["/r/a".to_string()])
        },
        _ => panic!("wrong outcome"),
    }
}

#[test]
fn watcher_ignores_state_directories() {
    assert!(should_ignore(&"/repo/node_modules/x/index.js".to_string()));
    assert!(should_ignore(&"/repo/.git/HEAD".to_string()));
    assert!(should_ignore(&"/repo/.neex/cache/db".to_string()));
    assert!(should_ignore(&"/repo/dist/out.js".to_string()));
    assert!(!should_ignore(&"/repo/src/index.ts".to_string()));

    let changes = vec![
        FileChange { path: "/repo/src/a.ts".to_string(), kind: ChangeKind::Modify },
        FileChange { path: "/repo/target/x".to_string(), kind: ChangeKind::Create },
    ];
    let kept = filter_changes(changes);
    assert_eq!(kept.len(), 1);
    assert_eq!(kept[0].path, "/repo/src/a.ts");
}

#[test]
fn test_peer_manager_creation() {
    let pm = PeerRegistry::new("ab12cd34".to_string());
    assert!(!pm.local_id().is_empty());

    let peers = pm.get_peers();
    assert!(peers.is_empty());
}

#[test]
fn peers_come_and_go() {
    let mut pm = PeerRegistry::new("self0001".to_string());
    pm.add_peer(PeerInfo {
        id: "neex-daemon-self0001._neex._tcp.local.".to_string(),
        addr: "10.0.0.1:9".to_string(),
        hostname: "me".to_string(),
    });
    assert!(pm.get_peers().is_empty(), "a peer carrying the local id is this process");

    pm.add_peer(PeerInfo {
        id: "neex-daemon-other999._neex._tcp.local.".to_string(),
        addr: "10.0.0.2:9".to_string(),
        hostname: "mate".to_string(),
    });
    assert_eq!(pm.get_peers().len(), 1);
    assert_eq!(pm.get_peers()[0].addr, "10.0.0.2:9");

    pm.remove_peer(&"neex-daemon-other999._neex._tcp.local.".to_string());
    assert!(pm.get_peers().is_empty());
}

#[test]
fn health_endpoint_is_fixed() {
    assert_eq!(health_response(), "OK");
}

#[test]
fn test_default_config() {
    let config = CloudConfig::default();
    assert!(config.s3.is_none());
}

#[test]
fn s3_defaults() {
    let c = S3Config::default();
    assert_eq!(c.region, "auto");
    assert!(c.enabled);
    assert!(c.endpoint.is_empty());
    assert!(default_true());
}

#[test]
fn cloud_client_decisions() {
    // nothing configured
    assert!(CloudCache::try_new(&CloudConfig::default()).unwrap().is_none());

    // configured but disabled
    let disabled = CloudConfig {
        s3: Some(S3Config { enabled: false, ..S3Config::default() }),
    };
    assert!(CloudCache::try_new(&disabled).unwrap().is_none());

    // a broken endpoint is an error, not a silent miss
    let broken = CloudConfig {
        s3: Some(S3Config {
            endpoint: "not a url".to_string(),
            bucket: "b".to_string(),
            ..S3Config::default()
        }),
    };
    assert!(CloudCache::try_new(&broken).is_err());

    // a well-formed endpoint yields a working client
    let good = S3Config {
        endpoint: "https://s3.example.com".to_string(),
        bucket: "neex-cache".to_string(),
        region: "us-east-1".to_string(),
        access_key: "ak".to_string(),
        secret_key: "sk".to_string(),
        enabled: true,
    };
    let client = CloudCache::from_config(&good).unwrap();
    assert!(client.is_enabled());
    let url = client.download_url(&"build:0123456789abcdef".to_string()).unwrap();
    assert!(url.contains("artifacts/build"));
    assert!(client.ping_url().is_some());
}

#[test]
fn artifact_keys_share_one_prefix() {
    assert_eq!(artifact_key(&"abc".to_string()), "artifacts/abc");
}

#[test]
fn adding_a_peer_again_replaces_its_record() {
    let mut pm = PeerRegistry::new("self0001".to_string());
    pm.add_peer(PeerInfo {
        id: "neex-daemon-other999._neex._tcp.local.".to_string(),
        addr: "10.0.0.2:9".to_string(),
        hostname: "mate".to_string(),
    });
    pm.add_peer(PeerInfo {
        id: "neex-daemon-other999._neex._tcp.local.".to_string(),
        addr: "10.0.0.3:9".to_string(),
        hostname: "mate".to_string(),
    });
    let peers = pm.get_peers();
    assert_eq!(peers.len(), 1);
    assert_eq!(peers[0].addr, "10.0.0.3:9");
    assert_eq!(peers[0].id, "neex-daemon-other999._neex._tcp.local.");
}
