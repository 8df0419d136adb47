use tikv::engines::Db;
use tikv::engines::Engines;
use tikv::engines::EngineError;
use tikv::latch::Latches;
use tikv::mvcc::MvccStore;
use tikv::Mutation;
use tikv::TxnError;

fn put(key: &[u8], value: &[u8]) -> Mutation {
    Mutation::Put { key: key.to_vec(), value: value.to_vec() }
}

#[test]
fn scenario_prewrite_commit_read() {
    let mut s = MvccStore::new();
    let k1 = b"k1".to_vec();
    let muts = vec![put(b"k1", b"a")];
    assert!(s.prewrite(&muts, &k1, 10, 3000).is_ok());
    assert!(s.commit(&vec![k1.clone()], 10, 11).is_ok());
    assert_eq!(s.read(&k1, 11).unwrap(), Some(b"a".to_vec()));
    assert_eq!(s.read(&k1, 10).unwrap(), None);
}

#[test]
fn scenario_concurrent_prewrites_conflict() {
    let mut s = MvccStore::new();
    let k = b"k".to_vec();
    assert!(s.prewrite(&vec![put(b"k", b"v1")], &k, 10, 3000).is_ok());
    let second = s.prewrite(&vec![put(b"k", b"v2")], &k, 20, 3000);
    match second {
        Err(TxnError::KeyIsLocked { key, lock_ts, .. }) => {
            assert_eq!(key, k);
            assert_eq!(lock_ts, 10);
        }
        other => panic!("expected key-is-locked, got {:?}", other),
    }
}

#[test]
fn commit_after_rollback_is_conflict() {
    let mut s = MvccStore::new();
    let k = b"k".to_vec();
    assert!(s.prewrite(&vec![put(b"k", b"v")], &k, 10, 3000).is_ok());
    assert!(s.rollback(&vec![k.clone()], 10).is_ok());
    let r = s.commit(&vec![k.clone()], 10, 11);
    match r {
        Err(TxnError::AlreadyRolledBack { key, start_ts }) => {
            assert_eq!(key, k);
            assert_eq!(start_ts, 10);
        }
        other => panic!("expected already-rolled-back, got {:?}", other),
    }
}

#[test]
fn commit_is_idempotent() {
    let mut s = MvccStore::new();
    let k = b"k".to_vec();
    assert!(s.prewrite(&vec![put(b"k", b"v")], &k, 10, 3000).is_ok());
    assert!(s.commit(&vec![k.clone()], 10, 11).is_ok());
    assert!(s.commit(&vec![k.clone()], 10, 11).is_ok());
    assert_eq!(s.read(&k, 12).unwrap(), Some(b"v".to_vec()));
}

#[test]
fn prewrite_is_idempotent_for_same_transaction() {
    let mut s = MvccStore::new();
    let k = b"k".to_vec();
    assert!(s.prewrite(&vec![put(b"k", b"v")], &k, 10, 3000).is_ok());
    assert!(s.prewrite(&vec![put(b"k", b"v")], &k, 10, 3000).is_ok());
}

#[test]
fn newer_committed_write_blocks_old_prewrite() {
    let mut s = MvccStore::new();
    let k = b"k".to_vec();
    assert!(s.prewrite(&vec![put(b"k", b"v")], &k, 10, 3000).is_ok());
    assert!(s.commit(&vec![k.clone()], 10, 11).is_ok());
    let r = s.prewrite(&vec![put(b"k", b"w")], &k, 5, 3000);
    match r {
        Err(TxnError::WriteConflict { key, start_ts, conflict_commit_ts }) => {
            assert_eq!(key, k);
            assert_eq!(start_ts, 5);
            assert_eq!(conflict_commit_ts, 11);
        }
        other => panic!("expected write conflict, got {:?}", other),
    }
}

#[test]
fn read_under_lock_reports_key_is_locked() {
    let mut s = MvccStore::new();
    let k = b"k".to_vec();
    assert!(s.prewrite(&vec![put(b"k", b"v")], &k, 10, 777).is_ok());
    match s.read(&k, 15) {
        Err(TxnError::KeyIsLocked { key, primary, lock_ts, ttl }) => {
            assert_eq!(key, k);
            assert_eq!(primary, k);
            assert_eq!(lock_ts, 10);
            assert_eq!(ttl, 777);
        }
        other => panic!("expected key-is-locked, got {:?}", other),
    }
    // a snapshot from before the transaction began is not blocked
    assert_eq!(s.read(&k, 9).unwrap(), None);
}

#[test]
fn long_values_round_trip_through_the_long_value_store() {
    let mut s = MvccStore::new();
    let k = b"k".to_vec();
    let big = vec![7u8; 100];
    assert!(s.prewrite(&vec![Mutation::Put { key: k.clone(), value: big.clone() }], &k, 10, 0).is_ok());
    assert!(s.commit(&vec![k.clone()], 10, 11).is_ok());
    assert_eq!(s.read(&k, 11).unwrap(), Some(big));
}

#[test]
fn delete_makes_key_absent_after_commit() {
    let mut s = MvccStore::new();
    let k = b"k".to_vec();
    assert!(s.prewrite(&vec![put(b"k", b"v")], &k, 10, 0).is_ok());
    assert!(s.commit(&vec![k.clone()], 10, 11).is_ok());
    assert!(s.prewrite(&vec![Mutation::Delete { key: k.clone() }], &k, 20, 0).is_ok());
    assert!(s.commit(&vec![k.clone()], 20, 21).is_ok());
    assert_eq!(s.read(&k, 22).unwrap(), None);
    assert_eq!(s.read(&k, 11).unwrap(), Some(b"v".to_vec()));
}

#[test]
fn cleanup_leaves_rollback_marker() {
    let mut s = MvccStore::new();
    let k = b"k".to_vec();
    assert!(s.cleanup(&k, 10).is_ok());
    // a late prewrite of the same transaction can no longer resurrect
    // the intent
    let r = s.prewrite(&vec![put(b"k", b"v")], &k, 10, 0);
    assert!(matches!(r, Err(TxnError::WriteConflict { .. })));
}

#[test]
fn rollback_of_committed_transaction_fails() {
    let mut s = MvccStore::new();
    let k = b"k".to_vec();
    assert!(s.prewrite(&vec![put(b"k", b"v")], &k, 10, 0).is_ok());
    assert!(s.commit(&vec![k.clone()], 10, 11).is_ok());
    match s.rollback(&vec![k.clone()], 10) {
        Err(TxnError::AlreadyCommitted { key, start_ts, commit_ts }) => {
            assert_eq!(key, k);
            assert_eq!(start_ts, 10);
            assert_eq!(commit_ts, 11);
        }
        other => panic!("expected already-committed, got {:?}", other),
    }
}

#[test]
fn resolve_lock_commits_all_keys_of_a_transaction() {
    let mut s = MvccStore::new();
    let ka = b"a".to_vec();
    let muts = vec![put(b"a", b"1"), put(b"b", b"2")];
    assert!(s.prewrite(&muts, &ka, 10, 0).is_ok());
    s.resolve_lock(10, Some(11));
    assert_eq!(s.read(&ka, 11).unwrap(), Some(b"1".to_vec()));
    assert_eq!(s.read(&b"b".to_vec(), 11).unwrap(), Some(b"2".to_vec()));
}

#[test]
fn resolve_lock_rolls_back_all_keys_of_a_transaction() {
    let mut s = MvccStore::new();
    let ka = b"a".to_vec();
    let muts = vec![put(b"a", b"1"), put(b"b", b"2")];
    assert!(s.prewrite(&muts, &ka, 10, 0).is_ok());
    s.resolve_lock(10, None);
    assert_eq!(s.read(&ka, 11).unwrap(), None);
    assert!(s.commit(&vec![ka.clone()], 10, 12).is_err());
}

#[test]
fn latches_serialize_commands_sharing_a_key() {
    let mut l = Latches::new();
    let shared = vec![b"k".to_vec(), b"x".to_vec()];
    let overlapping = vec![b"k".to_vec(), b"y".to_vec()];
    assert!(l.acquire(1, &shared));
    // the second command queues behind the first on the shared key
    assert!(!l.acquire(2, &overlapping));
    assert!(l.all_held(1, &shared));
    assert!(!l.all_held(2, &overlapping));
    // releasing the first promotes the second to the front everywhere
    let woken = l.release(1, &shared);
    assert!(woken.contains(&2));
    assert!(l.all_held(2, &overlapping));
}

#[test]
fn latches_grant_disjoint_key_sets_concurrently() {
    let mut l = Latches::new();
    assert!(l.acquire(1, &vec![b"a".to_vec(), b"b".to_vec()]));
    // no artificial serialization: a disjoint command is granted at
    // once while the first still holds its latches
    assert!(l.acquire(2, &vec![b"c".to_vec(), b"d".to_vec()]));
    assert!(l.all_held(1, &vec![b"a".to_vec(), b"b".to_vec()]));
    assert!(l.all_held(2, &vec![b"c".to_vec(), b"d".to_vec()]));
}

#[test]
fn engines_sync_succeeds() {
    let engines = Engines::new(Db::new(), Db::new(), true);
    assert!(engines.shared_block_cache);
    assert!(engines.sync_kv().is_ok());
    assert!(engines.sync_raft().is_ok());
}

#[test]
fn range_error_key_renders_as_uppercase_hex() {
    let e = EngineError::NotInRange {
        key: vec![0xAB, 0x01, 0x5F],
        region_id: 7,
        start: vec![],
        end: vec![0xFF],
    };
    assert_eq!(e.key_hex().unwrap(), "AB015F");
    let other = EngineError::RocksDb("io".to_string());
    assert!(other.key_hex().is_none());
}
