use rust_db::codec::{decode_pair, encode_pair, encode_wal_record, read_u64, replay_wal};
use rust_db::{
    DbError, GarbageCollector, GcConfig, LsmStorage, MvccStorage, TransactionId, TransactionManager,
    TransactionState, VersionTimestamp, VersionedRecord,
};

fn engine() -> MvccStorage {
    MvccStorage::new(LsmStorage::new())
}

fn commit_put(db: &mut MvccStorage, k: &[u8], v: &[u8]) {
    let mut tx = db.begin_transaction().ok().unwrap();
    tx.put(k.to_vec(), v.to_vec());
    assert!(db.commit_transaction(&mut tx).is_ok());
    assert_eq!(tx.state, TransactionState::Committed);
}

#[test]
fn scenario_snapshot_isolation() {
    let mut db = engine();
    let t1 = db.begin_transaction().ok().unwrap();
    let mut t2 = db.begin_transaction().ok().unwrap();
    t2.put(b"x".to_vec(), b"2".to_vec());
    assert!(db.commit_transaction(&mut t2).is_ok());
    assert_eq!(db.get_for_transaction(b"x", &t1), None);
    let t3 = db.begin_transaction().ok().unwrap();
    assert_eq!(db.get_for_transaction(b"x", &t3), Some(b"2".to_vec()));
}

#[test]
fn scenario_write_write_conflict() {
    let mut db = engine();
    let mut t1 = db.begin_transaction().ok().unwrap();
    let mut t2 = db.begin_transaction().ok().unwrap();
    t1.put(b"x".to_vec(), b"A".to_vec());
    assert!(db.commit_transaction(&mut t1).is_ok());
    t2.put(b"x".to_vec(), b"B".to_vec());
    let r = db.commit_transaction(&mut t2);
    assert!(matches!(r, Err(DbError::TransactionConflict(_))));
    assert_eq!(t2.state, TransactionState::Aborted);
    let t3 = db.begin_transaction().ok().unwrap();
    assert_eq!(db.get_for_transaction(b"x", &t3), Some(b"A".to_vec()));
    assert_eq!(db.get(b"x"), Some(b"A".to_vec()));
}

#[test]
fn committed_writes_visible_to_later_transactions() {
    let mut db = engine();
    let mut t = db.begin_transaction().ok().unwrap();
    t.put(b"a".to_vec(), b"1".to_vec());
    t.put(b"b".to_vec(), b"2".to_vec());
    t.delete(b"c".to_vec());
    assert!(db.commit_transaction(&mut t).is_ok());
    let reader = db.begin_transaction().ok().unwrap();
    assert_eq!(db.get_for_transaction(b"a", &reader), Some(b"1".to_vec()));
    assert_eq!(db.get_for_transaction(b"b", &reader), Some(b"2".to_vec()));
    assert_eq!(db.get_for_transaction(b"c", &reader), None);
    assert_eq!(db.get(b"b"), Some(b"2".to_vec()));
}

#[test]
fn own_writes_are_read_back() {
    let mut db = engine();
    let mut t = db.begin_transaction().ok().unwrap();
    t.put(b"k".to_vec(), b"mine".to_vec());
    assert_eq!(db.get_for_transaction(b"k", &t), Some(b"mine".to_vec()));
    t.delete(b"k".to_vec());
    assert_eq!(db.get_for_transaction(b"k", &t), None);
}

#[test]
fn snapshot_sees_the_version_current_at_its_time() {
    let mut db = engine();
    commit_put(&mut db, b"k", b"v1");
    let reader = db.begin_transaction().ok().unwrap();
    commit_put(&mut db, b"k", b"v2");
    assert_eq!(db.get_for_transaction(b"k", &reader), Some(b"v1".to_vec()));
    let later = db.begin_transaction().ok().unwrap();
    assert_eq!(db.get_for_transaction(b"k", &later), Some(b"v2".to_vec()));
    assert_eq!(db.versions.chain_len(b"k"), 2);
    let old = db.get_version(b"k", &reader).unwrap();
    assert_eq!(old.value, b"v1".to_vec());
    assert!(old.expired_tx.as_u64() != 0);
    let new = db.get_version(b"k", &later).unwrap();
    assert_eq!(new.value, b"v2".to_vec());
    assert_eq!(new.expired_tx.as_u64(), 0);
    assert!(db.get_version(b"missing", &later).is_none());
}

#[test]
fn disjoint_commits_in_either_order_agree() {
    let mut first = engine();
    let mut second = engine();
    let mut a1 = first.begin_transaction().ok().unwrap();
    let mut b1 = first.begin_transaction().ok().unwrap();
    a1.put(b"a".to_vec(), b"1".to_vec());
    b1.put(b"b".to_vec(), b"2".to_vec());
    assert!(first.commit_transaction(&mut a1).is_ok());
    assert!(first.commit_transaction(&mut b1).is_ok());
    let mut a2 = second.begin_transaction().ok().unwrap();
    let mut b2 = second.begin_transaction().ok().unwrap();
    a2.put(b"a".to_vec(), b"1".to_vec());
    b2.put(b"b".to_vec(), b"2".to_vec());
    assert!(second.commit_transaction(&mut b2).is_ok());
    assert!(second.commit_transaction(&mut a2).is_ok());
    assert_eq!(first.lsm.scan(b""), second.lsm.scan(b""));
}

#[test]
fn commit_of_inactive_transaction_fails() {
    let mut db = engine();
    let mut t = db.begin_transaction().ok().unwrap();
    assert!(db.commit_transaction(&mut t).is_ok());
    assert!(matches!(db.commit_transaction(&mut t), Err(DbError::Transaction(_))));
    let mut r = db.begin_transaction().ok().unwrap();
    assert!(db.rollback_transaction(&mut r).is_ok());
    assert_eq!(r.state, TransactionState::Aborted);
    assert!(db.rollback_transaction(&mut r).is_err());
}

#[test]
fn rollback_applies_nothing() {
    let mut db = engine();
    let mut t = db.begin_transaction().ok().unwrap();
    t.put(b"k".to_vec(), b"v".to_vec());
    assert!(db.rollback_transaction(&mut t).is_ok());
    let reader = db.begin_transaction().ok().unwrap();
    assert_eq!(db.get_for_transaction(b"k", &reader), None);
    assert_eq!(db.get(b"k"), None);
}

#[test]
fn transaction_manager_records_commits() {
    let mut m = TransactionManager::new();
    assert_eq!(m.get_latest_commit_timestamp().as_u64(), 0);
    let mut t = m.begin_transaction().ok().unwrap();
    assert_eq!(t.snapshot_ts.as_u64(), 0);
    assert_eq!(t.id.as_u64(), 1);
    assert!(m.oldest_active_snapshot_ts().is_some());
    assert!(!m.is_transaction_committed(t.id));
    assert!(m.commit_transaction(&mut t).is_ok());
    assert!(m.is_transaction_committed(t.id));
    let ts = m.get_commit_timestamp(t.id).unwrap();
    assert!(ts.as_u64() > 0);
    assert_eq!(m.get_latest_commit_timestamp(), ts);
    assert!(m.oldest_active_snapshot_ts().is_none());
    let t2 = m.begin_transaction().ok().unwrap();
    assert_eq!(t2.snapshot_ts, ts);
    assert_eq!(t2.id.as_u64(), 2);
    assert_eq!(m.get_commit_timestamp(TransactionId::new(77)), None);
}

#[test]
fn versioned_record_visibility() {
    let mut r = VersionedRecord::new(b"v".to_vec(), TransactionId::new(3));
    r.created_ts = VersionTimestamp::from_u64(10);
    assert!(r.is_visible(TransactionId::new(4), VersionTimestamp::from_u64(10)));
    assert!(!r.is_visible(TransactionId::new(4), VersionTimestamp::from_u64(9)));
    assert!(!r.is_visible(TransactionId::new(3), VersionTimestamp::from_u64(20)));
    r.mark_expired(TransactionId::new(5), VersionTimestamp::from_u64(15));
    assert!(r.is_visible(TransactionId::new(4), VersionTimestamp::from_u64(14)));
    assert!(!r.is_visible(TransactionId::new(4), VersionTimestamp::from_u64(15)));
}

#[test]
fn scenario_gc_keeps_one_version() {
    let mut db = engine();
    for i in 0..5 {
        commit_put(&mut db, b"k", format!("v{}", i).as_bytes());
    }
    commit_put(&mut db, b"other", b"x");
    let reader = db.begin_transaction().ok().unwrap();
    assert_eq!(db.versions.chain_len(b"k"), 5);
    let config = GcConfig { enabled: true, gc_interval_secs: 1, version_retention_secs: 0, min_versions_to_keep: 1 };
    let mut gc = GarbageCollector::new(config);
    let stats = gc.collect_at(&mut db, u64::MAX).ok().unwrap();
    assert_eq!(stats.versions_removed, 4);
    assert_eq!(db.versions.chain_len(b"k"), 1);
    assert_eq!(db.get_for_transaction(b"k", &reader), Some(b"v4".to_vec()));
}

#[test]
fn gc_spares_versions_an_active_snapshot_sees() {
    let mut db = engine();
    commit_put(&mut db, b"k", b"v0");
    let reader = db.begin_transaction().ok().unwrap();
    commit_put(&mut db, b"k", b"v1");
    commit_put(&mut db, b"k", b"v2");
    let config = GcConfig { enabled: true, gc_interval_secs: 1, version_retention_secs: 0, min_versions_to_keep: 1 };
    let mut gc = GarbageCollector::new(config);
    assert!(gc.collect_at(&mut db, u64::MAX).is_ok());
    assert_eq!(db.versions.chain_len(b"k"), 3);
    assert_eq!(db.get_for_transaction(b"k", &reader), Some(b"v0".to_vec()));
}

#[test]
fn gc_keeps_min_versions() {
    let mut db = engine();
    for i in 0..4 {
        commit_put(&mut db, b"k", format!("v{}", i).as_bytes());
    }
    commit_put(&mut db, b"z", b"x");
    let config = GcConfig { enabled: true, gc_interval_secs: 1, version_retention_secs: 0, min_versions_to_keep: 3 };
    let mut gc = GarbageCollector::new(config);
    assert!(gc.collect_at(&mut db, u64::MAX).is_ok());
    assert_eq!(db.versions.chain_len(b"k"), 3);
    assert_eq!(db.versions.chain_len(b"z"), 1);
}

#[test]
fn gc_in_progress_is_refused() {
    let mut db = engine();
    let mut gc = GarbageCollector::new(GcConfig::default());
    gc.is_collecting = true;
    assert!(matches!(gc.collect_at(&mut db, 5), Err(DbError::GarbageCollection(_))));
}

#[test]
fn gc_config_defaults() {
    let c = GcConfig::default();
    assert!(c.enabled);
    assert_eq!(c.gc_interval_secs, 3600);
    assert_eq!(c.version_retention_secs, 86400);
    assert_eq!(c.min_versions_to_keep, 1);
}

#[test]
fn pair_encoding_is_length_prefixed() {
    let mut out = Vec::new();
    assert!(encode_pair(&mut out, b"ab", b"c"));
    let mut expected = vec![2u8, 0, 0, 0, 0, 0, 0, 0, b'a', b'b'];
    expected.extend_from_slice(&[1u8, 0, 0, 0, 0, 0, 0, 0, b'c']);
    assert_eq!(out, expected);
    let (k, v, end) = decode_pair(&out, 0).unwrap();
    assert_eq!((k, v, end), (b"ab".to_vec(), b"c".to_vec(), out.len()));
    assert!(decode_pair(&out[..out.len() - 1], 0).is_none());
}

#[test]
fn wal_record_bytes() {
    let b = encode_wal_record(b"k", b"v", 7, 0x0102).unwrap();
    let mut expected = vec![1u8, 0, 0, 0, 0, 0, 0, 0, b'k', 1, 0, 0, 0, 0, 0, 0, 0, b'v'];
    expected.extend_from_slice(&[7u8, 0, 0, 0, 0, 0, 0, 0]);
    expected.extend_from_slice(&[2u8, 1, 0, 0, 0, 0, 0, 0]);
    assert_eq!(b, expected);
    assert_eq!(read_u64(&b, b.len() - 8), Some(0x0102));
    assert_eq!(read_u64(&b, b.len() - 7), None);
}

#[test]
fn recovery_replays_the_log() {
    let mut log = Vec::new();
    let writes: [(&[u8], &[u8]); 4] = [(b"a", b"1"), (b"b", b"2"), (b"a", b"3"), (b"b", b"")];
    for (i, (k, v)) in writes.iter().enumerate() {
        log.extend(encode_wal_record(k, v, i as u64, 100 + i as u64).unwrap());
    }
    let records = replay_wal(&log);
    assert_eq!(records.len(), 4);
    assert_eq!(records[2].key, b"a".to_vec());
    assert_eq!(records[2].seq, 2);
    assert_eq!(records[3].timestamp, 103);
    let mut db = LsmStorage::new();
    assert!(db.apply_wal(&records).is_ok());
    assert_eq!(db.get(b"a"), Some(b"3".to_vec()));
    assert_eq!(db.get(b"b"), None);
}

#[test]
fn replay_stops_at_a_torn_record() {
    let mut log = encode_wal_record(b"a", b"1", 0, 1).unwrap();
    let second = encode_wal_record(b"b", b"2", 1, 2).unwrap();
    log.extend_from_slice(&second[..second.len() - 3]);
    let records = replay_wal(&log);
    assert_eq!(records.len(), 1);
    assert_eq!(records[0].value, b"1".to_vec());
    assert!(replay_wal(&[]).is_empty());
}

#[test]
fn transaction_ids_resume_from_a_high_water_mark() {
    let mut m = TransactionManager::with_next_id(41);
    assert_eq!(m.next_transaction_id(), 41);
    let t = m.begin_transaction().ok().unwrap();
    assert_eq!(t.id.as_u64(), 41);
    assert_eq!(m.next_transaction_id(), 42);
    assert_eq!(TransactionManager::with_next_id(0).next_transaction_id(), 1);
    let mut db = MvccStorage::with_next_transaction_id(LsmStorage::new(), 7).ok().unwrap();
    let mut r = db.begin_transaction().ok().unwrap();
    assert_eq!(r.id.as_u64(), 8);
    assert!(MvccStorage::with_next_transaction_id(LsmStorage::new(), u64::MAX).is_err());
    assert!(db.rollback_transaction(&mut r).is_ok());
    assert!(matches!(db.rollback_transaction(&mut r), Err(DbError::Transaction(_))));
}

#[test]
fn can_commit_predicts_the_commit() {
    let mut db = engine();
    let mut t1 = db.begin_transaction().ok().unwrap();
    let mut t2 = db.begin_transaction().ok().unwrap();
    t1.put(b"x".to_vec(), b"A".to_vec());
    t2.put(b"x".to_vec(), b"B".to_vec());
    assert!(db.can_commit(&t1));
    assert!(db.commit_transaction(&mut t1).is_ok());
    assert!(!db.can_commit(&t1));
    assert!(!db.can_commit(&t2));
    assert!(db.commit_transaction(&mut t2).is_err());
}

#[test]
fn writes_outside_transactions_respect_snapshots() {
    let mut lsm = LsmStorage::new();
    assert!(lsm.put(b"old", b"1").is_ok());
    let mut db = MvccStorage::new(lsm);
    let t = db.begin_transaction().ok().unwrap();
    assert_eq!(db.get_for_transaction(b"old", &t), Some(b"1".to_vec()));
    assert!(db.can_put(b"new", b"2"));
    assert!(db.put(b"new", b"2").is_ok());
    assert!(db.delete(b"old").is_ok());
    assert_eq!(db.get_for_transaction(b"new", &t), None);
    assert_eq!(db.get_for_transaction(b"old", &t), Some(b"1".to_vec()));
    assert_eq!(db.scan_for_transaction(b"", &t), vec![(b"old".to_vec(), b"1".to_vec())]);
    let later = db.begin_transaction().ok().unwrap();
    assert_eq!(db.get_for_transaction(b"new", &later), Some(b"2".to_vec()));
    assert_eq!(db.get_for_transaction(b"old", &later), None);
    assert_eq!(db.get(b"new"), Some(b"2".to_vec()));
}
