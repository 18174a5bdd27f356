use rust_db::codec::encode_wal_record;
use rust_db::index::{IndexDescriptor, IndexManager, IndexType};
use rust_db::sstfile::{decode_run, encode_run};
use rust_db::{LsmStorage, MemTable, MvccStorage, SSTable};

fn run_of(level: u32, ts: u64, pairs: &[(&str, &str)]) -> SSTable {
    let mut m = MemTable::with_threshold(u64::MAX);
    for (k, v) in pairs {
        m.insert(k.as_bytes().to_vec(), v.as_bytes().to_vec());
    }
    SSTable::from_memtable(level, ts, m)
}

#[test]
fn run_file_round_trip() {
    let run = run_of(2, 12345, &[("b", "2"), ("a", "1"), ("c", "")]);
    let bytes = encode_run(&run).unwrap();
    let back = decode_run(&bytes).unwrap();
    assert_eq!(back.level, 2);
    assert_eq!(back.created_ts, 12345);
    assert_eq!(back.size(), run.size());
    assert_eq!(back.len(), 3);
    assert_eq!(back.get(b"a"), Some(b"1".to_vec()));
    assert_eq!(back.get(b"c"), Some(Vec::new()));
    assert_eq!(back.get(b"d"), None);
}

#[test]
fn run_file_layout() {
    let run = run_of(1, 7, &[("k", "v")]);
    let bytes = encode_run(&run).unwrap();
    let mut expected = vec![1u8, 0, 0, 0, 0, 0, 0, 0, b'k', 1, 0, 0, 0, 0, 0, 0, 0, b'v'];
    expected.extend_from_slice(&[1u8, 0, 0, 0, 0, 0, 0, 0, b'k', 1, 0, 0, 0, 0, 0, 0, 0, b'k']);
    expected.extend_from_slice(&[1u8, 0, 0, 0, 0, 0, 0, 0]);
    expected.extend_from_slice(&[1u8, 0, 0, 0, 0, 0, 0, 0]);
    expected.extend_from_slice(&[7u8, 0, 0, 0, 0, 0, 0, 0]);
    expected.extend_from_slice(&[18u8, 0, 0, 0, 0, 0, 0, 0]);
    assert_eq!(bytes, expected);
}

#[test]
fn empty_run_round_trip() {
    let run = run_of(0, 1, &[]);
    let bytes = encode_run(&run).unwrap();
    assert_eq!(bytes.len(), 48);
    let back = decode_run(&bytes).unwrap();
    assert_eq!(back.len(), 0);
}

#[test]
fn malformed_run_file_is_refused() {
    assert!(decode_run(&[]).is_none());
    assert!(decode_run(&[0u8; 47]).is_none());
    let run = run_of(0, 1, &[("a", "1"), ("b", "2")]);
    let mut bytes = encode_run(&run).unwrap();
    bytes.truncate(bytes.len() - 1);
    assert!(decode_run(&bytes).is_none());
    let mut swapped = encode_run(&run).unwrap();
    swapped[8] = b'c';
    assert!(decode_run(&swapped).is_none());
}

#[test]
fn index_keys_and_lookup() {
    let mut idx = IndexManager::new();
    let desc = IndexDescriptor { name: "email".to_string(), field: "email".to_string(), index_type: IndexType::Hash };
    assert!(idx.create_index(desc).is_ok());
    assert!(idx.has_index("email"));
    assert_eq!(idx.build_index_prefix("email", b"x"), b"index:email:x:".to_vec());
    let key = idx.build_index_key("email", b"x", b"users:1");
    assert_eq!(key, b"index:email:x:users:1".to_vec());
    assert_eq!(idx.extract_record_key(&key), b"users:1".to_vec());
    assert_eq!(idx.extract_record_key(b"index:only"), Vec::<u8>::new());
    let mut db = LsmStorage::new();
    assert!(idx.update_index(&mut db, "email", b"users:1", b"x").is_ok());
    assert!(idx.update_index(&mut db, "email", b"users:2", b"x").is_ok());
    assert!(idx.update_index(&mut db, "email", b"users:3", b"y").is_ok());
    assert!(idx.update_index(&mut db, "missing", b"users:4", b"x").is_ok());
    assert_eq!(idx.lookup_index(&db, "email", b"x"), vec![b"users:1".to_vec(), b"users:2".to_vec()]);
    assert!(idx.drop_index("email").is_ok());
    assert!(!idx.has_index("email"));
}

#[test]
fn transactional_scan_sees_its_snapshot_and_own_writes() {
    let mut db = MvccStorage::new(LsmStorage::new());
    let mut w = db.begin_transaction().ok().unwrap();
    w.put(b"p:1".to_vec(), b"a".to_vec());
    w.put(b"p:2".to_vec(), b"b".to_vec());
    assert!(db.commit_transaction(&mut w).is_ok());
    let mut t = db.begin_transaction().ok().unwrap();
    let mut later = db.begin_transaction().ok().unwrap();
    later.put(b"p:3".to_vec(), b"c".to_vec());
    assert!(db.commit_transaction(&mut later).is_ok());
    t.delete(b"p:1".to_vec());
    t.put(b"p:4".to_vec(), b"d".to_vec());
    assert!(db.put(b"q:1", b"x").is_ok());
    let got = db.scan_for_transaction(b"p:", &t);
    assert_eq!(got, vec![(b"p:2".to_vec(), b"b".to_vec()), (b"p:4".to_vec(), b"d".to_vec())]);
}

#[test]
fn recovery_orders_runs_and_replays_log() {
    let runs = vec![
        run_of(1, 5, &[("a", "deep"), ("b", "deep")]),
        run_of(0, 8, &[("a", "newer")]),
        run_of(0, 6, &[("a", "older"), ("c", "l0")]),
    ];
    let mut log = encode_wal_record(b"c", b"logged", 0, 1).unwrap();
    let whole = log.len();
    log.extend_from_slice(&[9u8, 0, 0]);
    let (db, end) = LsmStorage::recover(runs, &log, u64::MAX).ok().unwrap();
    assert_eq!(end, whole);
    let order: Vec<(u32, u64)> = db.catalog.runs.iter().map(|r| (r.level, r.created_ts)).collect();
    assert_eq!(order, vec![(0, 8), (0, 6), (1, 5)]);
    assert!(db.last_run_ts >= 8);
    assert_eq!(db.get(b"a"), Some(b"newer".to_vec()));
    assert_eq!(db.get(b"b"), Some(b"deep".to_vec()));
    assert_eq!(db.get(b"c"), Some(b"logged".to_vec()));
}

#[test]
fn malformed_run_is_refused_on_recovery() {
    let mut bad = run_of(0, 1, &[("a", "1")]);
    bad.size = 99;
    assert!(!bad.is_well_formed());
    assert!(run_of(0, 1, &[("a", "1")]).is_well_formed());
    assert!(matches!(LsmStorage::recover(vec![bad], &[], 10), Err(rust_db::DbError::Serialization(_))));
}
