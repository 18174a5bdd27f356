use rust_db::compaction::merge_sstables;
use rust_db::keys::{compare_keys, copy_bytes, starts_with};
use rust_db::{
    CompactionConfig, CompactionManager, CompactionStrategy, DbError, LsmStorage, MemTable, SSTable,
};

fn kv(k: &str, v: &str) -> (Vec<u8>, Vec<u8>) {
    (k.as_bytes().to_vec(), v.as_bytes().to_vec())
}

#[test]
fn scenario_put_get_scan_on_empty_engine() {
    let mut db = LsmStorage::new();
    assert!(db.put(b"a", b"1").is_ok());
    assert!(db.put(b"b", b"2").is_ok());
    assert_eq!(db.get(b"a"), Some(b"1".to_vec()));
    assert_eq!(db.scan(b""), vec![kv("a", "1"), kv("b", "2")]);
}

#[test]
fn scenario_put_then_delete() {
    let mut db = LsmStorage::new();
    assert!(db.put(b"k", b"v1").is_ok());
    assert!(db.delete(b"k").is_ok());
    assert_eq!(db.get(b"k"), None);
    assert_eq!(db.scan(b"k"), Vec::<(Vec<u8>, Vec<u8>)>::new());
}

#[test]
fn scenario_flush_trigger() {
    let mut db = LsmStorage::new();
    let value = vec![7u8; 1024];
    for i in 0..2000u32 {
        let key = format!("key{:05}", i).into_bytes();
        assert!(db.put(&key, &value).is_ok());
        if i + 1 == 1024 {
            assert!(!db.catalog.runs.is_empty());
            assert_eq!(db.catalog.runs[db.catalog.runs.len() - 1].level, 0);
        }
    }
    for i in 0..2000u32 {
        let key = format!("key{:05}", i).into_bytes();
        assert_eq!(db.get(&key), Some(value.clone()));
    }
}

#[test]
fn put_then_get_returns_value() {
    let mut db = LsmStorage::new();
    assert!(db.put(b"x", b"hello").is_ok());
    assert_eq!(db.get(b"x"), Some(b"hello".to_vec()));
    assert!(db.put(b"y", b"other").is_ok());
    assert_eq!(db.get(b"x"), Some(b"hello".to_vec()));
    assert!(db.put(b"x", b"newer").is_ok());
    assert_eq!(db.get(b"x"), Some(b"newer".to_vec()));
}

#[test]
fn put_twice_same_as_once() {
    let mut once = LsmStorage::new();
    let mut twice = LsmStorage::new();
    assert!(once.put(b"k", b"v").is_ok());
    assert!(twice.put(b"k", b"v").is_ok());
    assert!(twice.put(b"k", b"v").is_ok());
    assert_eq!(once.get(b"k"), twice.get(b"k"));
    assert_eq!(once.scan(b""), twice.scan(b""));
    assert_eq!(once.memtable.size_bytes(), twice.memtable.size_bytes());
}

#[test]
fn scan_holds_exactly_live_prefixed_keys() {
    let mut db = LsmStorage::new();
    for (k, v) in [("user:1", "a"), ("user:2", "b"), ("users", "c"), ("item:1", "d"), ("user:3", "e")] {
        assert!(db.put(k.as_bytes(), v.as_bytes()).is_ok());
    }
    assert!(db.delete(b"user:2").is_ok());
    assert_eq!(db.scan(b"user:"), vec![kv("user:1", "a"), kv("user:3", "e")]);
    assert_eq!(db.scan(b"user"), vec![kv("user:1", "a"), kv("user:3", "e"), kv("users", "c")]);
    assert_eq!(db.scan(b"zzz"), Vec::<(Vec<u8>, Vec<u8>)>::new());
}

#[test]
fn scan_merges_runs_newest_first() {
    let mut db = LsmStorage::with_flush_threshold(u64::MAX);
    assert!(db.put(b"a", b"old").is_ok());
    assert!(db.put(b"b", b"keep").is_ok());
    assert!(db.put(b"c", b"gone").is_ok());
    assert!(db.flush_memtable());
    assert!(db.put(b"a", b"new").is_ok());
    assert!(db.delete(b"c").is_ok());
    assert!(db.flush_memtable());
    assert!(db.put(b"d", b"mem").is_ok());
    assert_eq!(db.scan(b""), vec![kv("a", "new"), kv("b", "keep"), kv("d", "mem")]);
    assert_eq!(db.get(b"c"), None);
    assert_eq!(db.get(b"a"), Some(b"new".to_vec()));
}

#[test]
fn flush_keeps_every_read() {
    let mut db = LsmStorage::with_flush_threshold(u64::MAX);
    assert!(db.put(b"a", b"1").is_ok());
    assert!(db.put(b"b", b"2").is_ok());
    assert!(db.delete(b"b").is_ok());
    let before = (db.get(b"a"), db.get(b"b"), db.scan(b""));
    assert!(db.flush_memtable());
    assert_eq!(db.memtable.len(), 0);
    assert_eq!(db.catalog.runs.len(), 1);
    assert_eq!((db.get(b"a"), db.get(b"b"), db.scan(b"")), before);
}

#[test]
fn flush_of_empty_memtable_does_nothing() {
    let mut db = LsmStorage::new();
    assert!(!db.flush_memtable());
    assert_eq!(db.catalog.runs.len(), 0);
}

#[test]
fn memtable_tracks_size_exactly() {
    let mut m = MemTable::with_threshold(10);
    m.insert(b"ab".to_vec(), b"cde".to_vec());
    assert_eq!(m.size_bytes(), 5);
    m.insert(b"ab".to_vec(), b"c".to_vec());
    assert_eq!(m.size_bytes(), 3);
    m.insert(b"x".to_vec(), b"yyyyyy".to_vec());
    assert_eq!(m.size_bytes(), 10);
    assert!(!m.should_flush());
    m.insert(b"z".to_vec(), Vec::new());
    assert_eq!(m.size_bytes(), 11);
    assert!(m.should_flush());
    assert_eq!(m.len(), 3);
    assert_eq!(m.get(b"ab"), Some(b"c".to_vec()));
    assert_eq!(m.get(b"q"), None);
    assert_eq!(m.scan(b"a"), vec![kv("ab", "c")]);
}

#[test]
fn memtable_default_threshold_is_one_mib() {
    let m = MemTable::new();
    assert_eq!(m.flush_threshold, 1024 * 1024);
    assert_eq!(m.size_bytes(), 0);
}

#[test]
fn keys_compare_lexicographically() {
    assert_eq!(compare_keys(b"a", b"b"), -1);
    assert_eq!(compare_keys(b"b", b"a"), 1);
    assert_eq!(compare_keys(b"ab", b"ab"), 0);
    assert_eq!(compare_keys(b"ab", b"abc"), -1);
    assert_eq!(compare_keys(b"", b"a"), -1);
    assert!(starts_with(b"index:x", b"index:"));
    assert!(!starts_with(b"ind", b"index:"));
    assert_eq!(copy_bytes(b"xyz"), b"xyz".to_vec());
}

fn run_of(level: u32, ts: u64, pairs: &[(&str, &str)]) -> SSTable {
    let mut m = MemTable::with_threshold(u64::MAX);
    for (k, v) in pairs {
        m.insert(k.as_bytes().to_vec(), v.as_bytes().to_vec());
    }
    SSTable::from_memtable(level, ts, m)
}

#[test]
fn merge_keeps_newest_value() {
    let runs = vec![
        run_of(0, 3, &[("a", "3"), ("c", "")]),
        run_of(0, 2, &[("a", "2"), ("b", "2")]),
        run_of(0, 1, &[("b", "1"), ("c", "1"), ("d", "1")]),
    ];
    let merged = merge_sstables(&runs, 0, 3, 1, 9, false).ok().unwrap();
    assert_eq!(merged.level, 1);
    assert_eq!(merged.get(b"a"), Some(b"3".to_vec()));
    assert_eq!(merged.get(b"b"), Some(b"2".to_vec()));
    assert_eq!(merged.get(b"c"), Some(Vec::new()));
    assert_eq!(merged.get(b"d"), Some(b"1".to_vec()));
    assert_eq!(merged.size(), 2 + 2 + 1 + 2);
    let bottom = merge_sstables(&runs, 0, 3, 1, 9, true).ok().unwrap();
    assert_eq!(bottom.get(b"c"), None);
    assert_eq!(bottom.len(), 3);
}

#[test]
fn scenario_leveled_compaction() {
    let mut db = LsmStorage::with_flush_threshold(u64::MAX);
    for i in 0..10 {
        let k = format!("key{}", i);
        assert!(db.put(k.as_bytes(), format!("old{}", i).as_bytes()).is_ok());
    }
    assert!(db.flush_memtable());
    for i in 0..10 {
        let k = format!("key{}", i);
        assert!(db.put(k.as_bytes(), format!("new{}", i).as_bytes()).is_ok());
    }
    assert!(db.flush_memtable());
    assert_eq!(db.catalog.runs.len(), 2);
    let mut config = CompactionConfig::default();
    config.strategy = CompactionStrategy::Leveled { level_size_multiplier: 10, level0_sstables_trigger: 2 };
    let mut manager = CompactionManager::new(config);
    let stats = manager.trigger_compaction(&mut db).ok().unwrap();
    assert_eq!(stats.sstables_merged, 2);
    assert_eq!(db.catalog.runs.len(), 1);
    assert_eq!(db.catalog.runs[0].level, 1);
    for i in 0..10 {
        let k = format!("key{}", i);
        assert_eq!(db.get(k.as_bytes()), Some(format!("new{}", i).into_bytes()));
    }
}

#[test]
fn compaction_without_inputs_is_a_no_op() {
    let mut db = LsmStorage::new();
    assert!(db.put(b"a", b"1").is_ok());
    let mut manager = CompactionManager::new(CompactionConfig::default());
    let stats = manager.trigger_compaction(&mut db).ok().unwrap();
    assert_eq!(stats.sstables_merged, 0);
    assert_eq!(stats.space_reclaimed, 0);
    assert_eq!(db.catalog.runs.len(), 0);
    assert_eq!(db.get(b"a"), Some(b"1".to_vec()));
}

#[test]
fn compaction_in_progress_is_refused() {
    let mut db = LsmStorage::new();
    let mut manager = CompactionManager::new(CompactionConfig::default());
    manager.is_compacting = true;
    assert!(matches!(manager.trigger_compaction(&mut db), Err(DbError::Compaction(_))));
}

#[test]
fn size_tiered_compaction_merges_neighbours_of_one_bucket() {
    let mut db = LsmStorage::with_flush_threshold(u64::MAX);
    assert!(db.put(b"a", b"1").is_ok());
    assert!(db.flush_memtable());
    assert!(db.put(b"a", b"2").is_ok());
    assert!(db.put(b"b", b"2").is_ok());
    assert!(db.flush_memtable());
    let mut config = CompactionConfig::default();
    config.strategy = CompactionStrategy::SizeTiered { min_sstable_size: 0, max_sstable_size: 1000, bucket_count: 4 };
    let mut manager = CompactionManager::new(config);
    let stats = manager.trigger_compaction(&mut db).ok().unwrap();
    assert_eq!(stats.sstables_merged, 2);
    assert_eq!(db.catalog.runs.len(), 1);
    assert_eq!(db.get(b"a"), Some(b"2".to_vec()));
    assert_eq!(db.get(b"b"), Some(b"2".to_vec()));
}

#[test]
fn tiered_compaction_merges_a_full_tier() {
    let mut db = LsmStorage::with_flush_threshold(u64::MAX);
    for round in 0..3 {
        let v = format!("v{}", round);
        assert!(db.put(b"key", v.as_bytes()).is_ok());
        assert!(db.flush_memtable());
    }
    let mut config = CompactionConfig::default();
    config.strategy = CompactionStrategy::Tiered { max_tier_size: 5, tier_size_multiplier: 10 };
    let mut manager = CompactionManager::new(config);
    let stats = manager.trigger_compaction(&mut db).ok().unwrap();
    assert!(stats.sstables_merged >= 2);
    assert_eq!(db.get(b"key"), Some(b"v2".to_vec()));
}

#[test]
fn compaction_config_defaults() {
    let c = CompactionConfig::default();
    assert_eq!(c.strategy, CompactionStrategy::Leveled { level_size_multiplier: 10, level0_sstables_trigger: 4 });
    assert!(c.enabled);
    assert_eq!(c.background_interval_secs, 300);
    assert_eq!(c.max_sstable_per_level, 10);
}
