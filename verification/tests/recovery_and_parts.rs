use lsm_tree::memtable::MemTable;
use lsm_tree::merge::merge_runs;
use lsm_tree::sstable::SsTable;
use lsm_tree::types::Record;

use lsm_tree::compact::{CompactionOptions, SimpleLeveledCompactionOptions};
use lsm_tree::lsm_storage::{LsmStorageOptions, MiniLsm};

use lsm_tree::lsm_storage::LsmError;

use rand::Rng;
use std::collections::BTreeMap;

fn rec(k: &str, v: Option<&str>, seq: u64) -> Record {
    Record { key: k.as_bytes().to_vec(), value: v.map(|s| s.as_bytes().to_vec()), seq }
}

#[test]
fn memtable_rebuild_replays_wal_exactly() {
    // A crash loses the sorted table but keeps the write-ahead log; the
    // rebuilt memtable must answer every read as the lost one did.
    let mut mt = MemTable::new(7);
    mt.put(b"b".to_vec(), Some(b"1".to_vec()), 1);
    mt.put(b"a".to_vec(), Some(b"2".to_vec()), 2);
    mt.put(b"b".to_vec(), None, 3);
    mt.put(b"c".to_vec(), Some(b"3".to_vec()), 4);
    let recovered = MemTable::rebuild(7, &mt.wal);
    for key in [b"a".to_vec(), b"b".to_vec(), b"c".to_vec(), b"d".to_vec()] {
        let before = mt.get(&key).map(|r| r.value.clone());
        let after = recovered.get(&key).map(|r| r.value.clone());
        assert_eq!(before, after);
    }
    assert_eq!(recovered.get(&b"b".to_vec()).unwrap().value, None);
}

#[test]
fn crash_mid_flush_loses_nothing() {
    // Freeze a memtable, then "crash" before the flush is recorded: the
    // pre-flush state rebuilt from the WAL and the post-flush state must
    // answer reads identically.
    let mut db = MiniLsm::open(LsmStorageOptions {
        block_size: 64,
        target_sst_size: 1024,
        num_memtable_limit: 4,
        compaction_options: CompactionOptions::Simple(SimpleLeveledCompactionOptions {
            size_ratio_percent: 200,
            level0_file_num_compaction_trigger: 2,
            max_levels: 4,
        }),
        enable_wal: true,
        serializable: false,
    })
    .unwrap();
    for i in 0..10 {
        db.put(format!("k{i}").into_bytes(), format!("v{i}").into_bytes()).unwrap();
    }
    assert!(db.force_freeze_memtable());
    let frozen_wal = db.inner.state.imm_memtables[0].wal.clone();
    let pre_flush = MemTable::rebuild(0, &frozen_wal);
    assert!(db.force_flush());
    for i in 0..10 {
        let key = format!("k{i}").into_bytes();
        let replayed = pre_flush.get(&key).map(|r| r.value.clone().unwrap());
        let flushed = db.get(&key);
        assert_eq!(replayed, flushed, "replay and flushed state must agree");
    }
}

#[test]
fn merge_keeps_newest_and_drops_bottom_tombstones() {
    // Runs ordered newest first; for equal keys the newest record wins.
    let newest = vec![rec("a", Some("new"), 9), rec("c", None, 8)];
    let oldest = vec![rec("a", Some("old"), 1), rec("b", Some("keep"), 2), rec("c", Some("old"), 3)];
    let merged = merge_runs(&vec![newest.clone(), oldest.clone()], false);
    let keys: Vec<&[u8]> = merged.iter().map(|r| r.key.as_slice()).collect();
    assert_eq!(keys, vec![b"a".as_slice(), b"b".as_slice(), b"c".as_slice()]);
    assert_eq!(merged[0].value.as_deref(), Some(b"new".as_slice()));
    assert_eq!(merged[2].value, None);

    let bottom = merge_runs(&vec![newest, oldest], true);
    let keys: Vec<&[u8]> = bottom.iter().map(|r| r.key.as_slice()).collect();
    assert_eq!(keys, vec![b"a".as_slice(), b"b".as_slice()]);
}

#[test]
fn sstable_lookup_finds_exactly_whats_there() {
    let entries: Vec<Record> = (0..100)
        .map(|i| rec(&format!("key{:03}", i * 2), Some(&format!("{i}")), i as u64))
        .collect();
    let table = SsTable::build(1, entries, 64);
    for i in 0..100u32 {
        let hit = table.get(&format!("key{:03}", i * 2).into_bytes());
        assert_eq!(hit.unwrap().value.as_deref(), Some(format!("{i}").as_bytes()));
        let miss = table.get(&format!("key{:03}", i * 2 + 1).into_bytes());
        assert!(miss.is_none());
    }
    assert!(table.index.len() > 1, "several blocks expected at this block size");
}

#[test]
fn random_round_trip_scan() {
    // Random pairs written in arbitrary order: a full scan returns them in
    // ascending key order with only the latest value per key.
    let mut rng = rand::thread_rng();
    let mut db = MiniLsm::open(LsmStorageOptions {
        block_size: 64,
        target_sst_size: 512,
        num_memtable_limit: 4,
        compaction_options: CompactionOptions::Simple(SimpleLeveledCompactionOptions {
            size_ratio_percent: 200,
            level0_file_num_compaction_trigger: 2,
            max_levels: 4,
        }),
        enable_wal: true,
        serializable: false,
    })
    .unwrap();
    let mut expected: BTreeMap<Vec<u8>, Vec<u8>> = BTreeMap::new();
    for n in 0..500u32 {
        let k = format!("k{:02}", rng.gen::<u8>() % 50).into_bytes();
        let v = format!("v{n}").into_bytes();
        expected.insert(k.clone(), v.clone());
        db.put(k, v).unwrap();
        if n % 97 == 96 {
            db.force_freeze_memtable();
            db.force_flush();
            db.trigger_compaction();
        }
    }
    let out = db.scan(&b"k".to_vec(), &b"l".to_vec());
    let got: Vec<(Vec<u8>, Vec<u8>)> = out
        .iter()
        .map(|r| (r.key.clone(), r.value.clone().unwrap()))
        .collect();
    let want: Vec<(Vec<u8>, Vec<u8>)> =
        expected.iter().map(|(k, v)| (k.clone(), v.clone())).collect();
    assert_eq!(got, want);
    for (k, v) in &expected {
        assert_eq!(db.get(k), Some(v.clone()));
    }
}

#[test]
fn serializable_conflict_is_rejected() {
    // Two transactions read the same key; the first to commit wins, the
    // second must fail with a conflict and leave no trace.
    let mut db = MiniLsm::open(LsmStorageOptions {
        block_size: 64,
        target_sst_size: 1024,
        num_memtable_limit: 4,
        compaction_options: CompactionOptions::Simple(SimpleLeveledCompactionOptions {
            size_ratio_percent: 200,
            level0_file_num_compaction_trigger: 2,
            max_levels: 4,
        }),
        enable_wal: true,
        serializable: true,
    })
    .unwrap();
    db.put(b"balance".to_vec(), b"100".to_vec()).unwrap();

    let mut t1 = db.inner.begin();
    let mut t2 = db.inner.begin();
    let seen1 = t1.read(&db.inner, &b"balance".to_vec());
    let seen2 = t2.read(&db.inner, &b"balance".to_vec());
    assert_eq!(seen1, Some(b"100".to_vec()));
    assert_eq!(seen2, Some(b"100".to_vec()));
    t1.write(b"balance".to_vec(), Some(b"50".to_vec()));
    t2.write(b"balance".to_vec(), Some(b"70".to_vec()));

    assert!(db.inner.commit(t1).is_ok());
    assert_eq!(db.get(&b"balance".to_vec()), Some(b"50".to_vec()));
    match db.inner.commit(t2) {
        Err(LsmError::Conflict) => {}
        other => panic!("expected a conflict, got {other:?}"),
    }
    assert_eq!(db.get(&b"balance".to_vec()), Some(b"50".to_vec()));
}

#[test]
fn transaction_reads_its_own_writes() {
    let db = MiniLsm::open(LsmStorageOptions {
        block_size: 64,
        target_sst_size: 1024,
        num_memtable_limit: 4,
        compaction_options: CompactionOptions::NoCompaction,
        enable_wal: false,
        serializable: true,
    })
    .unwrap();
    let mut t = db.inner.begin();
    assert_eq!(t.read(&db.inner, &b"a".to_vec()), None);
    t.write(b"a".to_vec(), Some(b"1".to_vec()));
    assert_eq!(t.read(&db.inner, &b"a".to_vec()), Some(b"1".to_vec()));
    t.write(b"a".to_vec(), None);
    assert_eq!(t.read(&db.inner, &b"a".to_vec()), None);
}

#[test]
fn non_conflicting_transactions_both_commit() {
    let mut db = MiniLsm::open(LsmStorageOptions {
        block_size: 64,
        target_sst_size: 1024,
        num_memtable_limit: 4,
        compaction_options: CompactionOptions::NoCompaction,
        enable_wal: false,
        serializable: true,
    })
    .unwrap();
    let mut t1 = db.inner.begin();
    let mut t2 = db.inner.begin();
    t1.read(&db.inner, &b"x".to_vec());
    t1.write(b"x".to_vec(), Some(b"1".to_vec()));
    t2.read(&db.inner, &b"y".to_vec());
    t2.write(b"y".to_vec(), Some(b"2".to_vec()));
    assert!(db.inner.commit(t1).is_ok());
    assert!(db.inner.commit(t2).is_ok());
    assert_eq!(db.get(&b"x".to_vec()), Some(b"1".to_vec()));
    assert_eq!(db.get(&b"y".to_vec()), Some(b"2".to_vec()));
}

#[test]
fn manifest_replay_matches_live_layout() {
    // Replaying the manifest alone reconstructs exactly the id layout the
    // running engine reports.
    let mut db = MiniLsm::open(LsmStorageOptions {
        block_size: 64,
        target_sst_size: 256,
        num_memtable_limit: 4,
        compaction_options: CompactionOptions::Simple(SimpleLeveledCompactionOptions {
            size_ratio_percent: 200,
            level0_file_num_compaction_trigger: 2,
            max_levels: 4,
        }),
        enable_wal: true,
        serializable: false,
    })
    .unwrap();
    for round in 0..3 {
        for i in 0..12 {
            db.put(format!("key{i}").into_bytes(), format!("{round}-{i}").into_bytes()).unwrap();
        }
        db.force_freeze_memtable();
        db.force_flush();
        db.trigger_compaction();
    }
    let depth = db.inner.state.levels.len();
    let recovered = lsm_tree::manifest::recover_layout(0, depth, &db.inner.manifest)
        .expect("a live engine's manifest must replay");
    let (l0, levels) = db.dump_structure();
    assert_eq!(recovered.l0, l0);
    assert_eq!(recovered.levels.len(), levels.len());
    for (got, want) in recovered.levels.iter().zip(levels.iter()) {
        assert_eq!(got, &want.ids);
    }
    assert_eq!(recovered.active, db.inner.state.memtable.id);
    let frozen_ids: Vec<u64> = db.inner.state.imm_memtables.iter().map(|m| m.id).collect();
    assert_eq!(recovered.frozen, frozen_ids);
}
