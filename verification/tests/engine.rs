use lsm_tree::compact::{
    CompactionOptions, SimpleLeveledCompactionOptions, TieredCompactionOptions,
    LeveledCompactionOptions,
};
use lsm_tree::lsm_storage::{LsmStorageOptions, MiniLsm};

fn simple_options(trigger: usize) -> LsmStorageOptions {
    LsmStorageOptions {
        block_size: 64,
        target_sst_size: 1024,
        num_memtable_limit: 4,
        compaction_options: CompactionOptions::Simple(SimpleLeveledCompactionOptions {
            size_ratio_percent: 200,
            level0_file_num_compaction_trigger: trigger,
            max_levels: 4,
        }),
        enable_wal: true,
        serializable: false,
    }
}

fn put(db: &mut MiniLsm, k: &str, v: &str) {
    db.put(k.as_bytes().to_vec(), v.as_bytes().to_vec()).unwrap();
}

fn get(db: &MiniLsm, k: &str) -> Option<Vec<u8>> {
    db.get(&k.as_bytes().to_vec())
}

#[test]
fn put_then_get_returns_latest() {
    let mut db = MiniLsm::open(simple_options(2)).unwrap();
    put(&mut db, "alpha", "1");
    put(&mut db, "beta", "2");
    put(&mut db, "alpha", "3");
    assert_eq!(get(&db, "alpha"), Some(b"3".to_vec()));
    assert_eq!(get(&db, "beta"), Some(b"2".to_vec()));
    assert_eq!(get(&db, "gamma"), None);
}

#[test]
fn latest_value_survives_flush_and_compaction() {
    let mut db = MiniLsm::open(simple_options(2)).unwrap();
    for round in 0..3 {
        for i in 0..20 {
            put(&mut db, &format!("key{i:03}"), &format!("v{round}-{i}"));
        }
        assert!(db.force_freeze_memtable());
        assert!(db.force_flush());
    }
    while db.trigger_compaction() {}
    for i in 0..20 {
        assert_eq!(
            get(&db, &format!("key{i:03}")),
            Some(format!("v2-{i}").into_bytes()),
            "key{i:03} must hold the most recent value"
        );
    }
}

#[test]
fn delete_shadows_older_levels() {
    let mut db = MiniLsm::open(simple_options(2)).unwrap();
    put(&mut db, "doomed", "old");
    put(&mut db, "kept", "ok");
    assert!(db.force_freeze_memtable());
    assert!(db.force_flush());
    db.delete(b"doomed".to_vec()).unwrap();
    assert_eq!(get(&db, "doomed"), None);
    assert!(db.force_freeze_memtable());
    assert!(db.force_flush());
    assert_eq!(get(&db, "doomed"), None);
    while db.trigger_compaction() {}
    assert_eq!(get(&db, "doomed"), None);
    assert_eq!(get(&db, "kept"), Some(b"ok".to_vec()));
}

#[test]
fn scan_returns_ascending_latest_values() {
    let mut db = MiniLsm::open(simple_options(2)).unwrap();
    put(&mut db, "b", "1");
    put(&mut db, "d", "2");
    put(&mut db, "a", "3");
    put(&mut db, "c", "4");
    put(&mut db, "b", "5");
    db.delete(b"d".to_vec()).unwrap();
    let out = db.scan(&b"a".to_vec(), &b"z".to_vec());
    let pairs: Vec<(Vec<u8>, Vec<u8>)> = out
        .iter()
        .map(|r| (r.key.clone(), r.value.clone().unwrap()))
        .collect();
    assert_eq!(
        pairs,
        vec![
            (b"a".to_vec(), b"3".to_vec()),
            (b"b".to_vec(), b"5".to_vec()),
            (b"c".to_vec(), b"4".to_vec()),
        ]
    );
}

#[test]
fn scan_respects_bounds() {
    let mut db = MiniLsm::open(simple_options(2)).unwrap();
    for k in ["a", "b", "c", "d", "e"] {
        put(&mut db, k, k);
    }
    let out = db.scan(&b"b".to_vec(), &b"d".to_vec());
    let keys: Vec<Vec<u8>> = out.iter().map(|r| r.key.clone()).collect();
    assert_eq!(keys, vec![b"b".to_vec(), b"c".to_vec(), b"d".to_vec()]);
}

#[test]
fn simple_compaction_scenario_drains_l0() {
    // Simple strategy with a level-0 trigger of two: after three flushed
    // tables, compaction must bring level 0 under the trigger and install
    // a merged level-1 table holding the union, latest value per key.
    let mut db = MiniLsm::open(simple_options(2)).unwrap();
    for round in 0..3 {
        for i in 0..8 {
            put(&mut db, &format!("k{i}"), &format!("r{round}"));
        }
        assert!(db.force_freeze_memtable());
        assert!(db.force_flush());
    }
    let (l0_before, _) = db.dump_structure();
    assert_eq!(l0_before.len(), 3);
    assert!(db.trigger_compaction());
    let (l0_after, levels) = db.dump_structure();
    assert!(l0_after.len() < 2);
    assert_eq!(levels[0].level, 1);
    assert!(!levels[0].ids.is_empty());
    for i in 0..8 {
        assert_eq!(get(&db, &format!("k{i}")), Some(b"r2".to_vec()));
    }
}

#[test]
fn leveled_mode_keeps_levels_disjoint() {
    let mut db = MiniLsm::open(LsmStorageOptions {
        block_size: 64,
        target_sst_size: 128,
        num_memtable_limit: 4,
        compaction_options: CompactionOptions::Leveled(LeveledCompactionOptions {
            level0_file_num_compaction_trigger: 2,
            max_levels: 4,
            base_level_size_mb: 1,
            level_size_multiplier: 2,
        }),
        enable_wal: true,
        serializable: false,
    })
    .unwrap();
    for round in 0..4 {
        for i in 0..30 {
            put(&mut db, &format!("key{:03}", (i * 7 + round) % 60), &format!("{round}"));
        }
        assert!(db.force_freeze_memtable());
        assert!(db.force_flush());
    }
    while db.trigger_compaction() {}
    // Every governed level must hold pairwise disjoint, ascending ranges.
    let state = &db.inner.state;
    for level in &state.levels {
        for w in level.tables.windows(2) {
            let left_last = &w[0].entries.last().unwrap().key;
            let right_first = &w[1].entries.first().unwrap().key;
            assert!(left_last < right_first, "level ranges must not overlap");
        }
    }
}

#[test]
fn tiered_mode_merges_runs() {
    let mut db = MiniLsm::open(LsmStorageOptions {
        block_size: 64,
        target_sst_size: 1024,
        num_memtable_limit: 4,
        compaction_options: CompactionOptions::Tiered(TieredCompactionOptions {
            num_tiers: 3,
            max_size_amplification_percent: 200,
            size_ratio: 1,
            min_merge_width: 2,
        }),
        enable_wal: true,
        serializable: false,
    })
    .unwrap();
    for round in 0..4 {
        for i in 0..10 {
            put(&mut db, &format!("t{i}"), &format!("{round}"));
        }
        assert!(db.force_freeze_memtable());
        assert!(db.force_flush());
    }
    while db.trigger_compaction() {}
    for i in 0..10 {
        assert_eq!(get(&db, &format!("t{i}")), Some(b"3".to_vec()));
    }
}

#[test]
fn invalid_options_are_rejected() {
    let mut options = simple_options(2);
    options.block_size = 0;
    assert!(MiniLsm::open(options).is_err());
}

#[test]
fn close_flushes_outstanding_memtables() {
    let mut db = MiniLsm::open(simple_options(2)).unwrap();
    put(&mut db, "x", "1");
    db.close();
    assert_eq!(db.inner.state.imm_memtables.len(), 0);
    assert_eq!(db.inner.state.memtable.entries.len(), 0);
    assert_eq!(get(&db, "x"), Some(b"1".to_vec()));
}

#[test]
fn dump_structure_reports_ids() {
    let mut db = MiniLsm::open(simple_options(10)).unwrap();
    put(&mut db, "a", "1");
    assert!(db.force_freeze_memtable());
    assert!(db.force_flush());
    let (l0, levels) = db.dump_structure();
    assert_eq!(l0.len(), 1);
    assert_eq!(levels.len(), 4);
    assert!(levels.iter().all(|l| l.ids.is_empty()));
}

#[test]
fn full_memtable_freezes_on_put() {
    // With a tiny target table size, writes rotate the memtable by
    // themselves; the frozen queue grows without explicit freezes.
    let mut db = MiniLsm::open(LsmStorageOptions {
        block_size: 64,
        target_sst_size: 32,
        num_memtable_limit: 4,
        compaction_options: CompactionOptions::Simple(SimpleLeveledCompactionOptions {
            size_ratio_percent: 200,
            level0_file_num_compaction_trigger: 2,
            max_levels: 4,
        }),
        enable_wal: true,
        serializable: false,
    })
    .unwrap();
    for i in 0..8 {
        put(&mut db, &format!("key-number-{i}"), "a-reasonably-long-value");
    }
    assert!(!db.inner.state.imm_memtables.is_empty());
    for i in 0..8 {
        assert_eq!(get(&db, &format!("key-number-{i}")), Some(b"a-reasonably-long-value".to_vec()));
    }
}
