//! The storage engine: options, the inner engine and its public surface.
//!
//! `LsmStorageInner` owns the current snapshot, the id and sequence
//! counters and the manifest; `MiniLsm` is the thin public handle around
//! it. Every mutation keeps three things: the snapshot well formed, reads
//! consistent with the engine's key-value view, and the manifest replaying
//! to exactly the live id layout.

use vstd::prelude::*;

use crate::compact::{
    CompactionOptions, CompactionTask, compaction_options_wf, decide,
};
use crate::manifest::{
    ManifestRecord, layout_of, layout_replay, lemma_layout_after_compact_l0,
    lemma_layout_after_compact_level, lemma_layout_after_flush, lemma_layout_after_freeze,
    lemma_layout_same,
};
use crate::state::LsmStorageState;
use crate::types::{Record, RecordV, lemma_visible_head_insert};

verus! {

/// Why an operation could not run.
#[derive(Debug, Clone, Copy, PartialEq, Eq)]
pub enum LsmError {
    /// The write-sequence counter is spent.
    SequenceExhausted,
    /// An option value is outside the supported range.
    InvalidOptions,
    /// A serializable commit lost the race for a key it read.
    Conflict,
}

pub struct LsmStorageOptions {
    /// Bytes per table block.
    pub block_size: usize,
    /// Target bytes per table; memtables freeze and compaction outputs
    /// split at this size.
    pub target_sst_size: usize,
    /// How many frozen memtables may queue before writers must wait.
    pub num_memtable_limit: usize,
    pub compaction_options: CompactionOptions,
    pub enable_wal: bool,
    pub serializable: bool,
}

pub open spec fn options_wf(o: LsmStorageOptions) -> bool {
    &&& o.block_size > 0
    &&& o.target_sst_size > 0
    &&& compaction_options_wf(o.compaction_options)
}

pub struct LsmStorageInner {
    pub state: LsmStorageState,
    pub options: LsmStorageOptions,
    /// Next file or memtable-generation id; ids are never reused.
    pub next_id: u64,
    /// Next write sequence number; strictly increasing across writes.
    pub next_seq: u64,
    /// The durable log of state transitions, oldest first.
    pub manifest: Vec<ManifestRecord>,
    /// Committed transactions, for serializable conflict checks.
    pub commits: Vec<crate::txn::CommitRecord>,
}

impl LsmStorageInner {
    /// What a reader sees for each key.
    pub open spec fn kv(self, k: Seq<u8>) -> Option<Seq<u8>> {
        self.state.view_of(k)
    }

    pub open spec fn wf(self) -> bool {
        &&& self.state.wf()
        &&& options_wf(self.options)
        &&& self.next_seq >= 1
        &&& crate::state::ids_below(self.state, self.next_id)
        &&& crate::state::file_ids_distinct(self.state)
        &&& crate::state::mem_ids_distinct(self.state)
        &&& layout_replay(0, self.state.levels@.len() as int, self.manifest@)
            == layout_of(self.state)
        &&& crate::manifest::layout_ok(0, self.state.levels@.len() as int, self.manifest@)
    }

    /// Opens a fresh engine. Rejects option values whose arithmetic the
    /// controllers cannot carry out exactly.
    pub fn open(options: LsmStorageOptions) -> (r: Result<LsmStorageInner, LsmError>)
        ensures
            r is Ok <==> options_wf(options),
            r matches Ok(e) ==> e.wf() && forall|k: Seq<u8>| #[trigger] e.kv(k) is None,
    {
        let ok = options.block_size > 0 && options.target_sst_size > 0
            && match &options.compaction_options {
                CompactionOptions::NoCompaction => true,
                CompactionOptions::Simple(_) => true,
                CompactionOptions::Tiered(t) => t.max_size_amplification_percent <= 0xffff_ffff
                    && t.size_ratio <= 0xffff_ffff,
                CompactionOptions::Leveled(l) => l.base_level_size_mb <= 0xffff_ffff
                    && l.level_size_multiplier <= 0xffff_ffff,
            };
        if !ok {
            return Result::Err(LsmError::InvalidOptions);
        }
        let depth: usize = match &options.compaction_options {
            CompactionOptions::NoCompaction => 0,
            CompactionOptions::Simple(s) => s.max_levels,
            CompactionOptions::Tiered(t) => t.num_tiers,
            CompactionOptions::Leveled(l) => l.max_levels,
        };
        let state = LsmStorageState::new(0, depth);
        let e = LsmStorageInner {
            state,
            options,
            next_id: 1,
            next_seq: 1,
            manifest: Vec::new(),
            commits: Vec::new(),
        };
        proof {
            let lay = layout_replay(0, e.state.levels@.len() as int, e.manifest@);
            assert(lay.frozen =~= layout_of(e.state).frozen);
            assert(lay.l0 =~= layout_of(e.state).l0);
            assert forall|i: int| 0 <= i < e.state.levels@.len()
                implies #[trigger] lay.levels[i] == layout_of(e.state).levels[i] by {
                assert(lay.levels[i] =~= layout_of(e.state).levels[i]);
            }
            assert(lay.levels =~= layout_of(e.state).levels);
        }
        Result::Ok(e)
    }

    /// Writes a record into the active memtable under a fresh sequence
    /// number; `value == None` writes a tombstone.
    pub(crate) fn write_record(&mut self, key: Vec<u8>, value: Option<Vec<u8>>) -> (r: Result<(), LsmError>)
        requires
            old(self).wf(),
        ensures
            final(self).wf(),
            final(self).commits == old(self).commits,
            r is Ok <==> old(self).next_seq < u64::MAX,
            r is Ok ==> final(self).next_seq == old(self).next_seq + 1,
            r is Ok ==> final(self).kv(key@) == value.deep_view()
                && forall|k2: Seq<u8>| k2 != key@ ==> #[trigger] final(self).kv(k2) == old(self).kv(k2),
            r is Err ==> *final(self) == *old(self),
    {
        if self.next_seq == u64::MAX {
            return Result::Err(LsmError::SequenceExhausted);
        }
        let seq = self.next_seq;
        self.next_seq = self.next_seq + 1;
        let ghost old_runs = self.state.all_runs();
        let ghost old_state = self.state;
        let ghost rv = RecordV { key: key@, value: value.deep_view(), seq };
        self.state.memtable.put(key, value, seq);
        proof {
            let new_runs = self.state.all_runs();
            assert(new_runs.len() == old_runs.len());
            assert(new_runs[0] == self.state.memtable.entries.deep_view());
            assert(crate::types::run_map(new_runs[0])
                == crate::types::run_map(old_runs[0]).insert(rv.key, rv));
            assert forall|i: int| 1 <= i < old_runs.len()
                implies #[trigger] new_runs[i] == old_runs[i] by {
            }
            lemma_visible_head_insert(old_runs, new_runs, rv);
            lemma_layout_same(old_state, self.state);
        }
        // Rotate a full memtable, as long as the frozen queue has room;
        // when it has none, writers must wait for a flush instead.
        if self.state.memtable.size >= self.options.target_sst_size
            && self.state.imm_memtables.len() < self.options.num_memtable_limit {
            let _ = self.force_freeze_memtable();
        }
        Result::Ok(())
    }

    /// Stores `value` under `key`; the newest write wins every later read.
    pub fn put(&mut self, key: Vec<u8>, value: Vec<u8>) -> (r: Result<(), LsmError>)
        requires
            old(self).wf(),
        ensures
            final(self).wf(),
            r is Ok <==> old(self).next_seq < u64::MAX,
            r is Ok ==> final(self).kv(key@) == Option::Some(value@)
                && forall|k2: Seq<u8>| k2 != key@ ==> #[trigger] final(self).kv(k2) == old(self).kv(k2),
            r is Err ==> *final(self) == *old(self),
    {
        self.write_record(key, Option::Some(value))
    }

    /// Deletes `key` by writing a tombstone: later reads see it as absent,
    /// whatever older levels still hold.
    pub fn delete(&mut self, key: Vec<u8>) -> (r: Result<(), LsmError>)
        requires
            old(self).wf(),
        ensures
            final(self).wf(),
            r is Ok <==> old(self).next_seq < u64::MAX,
            r is Ok ==> final(self).kv(key@) is None
                && forall|k2: Seq<u8>| k2 != key@ ==> #[trigger] final(self).kv(k2) == old(self).kv(k2),
            r is Err ==> *final(self) == *old(self),
    {
        self.write_record(key, Option::None)
    }

    /// The most recently written value, or `None` after a delete or for a
    /// key never written.
    pub fn get(&self, key: &Vec<u8>) -> (r: Option<Vec<u8>>)
        requires
            self.wf(),
        ensures
            r.deep_view() == self.kv(key@),
    {
        self.state.get(key)
    }

    /// Every visible key in `[lower, upper]`, ascending, newest value each.
    pub fn scan(&self, lower: &Vec<u8>, upper: &Vec<u8>) -> (out: Vec<Record>)
        requires
            self.wf(),
        ensures
            crate::types::sorted_run(out.deep_view()),
            forall|k: Seq<u8>|
                #![trigger crate::types::run_map(out.deep_view()).contains_key(k)]
                crate::types::run_map(out.deep_view()).contains_key(k) <==> (
                    crate::order::lex_le(lower@, k) && crate::order::lex_le(k, upper@)
                        && self.kv(k) is Some),
            forall|k: Seq<u8>|
                #![trigger crate::types::run_map(out.deep_view())[k]]
                crate::types::run_map(out.deep_view()).contains_key(k)
                    ==> crate::types::run_map(out.deep_view())[k].value == self.kv(k)
                        && crate::types::run_map(out.deep_view())[k].key == k,
    {
        self.state.scan(lower, upper)
    }

    /// Rotates a full active memtable into the frozen queue, recording the
    /// new generation in the manifest. Does nothing when the memtable is
    /// empty or the id space is spent.
    pub fn force_freeze_memtable(&mut self) -> (did: bool)
        requires
            old(self).wf(),
        ensures
            final(self).wf(),
            forall|k: Seq<u8>| #[trigger] final(self).kv(k) == old(self).kv(k),
            final(self).commits == old(self).commits,
            final(self).next_seq == old(self).next_seq,
            did <==> (old(self).state.memtable.entries@.len() > 0 && old(self).next_id < u64::MAX),
            did ==> final(self).state.imm_memtables@.len()
                == old(self).state.imm_memtables@.len() + 1,
            did ==> final(self).state.memtable.entries@.len() == 0,
            did ==> final(self).next_id == old(self).next_id + 1,
            !did ==> *final(self) == *old(self),
    {
        if self.state.memtable.entries.len() == 0 || self.next_id == u64::MAX {
            return false;
        }
        let id = self.next_id;
        self.next_id = self.next_id + 1;
        let ghost old_state = self.state;
        self.state.freeze_memtable(id);
        let ghost old_manifest = self.manifest@;
        self.manifest.push(ManifestRecord::NewMemtable { id });
        proof {
            assert(self.manifest@.drop_last() =~= old_manifest);
            lemma_layout_after_freeze(old_state, self.state, id);
        }
        true
    }

    /// Flushes the oldest frozen memtable to a new level-0 table and
    /// records the transition. Does nothing when no memtable is frozen or
    /// the id space is spent.
    pub fn force_flush(&mut self) -> (did: bool)
        requires
            old(self).wf(),
        ensures
            final(self).wf(),
            forall|k: Seq<u8>| #[trigger] final(self).kv(k) == old(self).kv(k),
            final(self).commits == old(self).commits,
            final(self).next_seq == old(self).next_seq,
            did <==> (old(self).state.imm_memtables@.len() > 0 && old(self).next_id < u64::MAX),
            did ==> final(self).state.imm_memtables@.len()
                == old(self).state.imm_memtables@.len() - 1,
            did ==> final(self).state.l0_sstables@.len()
                == old(self).state.l0_sstables@.len() + 1,
            did ==> final(self).state.memtable == old(self).state.memtable,
            did ==> final(self).next_id == old(self).next_id + 1,
            !did ==> *final(self) == *old(self),
    {
        if self.state.imm_memtables.len() == 0 || self.next_id == u64::MAX {
            return false;
        }
        let sst_id = self.next_id;
        self.next_id = self.next_id + 1;
        let ghost old_state = self.state;
        let mem_id = self.state.flush_oldest(sst_id, self.options.block_size);
        let ghost old_manifest = self.manifest@;
        self.manifest.push(ManifestRecord::Flush { mem_id, sst_id });
        proof {
            assert(self.manifest@.drop_last() =~= old_manifest);
            lemma_layout_after_flush(old_state, self.state, mem_id, sst_id);
        }
        true
    }

    /// Asks the configured controller for a task and executes it: reads
    /// keep their values, superseded runs leave their levels.
    pub fn trigger_compaction(&mut self) -> (did: bool)
        requires
            old(self).wf(),
        ensures
            final(self).wf(),
            forall|k: Seq<u8>| #[trigger] final(self).kv(k) == old(self).kv(k),
            old(self).options.compaction_options is NoCompaction ==> !did && *final(self) == *old(self),
            did ==> final(self).manifest@.len() == old(self).manifest@.len() + 1,
            !did ==> final(self).manifest@ == old(self).manifest@,
            // When the configured strategy's trigger holds and the file-id
            // space suffices, the proposed merge is owed, with its effect.
            (old(self).options.compaction_options matches CompactionOptions::Simple(o)
                && crate::compact::simple_l0_due(old(self).state, o)
                && old(self).next_id + crate::state::l0_merge_input_total(old(self).state) <= u64::MAX)
                ==> did && final(self).state.l0_sstables@.len() == 0,
            forall|o: crate::compact::SimpleLeveledCompactionOptions, u: int|
                (old(self).options.compaction_options == CompactionOptions::Simple(o)
                    && !crate::compact::simple_l0_due(old(self).state, o)
                    && #[trigger] crate::compact::simple_level_due(old(self).state, o, u)
                    && (forall|v: int| 0 <= v < u ==> !crate::compact::simple_level_due(old(self).state, o, v))
                    && old(self).next_id + crate::state::level_merge_input_total(old(self).state, u) <= u64::MAX)
                    ==> did && final(self).state.levels@[u].tables@.len() == 0,
            (old(self).options.compaction_options matches CompactionOptions::Leveled(o)
                && crate::compact::leveled_l0_due(old(self).state, o)
                && old(self).next_id + crate::state::l0_merge_input_total(old(self).state) <= u64::MAX)
                ==> did && final(self).state.l0_sstables@.len() == 0,
            forall|o: crate::compact::LeveledCompactionOptions, u: int|
                (old(self).options.compaction_options == CompactionOptions::Leveled(o)
                    && !crate::compact::leveled_l0_due(old(self).state, o)
                    && #[trigger] crate::compact::leveled_level_due(old(self).state, o, u)
                    && (forall|v: int| 0 <= v < u ==> !crate::compact::leveled_level_due(old(self).state, o, v))
                    && old(self).next_id + crate::state::level_merge_input_total(old(self).state, u) <= u64::MAX)
                    ==> did && final(self).state.levels@[u].tables@.len() == 0,
            (old(self).options.compaction_options matches CompactionOptions::Tiered(o)
                && old(self).state.l0_sstables@.len() >= o.num_tiers
                && old(self).state.levels@.len() > 0
                && old(self).next_id + crate::state::l0_merge_input_total(old(self).state) <= u64::MAX)
                ==> did && final(self).state.l0_sstables@.len() == 0,
            (old(self).options.compaction_options matches CompactionOptions::Tiered(o)
                && (old(self).state.l0_sstables@.len() < o.num_tiers || old(self).state.levels@.len() == 0)
                && crate::compact::tiered_amp_due(old(self).state, o)
                && old(self).next_id + crate::state::level_merge_input_total(old(self).state, 0) <= u64::MAX)
                ==> did && final(self).state.levels@[0].tables@.len() == 0,
            forall|o: crate::compact::TieredCompactionOptions, u: int|
                (old(self).options.compaction_options == CompactionOptions::Tiered(o)
                    && (old(self).state.l0_sstables@.len() < o.num_tiers || old(self).state.levels@.len() == 0)
                    && !crate::compact::tiered_amp_due(old(self).state, o)
                    && #[trigger] crate::compact::tiered_ratio_due(old(self).state, o, u)
                    && (forall|v: int| 0 <= v < u ==> !crate::compact::tiered_ratio_due(old(self).state, o, v))
                    && old(self).next_id + crate::state::level_merge_input_total(old(self).state, u) <= u64::MAX)
                    ==> did && final(self).state.levels@[u].tables@.len() == 0,
    {
        let task = decide(&self.options.compaction_options, &self.state);
        match task {
            Option::None => false,
            Option::Some(CompactionTask::MergeL0) => {
                let first_id = self.next_id;
                let ghost old_state = self.state;
                let done = self.state.compact_l0_into_level1(
                    first_id,
                    self.options.target_sst_size,
                    self.options.block_size,
                );
                if !done {
                    return false;
                }
                let count = self.state.levels[0].tables.len();
                self.next_id = self.next_id.saturating_add(count as u64);
                let ghost old_manifest = self.manifest@;
                self.manifest.push(ManifestRecord::CompactL0 { first_id, count });
                proof {
                    assert(self.manifest@.drop_last() =~= old_manifest);
                    lemma_layout_after_compact_l0(old_state, self.state, first_id, count);
                }
                true
            },
            Option::Some(CompactionTask::MergeLevelDown { upper }) => {
                let first_id = self.next_id;
                let ghost old_state = self.state;
                let done = self.state.compact_level_down(
                    upper,
                    first_id,
                    self.options.target_sst_size,
                    self.options.block_size,
                );
                if !done {
                    proof {
                        // The premise's first-due level is the proposed one,
                        // so its id headroom would have forced the merge.
                        assert forall|o: crate::compact::SimpleLeveledCompactionOptions, u: int|
                            (old(self).options.compaction_options == CompactionOptions::Simple(o)
                                && !crate::compact::simple_l0_due(old(self).state, o)
                                && #[trigger] crate::compact::simple_level_due(old(self).state, o, u)
                                && (forall|v: int| 0 <= v < u
                                    ==> !crate::compact::simple_level_due(old(self).state, o, v))
                                && old(self).next_id
                                    + crate::state::level_merge_input_total(old(self).state, u) <= u64::MAX)
                            implies false by {
                            if u < upper as int {
                                assert(!crate::compact::simple_level_due(old(self).state, o, u));
                            } else if u > upper as int {
                                assert(!crate::compact::simple_level_due(old(self).state, o, upper as int));
                            } else {
                                assert(first_id
                                    + crate::state::level_merge_input_total(old(self).state, upper as int)
                                    <= u64::MAX);
                                assert(done);
                            }
                        }
                        assert forall|o: crate::compact::LeveledCompactionOptions, u: int|
                            (old(self).options.compaction_options == CompactionOptions::Leveled(o)
                                && !crate::compact::leveled_l0_due(old(self).state, o)
                                && #[trigger] crate::compact::leveled_level_due(old(self).state, o, u)
                                && (forall|v: int| 0 <= v < u
                                    ==> !crate::compact::leveled_level_due(old(self).state, o, v))
                                && old(self).next_id
                                    + crate::state::level_merge_input_total(old(self).state, u) <= u64::MAX)
                            implies false by {
                            if u < upper as int {
                                assert(!crate::compact::leveled_level_due(old(self).state, o, u));
                            } else if u > upper as int {
                                assert(!crate::compact::leveled_level_due(old(self).state, o, upper as int));
                            } else {
                                assert(first_id
                                    + crate::state::level_merge_input_total(old(self).state, upper as int)
                                    <= u64::MAX);
                                assert(done);
                            }
                        }
                    }
                    return false;
                }
                let count = self.state.levels[upper + 1].tables.len();
                self.next_id = self.next_id.saturating_add(count as u64);
                let ghost old_manifest = self.manifest@;
                self.manifest.push(ManifestRecord::CompactLevel { upper, first_id, count });
                proof {
                    assert(self.manifest@.drop_last() =~= old_manifest);
                    lemma_layout_after_compact_level(old_state, self.state, upper, first_id, count);
                }
                true
            },
        }
    }

    /// Flushes every outstanding memtable; with enough file-id headroom
    /// (one id per memtable, plus one for the rotation), everything drains.
    pub fn close(&mut self)
        requires
            old(self).wf(),
        ensures
            final(self).wf(),
            forall|k: Seq<u8>| #[trigger] final(self).kv(k) == old(self).kv(k),
            old(self).state.imm_memtables@.len() + 2 <= u64::MAX - old(self).next_id
                ==> final(self).state.imm_memtables@.len() == 0
                    && final(self).state.memtable.entries@.len() == 0,
    {
        let ghost roomy = old(self).state.imm_memtables@.len() + 2
            <= u64::MAX - old(self).next_id;
        let _ = self.force_freeze_memtable();
        while self.state.imm_memtables.len() > 0 && self.next_id < u64::MAX
            invariant
                self.wf(),
                forall|k: Seq<u8>| #[trigger] self.kv(k) == old(self).kv(k),
                roomy == (old(self).state.imm_memtables@.len() + 2
                    <= u64::MAX - old(self).next_id),
                roomy ==> u64::MAX - self.next_id >= self.state.imm_memtables@.len()
                    && self.state.memtable.entries@.len() == 0,
            decreases self.state.imm_memtables@.len(),
        {
            let _ = self.force_flush();
        }
    }

    /// The current file layout: the level-0 ids and each governed level's
    /// ids, for display.
    pub fn dump_structure(&self) -> (r: (Vec<u64>, Vec<LevelInfo>))
        ensures
            r.0@.len() == self.state.l0_sstables@.len(),
            forall|i: int| 0 <= i < r.0@.len()
                ==> #[trigger] r.0@[i] == self.state.l0_sstables@[i].id,
            r.1@.len() == self.state.levels@.len(),
            forall|i: int| 0 <= i < r.1@.len()
                ==> (#[trigger] r.1@[i]).level == self.state.levels@[i].level
                    && r.1@[i].ids@.len() == self.state.levels@[i].tables@.len(),
            forall|i: int, j: int| 0 <= i < r.1@.len() && 0 <= j < (#[trigger] r.1@[i]).ids@.len()
                ==> r.1@[i].ids@[j] == (#[trigger] self.state.levels@[i].tables@[j]).id,
    {
        let mut l0: Vec<u64> = Vec::new();
        let mut i: usize = 0;
        while i < self.state.l0_sstables.len()
            invariant
                i <= self.state.l0_sstables@.len(),
                l0@.len() == i,
                forall|x: int| 0 <= x < i ==> #[trigger] l0@[x] == self.state.l0_sstables@[x].id,
            decreases self.state.l0_sstables@.len() - i,
        {
            l0.push(self.state.l0_sstables[i].id);
            i = i + 1;
        }
        let mut levels: Vec<LevelInfo> = Vec::new();
        let mut li: usize = 0;
        while li < self.state.levels.len()
            invariant
                li <= self.state.levels@.len(),
                levels@.len() == li,
                forall|x: int| 0 <= x < li ==> (#[trigger] levels@[x]).level == self.state.levels@[x].level
                    && levels@[x].ids@.len() == self.state.levels@[x].tables@.len(),
                forall|x: int, y: int| 0 <= x < li && 0 <= y < (#[trigger] levels@[x]).ids@.len()
                    ==> levels@[x].ids@[y] == (#[trigger] self.state.levels@[x].tables@[y]).id,
            decreases self.state.levels@.len() - li,
        {
            let mut ids: Vec<u64> = Vec::new();
            let mut ti: usize = 0;
            while ti < self.state.levels[li].tables.len()
                invariant
                    li < self.state.levels@.len(),
                    ti <= self.state.levels@[li as int].tables@.len(),
                    ids@.len() == ti,
                    forall|y: int| 0 <= y < ti
                        ==> #[trigger] ids@[y] == self.state.levels@[li as int].tables@[y].id,
                decreases self.state.levels@[li as int].tables@.len() - ti,
            {
                ids.push(self.state.levels[li].tables[ti].id);
                ti = ti + 1;
            }
            levels.push(LevelInfo { level: self.state.levels[li].level, ids });
            li = li + 1;
        }
        (l0, levels)
    }
}

/// One maintenance step: what every freeze, flush and compaction ensures —
/// the engine's reads are untouched.
pub open spec fn maintenance_step(a: LsmStorageInner, b: LsmStorageInner) -> bool {
    forall|k: Seq<u8>| #[trigger] b.kv(k) == a.kv(k)
}

/// However many freezes, flushes and compactions run, every read returns
/// what it returned before them: the most recently written value for a
/// written key, absence for a deleted one.
pub proof fn lemma_maintenance_preserves_reads(tr: Seq<LsmStorageInner>, k: Seq<u8>)
    requires
        tr.len() > 0,
        forall|i: int| 0 <= i < tr.len() - 1 ==> maintenance_step(#[trigger] tr[i], tr[i + 1]),
    ensures
        tr.last().kv(k) == tr[0].kv(k),
    decreases tr.len(),
{
    if tr.len() > 1 {
        assert(forall|i: int|
            0 <= i < tr.drop_last().len() ==> #[trigger] tr.drop_last()[i] == tr[i]);
        lemma_maintenance_preserves_reads(tr.drop_last(), k);
        assert(maintenance_step(tr[tr.len() - 2], tr.last()));
    }
}

/// Crash recovery is exact: a well-formed engine's manifest is replayable,
/// and replaying it yields precisely the live id layout, so an engine
/// reopened from the manifest alone stands where the crashed one stood.
pub proof fn lemma_manifest_recovers_layout(e: LsmStorageInner)
    requires
        e.wf(),
    ensures
        crate::manifest::layout_ok(0, e.state.levels@.len() as int, e.manifest@),
        layout_replay(0, e.state.levels@.len() as int, e.manifest@) == layout_of(e.state),
{
}

/// One governed level's number and file ids, for display.
pub struct LevelInfo {
    pub level: usize,
    pub ids: Vec<u64>,
}

/// The public handle around the engine.
pub struct MiniLsm {
    pub inner: LsmStorageInner,
}

impl MiniLsm {
    pub open spec fn kv(self, k: Seq<u8>) -> Option<Seq<u8>> {
        self.inner.kv(k)
    }

    pub open spec fn wf(self) -> bool {
        self.inner.wf()
    }

    pub fn open(options: LsmStorageOptions) -> (r: Result<MiniLsm, LsmError>)
        ensures
            r is Ok <==> options_wf(options),
            r matches Ok(e) ==> e.wf() && forall|k: Seq<u8>| #[trigger] e.kv(k) is None,
    {
        match LsmStorageInner::open(options) {
            Result::Ok(inner) => Result::Ok(MiniLsm { inner }),
            Result::Err(e) => Result::Err(e),
        }
    }

    pub fn put(&mut self, key: Vec<u8>, value: Vec<u8>) -> (r: Result<(), LsmError>)
        requires
            old(self).wf(),
        ensures
            final(self).wf(),
            r is Ok <==> old(self).inner.next_seq < u64::MAX,
            r is Ok ==> final(self).kv(key@) == Option::Some(value@)
                && forall|k2: Seq<u8>| k2 != key@ ==> #[trigger] final(self).kv(k2) == old(self).kv(k2),
            r is Err ==> *final(self) == *old(self),
    {
        self.inner.put(key, value)
    }

    pub fn delete(&mut self, key: Vec<u8>) -> (r: Result<(), LsmError>)
        requires
            old(self).wf(),
        ensures
            final(self).wf(),
            r is Ok <==> old(self).inner.next_seq < u64::MAX,
            r is Ok ==> final(self).kv(key@) is None
                && forall|k2: Seq<u8>| k2 != key@ ==> #[trigger] final(self).kv(k2) == old(self).kv(k2),
            r is Err ==> *final(self) == *old(self),
    {
        self.inner.delete(key)
    }

    pub fn get(&self, key: &Vec<u8>) -> (r: Option<Vec<u8>>)
        requires
            self.wf(),
        ensures
            r.deep_view() == self.kv(key@),
    {
        self.inner.get(key)
    }

    pub fn scan(&self, lower: &Vec<u8>, upper: &Vec<u8>) -> (out: Vec<Record>)
        requires
            self.wf(),
        ensures
            crate::types::sorted_run(out.deep_view()),
            forall|k: Seq<u8>|
                #![trigger crate::types::run_map(out.deep_view()).contains_key(k)]
                crate::types::run_map(out.deep_view()).contains_key(k) <==> (
                    crate::order::lex_le(lower@, k) && crate::order::lex_le(k, upper@)
                        && self.kv(k) is Some),
            forall|k: Seq<u8>|
                #![trigger crate::types::run_map(out.deep_view())[k]]
                crate::types::run_map(out.deep_view()).contains_key(k)
                    ==> crate::types::run_map(out.deep_view())[k].value == self.kv(k)
                        && crate::types::run_map(out.deep_view())[k].key == k,
    {
        self.inner.scan(lower, upper)
    }

    pub fn force_freeze_memtable(&mut self) -> (did: bool)
        requires
            old(self).wf(),
        ensures
            final(self).wf(),
            forall|k: Seq<u8>| #[trigger] final(self).kv(k) == old(self).kv(k),
            did <==> (old(self).inner.state.memtable.entries@.len() > 0
                && old(self).inner.next_id < u64::MAX),
            did ==> final(self).inner.state.imm_memtables@.len()
                == old(self).inner.state.imm_memtables@.len() + 1,
            did ==> final(self).inner.state.memtable.entries@.len() == 0,
            !did ==> *final(self) == *old(self),
    {
        self.inner.force_freeze_memtable()
    }

    pub fn force_flush(&mut self) -> (did: bool)
        requires
            old(self).wf(),
        ensures
            final(self).wf(),
            forall|k: Seq<u8>| #[trigger] final(self).kv(k) == old(self).kv(k),
            did <==> (old(self).inner.state.imm_memtables@.len() > 0
                && old(self).inner.next_id < u64::MAX),
            did ==> final(self).inner.state.imm_memtables@.len()
                == old(self).inner.state.imm_memtables@.len() - 1,
            did ==> final(self).inner.state.l0_sstables@.len()
                == old(self).inner.state.l0_sstables@.len() + 1,
            !did ==> *final(self) == *old(self),
    {
        self.inner.force_flush()
    }

    pub fn trigger_compaction(&mut self) -> (did: bool)
        requires
            old(self).wf(),
        ensures
            final(self).wf(),
            forall|k: Seq<u8>| #[trigger] final(self).kv(k) == old(self).kv(k),
            old(self).inner.options.compaction_options is NoCompaction
                ==> !did && *final(self) == *old(self),
            (old(self).inner.options.compaction_options matches CompactionOptions::Simple(o)
                && crate::compact::simple_l0_due(old(self).inner.state, o)
                && old(self).inner.next_id
                    + crate::state::l0_merge_input_total(old(self).inner.state) <= u64::MAX)
                ==> did && final(self).inner.state.l0_sstables@.len() == 0,
            (old(self).inner.options.compaction_options matches CompactionOptions::Leveled(o)
                && crate::compact::leveled_l0_due(old(self).inner.state, o)
                && old(self).inner.next_id
                    + crate::state::l0_merge_input_total(old(self).inner.state) <= u64::MAX)
                ==> did && final(self).inner.state.l0_sstables@.len() == 0,
            (old(self).inner.options.compaction_options matches CompactionOptions::Tiered(o)
                && old(self).inner.state.l0_sstables@.len() >= o.num_tiers
                && old(self).inner.state.levels@.len() > 0
                && old(self).inner.next_id
                    + crate::state::l0_merge_input_total(old(self).inner.state) <= u64::MAX)
                ==> did && final(self).inner.state.l0_sstables@.len() == 0,
            forall|o: crate::compact::SimpleLeveledCompactionOptions, u: int|
                (old(self).inner.options.compaction_options == CompactionOptions::Simple(o)
                    && !crate::compact::simple_l0_due(old(self).inner.state, o)
                    && #[trigger] crate::compact::simple_level_due(old(self).inner.state, o, u)
                    && (forall|v: int| 0 <= v < u
                        ==> !crate::compact::simple_level_due(old(self).inner.state, o, v))
                    && old(self).inner.next_id
                        + crate::state::level_merge_input_total(old(self).inner.state, u) <= u64::MAX)
                    ==> did && final(self).inner.state.levels@[u].tables@.len() == 0,
            forall|o: crate::compact::LeveledCompactionOptions, u: int|
                (old(self).inner.options.compaction_options == CompactionOptions::Leveled(o)
                    && !crate::compact::leveled_l0_due(old(self).inner.state, o)
                    && #[trigger] crate::compact::leveled_level_due(old(self).inner.state, o, u)
                    && (forall|v: int| 0 <= v < u
                        ==> !crate::compact::leveled_level_due(old(self).inner.state, o, v))
                    && old(self).inner.next_id
                        + crate::state::level_merge_input_total(old(self).inner.state, u) <= u64::MAX)
                    ==> did && final(self).inner.state.levels@[u].tables@.len() == 0,
    {
        self.inner.trigger_compaction()
    }

    pub fn close(&mut self)
        requires
            old(self).wf(),
        ensures
            final(self).wf(),
            forall|k: Seq<u8>| #[trigger] final(self).kv(k) == old(self).kv(k),
            old(self).inner.state.imm_memtables@.len() + 2 <= u64::MAX - old(self).inner.next_id
                ==> final(self).inner.state.imm_memtables@.len() == 0
                    && final(self).inner.state.memtable.entries@.len() == 0,
    {
        self.inner.close()
    }

    pub fn dump_structure(&self) -> (r: (Vec<u64>, Vec<LevelInfo>))
        ensures
            r.0@.len() == self.inner.state.l0_sstables@.len(),
            forall|i: int| 0 <= i < r.0@.len()
                ==> #[trigger] r.0@[i] == self.inner.state.l0_sstables@[i].id,
            r.1@.len() == self.inner.state.levels@.len(),
            forall|i: int| 0 <= i < r.1@.len()
                ==> (#[trigger] r.1@[i]).level == self.inner.state.levels@[i].level
                    && r.1@[i].ids@.len() == self.inner.state.levels@[i].tables@.len(),
            forall|i: int, j: int| 0 <= i < r.1@.len() && 0 <= j < (#[trigger] r.1@[i]).ids@.len()
                ==> r.1@[i].ids@[j] == (#[trigger] self.inner.state.levels@[i].tables@[j]).id,
    {
        self.inner.dump_structure()
    }

    /// Starts a serializable transaction.
    pub fn new_txn(&self) -> (t: crate::txn::Transaction)
        ensures
            t.read_ts == self.inner.next_seq,
            t.reads@.len() == 0,
            t.writes@.len() == 0,
    {
        self.inner.begin()
    }

    /// Commits a serializable transaction; see `LsmStorageInner::commit`.
    pub fn commit(&mut self, txn: crate::txn::Transaction) -> (r: Result<u64, LsmError>)
        requires
            old(self).wf(),
        ensures
            final(self).wf(),
            (r matches Err(LsmError::Conflict)) <==> crate::txn::has_conflict(
                old(self).inner.commits.deep_view(),
                txn.read_ts,
                txn.reads.deep_view(),
            ),
            r is Ok <==> (!crate::txn::has_conflict(
                old(self).inner.commits.deep_view(),
                txn.read_ts,
                txn.reads.deep_view(),
            ) && txn.writes@.len() <= u64::MAX - old(self).inner.next_seq),
            r is Err ==> *final(self) == *old(self),
            r is Ok ==> forall|k: Seq<u8>|
                #![trigger final(self).kv(k)]
                if crate::txn::write_map(txn.writes.deep_view()).contains_key(k) {
                    final(self).kv(k) == crate::txn::write_map(txn.writes.deep_view())[k]
                } else {
                    final(self).kv(k) == old(self).kv(k)
                },
            r matches Ok(ts) ==> final(self).inner.commits.deep_view()
                == old(self).inner.commits.deep_view().push(crate::txn::CommitRecordV {
                    commit_ts: ts,
                    keys: Seq::new(txn.writes.deep_view().len(), |i: int| txn.writes.deep_view()[i].key),
                }),
            r matches Ok(ts) ==> txn.writes@.len() > 0 ==> ts >= old(self).inner.next_seq,
    {
        self.inner.commit(txn)
    }
}

} // verus!
