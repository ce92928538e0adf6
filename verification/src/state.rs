//! The storage state: one snapshot of the whole tree.
//!
//! A snapshot holds the active memtable, the frozen memtables (newest
//! first), the level-0 tables (newest first; their key ranges may overlap)
//! and the governed levels, whose tables hold pairwise disjoint key ranges.
//! Flattening these, newest first, gives the sequence of runs that defines
//! what every read sees.

use vstd::prelude::*;

use crate::memtable::MemTable;
use crate::order::lex_lt;
use crate::sstable::SsTable;
use crate::types::{
    Record, RecordV, sorted_run, run_map, runs_find, visible, lemma_runs_find_concat,
    lemma_run_map_contains, clone_records, clone_subrange,
};
use crate::memtable::record_charge;
use crate::merge::{concat_runs, lemma_concat_runs_push, merge_runs, runs_total};
use crate::sstable::{charge_sum, sat_charge, lemma_charge_sub, lemma_charge_sum_nonneg};

verus! {

/// One governed level: tables ordered by ascending, disjoint key ranges.
pub struct Level {
    /// The level number; the first governed level is 1.
    pub level: usize,
    pub tables: Vec<SsTable>,
}

/// An immutable point-in-time view of the whole store.
pub struct LsmStorageState {
    /// The one mutable memtable.
    pub memtable: MemTable,
    /// Frozen memtables queued for flush, newest first.
    pub imm_memtables: Vec<MemTable>,
    /// Level-0 tables, newest first; ranges may overlap.
    pub l0_sstables: Vec<SsTable>,
    /// Governed levels, shallowest first.
    pub levels: Vec<Level>,
}

pub open spec fn mem_runs(ms: Seq<MemTable>) -> Seq<Seq<RecordV>> {
    Seq::new(ms.len(), |i: int| ms[i].entries.deep_view())
}

pub open spec fn table_runs(ts: Seq<SsTable>) -> Seq<Seq<RecordV>> {
    Seq::new(ts.len(), |i: int| ts[i].as_run())
}

pub open spec fn levels_runs(ls: Seq<Level>) -> Seq<Seq<RecordV>>
    decreases ls.len(),
{
    if ls.len() == 0 {
        Seq::empty()
    } else {
        table_runs(ls[0].tables@) + levels_runs(ls.skip(1))
    }
}

pub proof fn lemma_levels_runs_concat(a: Seq<Level>, b: Seq<Level>)
    ensures
        levels_runs(a + b) == levels_runs(a) + levels_runs(b),
    decreases a.len(),
{
    if a.len() == 0 {
        assert(a + b =~= b);
        assert(levels_runs(a) + levels_runs(b) =~= levels_runs(b));
    } else {
        assert((a + b)[0] == a[0]);
        assert((a + b).skip(1) =~= a.skip(1) + b);
        lemma_levels_runs_concat(a.skip(1), b);
        assert(levels_runs(a + b) =~= levels_runs(a) + levels_runs(b));
    }
}

/// Tables of one level hold pairwise disjoint, ascending key ranges.
pub open spec fn level_tables_disjoint(ts: Seq<SsTable>) -> bool {
    forall|a: int, b: int|
        0 <= a < b < ts.len() ==> lex_lt((#[trigger] ts[a]).last_key(), (#[trigger] ts[b]).first_key())
}

impl LsmStorageState {
    /// Every run, newest first: the order in which a read consults them.
    pub open spec fn all_runs(self) -> Seq<Seq<RecordV>> {
        seq![self.memtable.entries.deep_view()] + mem_runs(self.imm_memtables@)
            + table_runs(self.l0_sstables@) + levels_runs(self.levels@)
    }

    /// What a reader sees for a key in this snapshot.
    pub open spec fn view_of(self, k: Seq<u8>) -> Option<Seq<u8>> {
        visible(self.all_runs(), k)
    }

    pub open spec fn wf(self) -> bool {
        &&& self.memtable.wf()
        &&& !self.memtable.frozen
        &&& forall|i: int| 0 <= i < self.imm_memtables@.len()
            ==> (#[trigger] self.imm_memtables@[i]).wf() && self.imm_memtables@[i].frozen
                && self.imm_memtables@[i].entries@.len() > 0
        &&& forall|i: int| 0 <= i < self.l0_sstables@.len() ==> (#[trigger] self.l0_sstables@[i]).wf()
        &&& forall|i: int, j: int| 0 <= i < self.levels@.len()
            && 0 <= j < (#[trigger] self.levels@[i]).tables@.len()
            ==> (#[trigger] self.levels@[i].tables@[j]).wf()
        &&& forall|i: int| 0 <= i < self.levels@.len()
            ==> (#[trigger] self.levels@[i]).level == i + 1
        &&& forall|i: int| 0 <= i < self.levels@.len()
            ==> level_tables_disjoint((#[trigger] self.levels@[i]).tables@)
    }

    /// A fresh store: one empty memtable, no tables, `depth` empty levels.
    pub fn new(mem_id: u64, depth: usize) -> (r: LsmStorageState)
        ensures
            r.wf(),
            r.memtable.id == mem_id,
            r.memtable.entries@.len() == 0,
            r.imm_memtables@.len() == 0,
            r.l0_sstables@.len() == 0,
            r.levels@.len() == depth,
            forall|i: int| 0 <= i < depth ==> (#[trigger] r.levels@[i]).tables@.len() == 0,
            forall|k: Seq<u8>| #[trigger] r.view_of(k) is None,
    {
        let memtable = MemTable::new(mem_id);
        let mut levels: Vec<Level> = Vec::new();
        let mut i: usize = 0;
        while i < depth
            invariant
                levels@.len() == i,
                i <= depth,
                forall|j: int| 0 <= j < i ==> (#[trigger] levels@[j]).level == j + 1
                    && levels@[j].tables@.len() == 0,
            decreases depth - i,
        {
            levels.push(Level { level: i + 1, tables: Vec::new() });
            i = i + 1;
        }
        let r = LsmStorageState { memtable, imm_memtables: Vec::new(), l0_sstables: Vec::new(), levels };
        proof {
            assert forall|k: Seq<u8>| #[trigger] r.view_of(k) is None by {
                crate::types::lemma_runs_find_none(r.all_runs(), k);
                assert forall|i2: int| 0 <= i2 < r.all_runs().len()
                    implies !run_map(#[trigger] r.all_runs()[i2]).contains_key(k) by {
                    lemma_empty_levels_runs(r.levels@);
                    assert(r.all_runs()[i2].len() == 0);
                    lemma_run_map_contains(r.all_runs()[i2], k);
                }
            }
        }
        r
    }
}

/// All-empty levels contribute only empty runs.
proof fn lemma_empty_levels_runs(ls: Seq<Level>)
    requires
        forall|i: int| 0 <= i < ls.len() ==> (#[trigger] ls[i]).tables@.len() == 0,
    ensures
        levels_runs(ls).len() == 0,
    decreases ls.len(),
{
    if ls.len() > 0 {
        assert(forall|i: int| 0 <= i < ls.skip(1).len() ==> #[trigger] ls.skip(1)[i] == ls[i + 1]);
        lemma_empty_levels_runs(ls.skip(1));
        assert(table_runs(ls[0].tables@).len() == 0);
    }
}

/// Finds the newest record for `key` among a list of tables consulted in
/// order.
pub fn find_in_tables<'a>(tables: &'a Vec<SsTable>, key: &Vec<u8>) -> (r: Option<&'a Record>)
    requires
        forall|i: int| 0 <= i < tables@.len() ==> (#[trigger] tables@[i]).wf(),
    ensures
        match r {
            Option::Some(e) => runs_find(table_runs(tables@), key@) == Option::Some(e@),
            Option::None => runs_find(table_runs(tables@), key@) is None,
        },
{
    let ghost rs = table_runs(tables@);
    let mut i: usize = 0;
    while i < tables.len()
        invariant
            i <= tables@.len(),
            rs == table_runs(tables@),
            forall|j: int| 0 <= j < tables@.len() ==> (#[trigger] tables@[j]).wf(),
            runs_find(rs.take(i as int), key@) is None,
        decreases tables@.len() - i,
    {
        let found = tables[i].get(key);
        proof {
            assert(rs.take(i + 1) =~= rs.take(i as int) + seq![rs[i as int]]);
            lemma_runs_find_concat(rs.take(i as int), seq![rs[i as int]], key@);
            assert(seq![rs[i as int]][0] == rs[i as int]);
            assert(seq![rs[i as int]].skip(1) =~= Seq::<Seq<RecordV>>::empty());
            assert(runs_find(Seq::<Seq<RecordV>>::empty(), key@) is None);
            assert(rs[i as int] == tables@[i as int].as_run());
        }
        match found {
            Option::Some(e) => {
                proof {
                    assert(rs.take(i + 1) =~= rs.take(i + 1) + Seq::<Seq<RecordV>>::empty());
                    assert(rs =~= rs.take(i + 1) + rs.skip(i + 1));
                    lemma_runs_find_concat(rs.take(i + 1), rs.skip(i + 1), key@);
                }
                return Option::Some(e);
            },
            Option::None => {},
        }
        i = i + 1;
    }
    proof {
        assert(rs.take(tables@.len() as int) =~= rs);
    }
    Option::None
}

/// Finds the newest record for `key` among frozen memtables, newest first.
pub fn find_in_mems<'a>(ms: &'a Vec<MemTable>, key: &Vec<u8>) -> (r: Option<&'a Record>)
    requires
        forall|i: int| 0 <= i < ms@.len() ==> (#[trigger] ms@[i]).wf(),
    ensures
        match r {
            Option::Some(e) => runs_find(mem_runs(ms@), key@) == Option::Some(e@),
            Option::None => runs_find(mem_runs(ms@), key@) is None,
        },
{
    let ghost rs = mem_runs(ms@);
    let mut i: usize = 0;
    while i < ms.len()
        invariant
            i <= ms@.len(),
            rs == mem_runs(ms@),
            forall|j: int| 0 <= j < ms@.len() ==> (#[trigger] ms@[j]).wf(),
            runs_find(rs.take(i as int), key@) is None,
        decreases ms@.len() - i,
    {
        let found = ms[i].get(key);
        proof {
            assert(rs.take(i + 1) =~= rs.take(i as int) + seq![rs[i as int]]);
            lemma_runs_find_concat(rs.take(i as int), seq![rs[i as int]], key@);
            assert(seq![rs[i as int]][0] == rs[i as int]);
            assert(seq![rs[i as int]].skip(1) =~= Seq::<Seq<RecordV>>::empty());
            assert(runs_find(Seq::<Seq<RecordV>>::empty(), key@) is None);
            assert(rs[i as int] == ms@[i as int].entries.deep_view());
        }
        match found {
            Option::Some(e) => {
                proof {
                    assert(rs =~= rs.take(i + 1) + rs.skip(i + 1));
                    lemma_runs_find_concat(rs.take(i + 1), rs.skip(i + 1), key@);
                }
                return Option::Some(e);
            },
            Option::None => {},
        }
        i = i + 1;
    }
    proof {
        assert(rs.take(ms@.len() as int) =~= rs);
    }
    Option::None
}

/// Finds the newest record for `key` in the governed levels, shallowest
/// first.
pub fn find_in_levels<'a>(levels: &'a Vec<Level>, key: &Vec<u8>) -> (r: Option<&'a Record>)
    requires
        forall|i: int, j: int| 0 <= i < levels@.len()
            && 0 <= j < (#[trigger] levels@[i]).tables@.len()
            ==> (#[trigger] levels@[i].tables@[j]).wf(),
    ensures
        match r {
            Option::Some(e) => runs_find(levels_runs(levels@), key@) == Option::Some(e@),
            Option::None => runs_find(levels_runs(levels@), key@) is None,
        },
{
    let ghost ls = levels@;
    let mut i: usize = 0;
    while i < levels.len()
        invariant
            i <= ls.len(),
            ls == levels@,
            forall|a: int, b: int| 0 <= a < ls.len() && 0 <= b < (#[trigger] ls[a]).tables@.len()
                ==> (#[trigger] ls[a].tables@[b]).wf(),
            runs_find(levels_runs(ls.take(i as int)), key@) is None,
        decreases ls.len() - i,
    {
        let found = find_in_tables(&levels[i].tables, key);
        proof {
            assert(ls.take(i + 1) =~= ls.take(i as int) + seq![ls[i as int]]);
            lemma_levels_runs_concat(ls.take(i as int), seq![ls[i as int]]);
            assert(seq![ls[i as int]][0] == ls[i as int]);
            assert(seq![ls[i as int]].skip(1) =~= Seq::<Level>::empty());
            assert(levels_runs(Seq::<Level>::empty()) =~= Seq::<Seq<RecordV>>::empty());
            assert(levels_runs(seq![ls[i as int]]) =~= table_runs(ls[i as int].tables@));
            lemma_runs_find_concat(levels_runs(ls.take(i as int)), table_runs(ls[i as int].tables@), key@);
        }
        match found {
            Option::Some(e) => {
                proof {
                    assert(ls =~= ls.take(i + 1) + ls.skip(i + 1));
                    lemma_levels_runs_concat(ls.take(i + 1), ls.skip(i + 1));
                    lemma_runs_find_concat(levels_runs(ls.take(i + 1)), levels_runs(ls.skip(i + 1)), key@);
                }
                return Option::Some(e);
            },
            Option::None => {},
        }
        i = i + 1;
    }
    proof {
        assert(ls.take(ls.len() as int) =~= ls);
    }
    Option::None
}

impl LsmStorageState {
    /// The newest record for `key` across the whole snapshot, tombstones
    /// included.
    pub fn find(&self, key: &Vec<u8>) -> (r: Option<&Record>)
        requires
            self.wf(),
        ensures
            match r {
                Option::Some(e) => runs_find(self.all_runs(), key@) == Option::Some(e@),
                Option::None => runs_find(self.all_runs(), key@) is None,
            },
    {
        let ghost head = seq![self.memtable.entries.deep_view()];
        let ghost m1 = mem_runs(self.imm_memtables@);
        let ghost m2 = table_runs(self.l0_sstables@);
        let ghost m3 = levels_runs(self.levels@);
        proof {
            assert(self.all_runs() =~= head + (m1 + (m2 + m3)));
            lemma_runs_find_concat(head, m1 + (m2 + m3), key@);
            lemma_runs_find_concat(m1, m2 + m3, key@);
            lemma_runs_find_concat(m2, m3, key@);
            assert(head[0] == self.memtable.entries.deep_view());
            assert(head.skip(1) =~= Seq::<Seq<RecordV>>::empty());
            assert(runs_find(Seq::<Seq<RecordV>>::empty(), key@) is None);
        }
        let in_mem = self.memtable.get(key);
        match in_mem {
            Option::Some(e) => {
                return Option::Some(e);
            },
            Option::None => {},
        }
        let in_imm = find_in_mems(&self.imm_memtables, key);
        match in_imm {
            Option::Some(e) => {
                return Option::Some(e);
            },
            Option::None => {},
        }
        let in_l0 = find_in_tables(&self.l0_sstables, key);
        match in_l0 {
            Option::Some(e) => {
                return Option::Some(e);
            },
            Option::None => {},
        }
        find_in_levels(&self.levels, key)
    }

    /// Rotates the full active memtable to the front of the frozen queue
    /// and installs a fresh one under the next generation id.
    pub fn freeze_memtable(&mut self, new_id: u64)
        requires
            old(self).wf(),
            old(self).memtable.entries@.len() > 0,
        ensures
            final(self).wf(),
            forall|k: Seq<u8>| #[trigger] final(self).view_of(k) == old(self).view_of(k),
            final(self).memtable.id == new_id,
            final(self).memtable.entries@.len() == 0,
            final(self).imm_memtables@.len() == old(self).imm_memtables@.len() + 1,
            final(self).imm_memtables@[0].id == old(self).memtable.id,
            final(self).imm_memtables@[0].entries.deep_view() == old(self).memtable.entries.deep_view(),
            forall|i: int| 1 <= i < final(self).imm_memtables@.len()
                ==> #[trigger] final(self).imm_memtables@[i] == old(self).imm_memtables@[i - 1],
            final(self).l0_sstables == old(self).l0_sstables,
            final(self).levels == old(self).levels,
    {
        let ghost old_runs = self.all_runs();
        let mut fresh = MemTable::new(new_id);
        core::mem::swap(&mut self.memtable, &mut fresh);
        fresh.freeze();
        self.imm_memtables.insert(0, fresh);
        proof {
            let new_runs = self.all_runs();
            assert(new_runs.skip(1) =~= old_runs);
            assert(new_runs[0].len() == 0);
            assert forall|k: Seq<u8>| #[trigger] self.view_of(k) == old(self).view_of(k) by {
                lemma_run_map_contains(new_runs[0], k);
            }
        }
    }

    /// Flushes the oldest frozen memtable into a new level-0 table; the
    /// memtable's generation and the new file id are returned for the
    /// manifest.
    pub fn flush_oldest(&mut self, sst_id: u64, block_size: usize) -> (mem_id: u64)
        requires
            old(self).wf(),
            old(self).imm_memtables@.len() > 0,
            block_size > 0,
        ensures
            final(self).wf(),
            forall|k: Seq<u8>| #[trigger] final(self).view_of(k) == old(self).view_of(k),
            mem_id == old(self).imm_memtables@.last().id,
            final(self).imm_memtables@ == old(self).imm_memtables@.drop_last(),
            final(self).l0_sstables@.len() == old(self).l0_sstables@.len() + 1,
            final(self).l0_sstables@[0].id == sst_id,
            final(self).l0_sstables@[0].as_run() == old(self).imm_memtables@.last().entries.deep_view(),
            forall|i: int| 1 <= i < final(self).l0_sstables@.len()
                ==> #[trigger] final(self).l0_sstables@[i] == old(self).l0_sstables@[i - 1],
            final(self).memtable == old(self).memtable,
            final(self).levels == old(self).levels,
    {
        let ghost old_runs = self.all_runs();
        let oldest = self.imm_memtables.pop().unwrap();
        let entries = clone_records(&oldest.entries);
        let table = SsTable::build(sst_id, entries, block_size);
        self.l0_sstables.insert(0, table);
        proof {
            assert(self.all_runs() =~= old_runs);
        }
        oldest.id
    }

    /// Point read: the most recently written value for `key`, or `None`
    /// when the key was never written or its newest record is a tombstone.
    pub fn get(&self, key: &Vec<u8>) -> (r: Option<Vec<u8>>)
        requires
            self.wf(),
        ensures
            r.deep_view() == self.view_of(key@),
    {
        match self.find(key) {
            Option::Some(e) => match &e.value {
                Option::Some(v) => Option::Some(v.clone()),
                Option::None => Option::None,
            },
            Option::None => Option::None,
        }
    }
}

/// Every memtable generation and file id lies below `b`: ids are drawn
/// from a counter that never reaches back.
pub open spec fn ids_below(s: LsmStorageState, b: u64) -> bool {
    &&& s.memtable.id < b
    &&& forall|i: int| 0 <= i < s.imm_memtables@.len() ==> (#[trigger] s.imm_memtables@[i]).id < b
    &&& forall|i: int| 0 <= i < s.l0_sstables@.len() ==> (#[trigger] s.l0_sstables@[i]).id < b
    &&& forall|i: int, j: int| 0 <= i < s.levels@.len()
        && 0 <= j < (#[trigger] s.levels@[i]).tables@.len()
        ==> (#[trigger] s.levels@[i].tables@[j]).id < b
}

/// No file id occurs twice across level 0 and the governed levels: every
/// table sits in exactly one place and ids are never reused.
pub open spec fn file_ids_distinct(s: LsmStorageState) -> bool {
    &&& forall|i: int, j: int| 0 <= i < j < s.l0_sstables@.len()
        ==> (#[trigger] s.l0_sstables@[i]).id != (#[trigger] s.l0_sstables@[j]).id
    &&& forall|i: int, a: int, b: int| 0 <= i < s.l0_sstables@.len()
        && 0 <= a < s.levels@.len() && 0 <= b < s.levels@[a].tables@.len()
        ==> (#[trigger] s.l0_sstables@[i]).id != (#[trigger] s.levels@[a].tables@[b]).id
    &&& forall|a: int, b: int, c: int, d: int|
        #![trigger s.levels@[a].tables@[b], s.levels@[c].tables@[d]]
        0 <= a < s.levels@.len() && 0 <= b < s.levels@[a].tables@.len()
        && 0 <= c < s.levels@.len() && 0 <= d < s.levels@[c].tables@.len()
        && (a != c || b != d)
        ==> s.levels@[a].tables@[b].id != s.levels@[c].tables@[d].id
}

/// No memtable generation occurs twice among the active and frozen tables.
pub open spec fn mem_ids_distinct(s: LsmStorageState) -> bool {
    &&& forall|i: int| 0 <= i < s.imm_memtables@.len()
        ==> (#[trigger] s.imm_memtables@[i]).id != s.memtable.id
    &&& forall|i: int, j: int| 0 <= i < j < s.imm_memtables@.len()
        ==> (#[trigger] s.imm_memtables@[i]).id != (#[trigger] s.imm_memtables@[j]).id
}

/// How many records a level-0-into-level-1 merge consumes.
pub open spec fn l0_merge_input_total(s: LsmStorageState) -> int {
    runs_total(table_runs(s.l0_sstables@) + table_runs(s.levels@[0].tables@)) as int
}

/// How many records a merge of the level at vector index `u` into the one
/// below consumes.
pub open spec fn level_merge_input_total(s: LsmStorageState, u: int) -> int {
    runs_total(table_runs(s.levels@[u].tables@) + table_runs(s.levels@[u + 1].tables@)) as int
}

impl LsmStorageState {
    /// Are all levels strictly below `from` (a vector index) empty?
    pub fn levels_empty_below(&self, from: usize) -> (r: bool)
        ensures
            r == (forall|i: int| from <= i < self.levels@.len()
                ==> (#[trigger] self.levels@[i]).tables@.len() == 0),
    {
        let mut i: usize = from;
        while i < self.levels.len()
            invariant
                from <= i,
                i <= self.levels@.len() || i == from,
                forall|j: int| from <= j < i ==> (#[trigger] self.levels@[j]).tables@.len() == 0,
            decreases self.levels@.len() - i,
        {
            if self.levels[i].tables.len() > 0 {
                proof {
                    assert(self.levels@[i as int].tables@.len() > 0);
                }
                return false;
            }
            i = i + 1;
        }
        true
    }

    /// Merges every level-0 table and every table of level 1 into a fresh
    /// level 1; tombstones are shed when nothing deeper holds data.
    ///
    /// Returns false, leaving the state untouched, only when the file-id
    /// space is exhausted.
    pub fn compact_l0_into_level1(&mut self, first_id: u64, target_size: usize, block_size: usize)
        -> (done: bool)
        requires
            old(self).wf(),
            old(self).levels@.len() > 0,
            target_size > 0,
            block_size > 0,
        ensures
            final(self).wf(),
            done ==> forall|k: Seq<u8>| #[trigger] final(self).view_of(k) == old(self).view_of(k),
            done ==> final(self).l0_sstables@.len() == 0,
            final(self).memtable == old(self).memtable,
            final(self).imm_memtables == old(self).imm_memtables,
            done ==> final(self).levels@.len() == old(self).levels@.len(),
            done ==> forall|i: int| 1 <= i < final(self).levels@.len()
                ==> #[trigger] final(self).levels@[i] == old(self).levels@[i],
            done ==> forall|i: int| 0 <= i < final(self).levels@[0].tables@.len()
                ==> (#[trigger] final(self).levels@[0].tables@[i]).id == first_id + i,
            done ==> first_id + final(self).levels@[0].tables@.len() <= u64::MAX,
            first_id + l0_merge_input_total(*old(self)) <= u64::MAX ==> done,
            !done ==> *final(self) == *old(self),
    {
        let ghost old_all = self.all_runs();
        let ghost p = seq![self.memtable.entries.deep_view()] + mem_runs(self.imm_memtables@);
        let ghost b = table_runs(self.l0_sstables@) + table_runs(self.levels@[0].tables@);
        let ghost q = levels_runs(self.levels@.skip(1));
        let drop = self.levels_empty_below(1);
        let inputs = collect_table_runs(&self.l0_sstables, &self.levels[0].tables);
        proof {
            assert forall|i: int| 0 <= i < inputs.deep_view().len()
                implies sorted_run(#[trigger] inputs.deep_view()[i]) by {
                if i < self.l0_sstables@.len() {
                    assert(inputs.deep_view()[i] == self.l0_sstables@[i].as_run());
                } else {
                    assert(inputs.deep_view()[i]
                        == self.levels@[0].tables@[i - self.l0_sstables@.len()].as_run());
                }
            }
        }
        let merged = merge_runs(&inputs, drop);
        proof {
            assert(merged@.len() <= l0_merge_input_total(*old(self)));
        }
        if !(merged.len() as u64 <= u64::MAX - first_id) {
            return false;
        }
        let new_ts = split_into_tables(&merged, first_id, target_size, block_size);
        let lv = self.levels.remove(0);
        self.levels.insert(0, Level { level: lv.level, tables: new_ts });
        self.l0_sstables = Vec::new();
        proof {
            let c = table_runs(self.levels@[0].tables@);
            assert(old_all =~= p + b + q);
            assert(self.levels@.skip(1) =~= old(self).levels@.skip(1));
            assert(levels_runs(self.levels@) == c + levels_runs(self.levels@.skip(1)));
            assert(table_runs(self.l0_sstables@).len() == 0);
            assert(self.all_runs() =~= p + c + q);
            if drop {
                assert forall|i: int| 0 <= i < old(self).levels@.skip(1).len()
                    implies (#[trigger] old(self).levels@.skip(1)[i]).tables@.len() == 0 by {
                    assert(old(self).levels@.skip(1)[i] == old(self).levels@[i + 1]);
                }
                lemma_empty_levels_runs(old(self).levels@.skip(1));
            }
            crate::merge::lemma_replace_adjacent(p, b, c, q, merged.deep_view(), drop);
            assert forall|k: Seq<u8>| #[trigger] self.view_of(k) == old(self).view_of(k) by {
                assert(visible(p + c + q, k) == visible(p + b + q, k));
            }
        }
        true
    }

    /// Merges every table of the level at vector index `u` into the level
    /// below it; tombstones are shed when nothing deeper holds data.
    pub fn compact_level_down(&mut self, u: usize, first_id: u64, target_size: usize, block_size: usize)
        -> (done: bool)
        requires
            old(self).wf(),
            u + 1 < old(self).levels@.len(),
            target_size > 0,
            block_size > 0,
        ensures
            final(self).wf(),
            done ==> forall|k: Seq<u8>| #[trigger] final(self).view_of(k) == old(self).view_of(k),
            done ==> final(self).levels@.len() == old(self).levels@.len(),
            done ==> final(self).levels@[u as int].tables@.len() == 0,
            done ==> forall|i: int| 0 <= i < final(self).levels@[u + 1].tables@.len()
                ==> (#[trigger] final(self).levels@[u + 1].tables@[i]).id == first_id + i,
            done ==> first_id + final(self).levels@[u + 1].tables@.len() <= u64::MAX,
            first_id + level_merge_input_total(*old(self), u as int) <= u64::MAX ==> done,
            final(self).memtable == old(self).memtable,
            final(self).imm_memtables == old(self).imm_memtables,
            final(self).l0_sstables == old(self).l0_sstables,
            done ==> forall|i: int| 0 <= i < final(self).levels@.len() && i != u && i != u + 1
                ==> #[trigger] final(self).levels@[i] == old(self).levels@[i],
            !done ==> *final(self) == *old(self),
    {
        let ghost ls = self.levels@;
        let ghost old_all = self.all_runs();
        let ghost p = seq![self.memtable.entries.deep_view()] + mem_runs(self.imm_memtables@)
            + table_runs(self.l0_sstables@) + levels_runs(ls.take(u as int));
        let ghost b = table_runs(ls[u as int].tables@) + table_runs(ls[u + 1].tables@);
        let ghost q = levels_runs(ls.skip(u + 2));
        proof {
            assert(ls =~= ls.take(u as int) + (seq![ls[u as int]] + (seq![ls[u + 1]] + ls.skip(u + 2))));
            lemma_levels_runs_concat(ls.take(u as int), seq![ls[u as int]] + (seq![ls[u + 1]] + ls.skip(u + 2)));
            lemma_levels_runs_concat(seq![ls[u as int]], seq![ls[u + 1]] + ls.skip(u + 2));
            lemma_levels_runs_concat(seq![ls[u + 1]], ls.skip(u + 2));
            assert(seq![ls[u as int]].skip(1) =~= Seq::<Level>::empty());
            assert(seq![ls[u + 1]].skip(1) =~= Seq::<Level>::empty());
            assert(levels_runs(Seq::<Level>::empty()) =~= Seq::<Seq<RecordV>>::empty());
            assert(levels_runs(seq![ls[u as int]]) =~= table_runs(ls[u as int].tables@));
            assert(levels_runs(seq![ls[u + 1]]) =~= table_runs(ls[u + 1].tables@));
            assert(old_all =~= p + b + q);
        }
        let drop = self.levels_empty_below(u + 2);
        let upper_tables_level: usize = self.levels[u].level;
        let lower_tables_level: usize = self.levels[u + 1].level;
        let inputs = collect_table_runs(&self.levels[u].tables, &self.levels[u + 1].tables);
        proof {
            assert forall|i: int| 0 <= i < inputs.deep_view().len()
                implies sorted_run(#[trigger] inputs.deep_view()[i]) by {
                if i < ls[u as int].tables@.len() {
                    assert(inputs.deep_view()[i] == ls[u as int].tables@[i].as_run());
                } else {
                    assert(inputs.deep_view()[i]
                        == ls[u + 1].tables@[i - ls[u as int].tables@.len()].as_run());
                }
            }
        }
        let merged = merge_runs(&inputs, drop);
        proof {
            assert(merged@.len() <= level_merge_input_total(*old(self), u as int));
        }
        if !(merged.len() as u64 <= u64::MAX - first_id) {
            return false;
        }
        let new_ts = split_into_tables(&merged, first_id, target_size, block_size);
        self.levels.remove(u);
        self.levels.insert(u, Level { level: upper_tables_level, tables: Vec::new() });
        self.levels.remove(u + 1);
        self.levels.insert(u + 1, Level { level: lower_tables_level, tables: new_ts });
        proof {
            let nls = self.levels@;
            let c = table_runs(nls[u + 1].tables@);
            assert(nls =~= nls.take(u as int) + (seq![nls[u as int]] + (seq![nls[u + 1]] + nls.skip(u + 2))));
            lemma_levels_runs_concat(nls.take(u as int), seq![nls[u as int]] + (seq![nls[u + 1]] + nls.skip(u + 2)));
            lemma_levels_runs_concat(seq![nls[u as int]], seq![nls[u + 1]] + nls.skip(u + 2));
            lemma_levels_runs_concat(seq![nls[u + 1]], nls.skip(u + 2));
            assert(seq![nls[u as int]].skip(1) =~= Seq::<Level>::empty());
            assert(seq![nls[u + 1]].skip(1) =~= Seq::<Level>::empty());
            assert(levels_runs(Seq::<Level>::empty()) =~= Seq::<Seq<RecordV>>::empty());
            assert(levels_runs(seq![nls[u as int]]) =~= table_runs(nls[u as int].tables@));
            assert(levels_runs(seq![nls[u + 1]]) =~= table_runs(nls[u + 1].tables@));
            assert(nls.take(u as int) =~= ls.take(u as int));
            assert(nls.skip(u + 2) =~= ls.skip(u + 2));
            assert(table_runs(nls[u as int].tables@) =~= Seq::<Seq<RecordV>>::empty());
            assert(self.all_runs() =~= p + c + q);
            if drop {
                assert forall|i: int| 0 <= i < ls.skip(u + 2).len()
                    implies (#[trigger] ls.skip(u + 2)[i]).tables@.len() == 0 by {
                    assert(ls.skip(u + 2)[i] == ls[u + 2 + i]);
                }
                lemma_empty_levels_runs(ls.skip(u + 2));
            }
            crate::merge::lemma_replace_adjacent(p, b, c, q, merged.deep_view(), drop);
            assert forall|k: Seq<u8>| #[trigger] self.view_of(k) == old(self).view_of(k) by {
                assert(visible(p + c + q, k) == visible(p + b + q, k));
            }
        }
        true
    }
}

/// Splits one sorted run into tables of `target_size` bytes, with
/// consecutive, disjoint key ranges and consecutive file ids: every table
/// but the last holds at least `target_size` bytes, and none exceeds it by
/// more than its own last record.
pub fn split_into_tables(entries: &Vec<Record>, first_id: u64, target_size: usize, block_size: usize)
    -> (ts: Vec<SsTable>)
    requires
        sorted_run(entries.deep_view()),
        block_size > 0,
        target_size > 0,
        first_id + entries@.len() <= u64::MAX,
    ensures
        forall|i: int| 0 <= i < ts@.len() ==> (#[trigger] ts@[i]).wf(),
        level_tables_disjoint(ts@),
        concat_runs(table_runs(ts@)) == entries.deep_view(),
        forall|i: int| 0 <= i < ts@.len() ==> (#[trigger] ts@[i]).id == first_id + i,
        ts@.len() <= entries@.len(),
        forall|i: int| 0 <= i < ts@.len() - 1
            ==> sat_charge((#[trigger] ts@[i]).as_run(), 0, ts@[i].as_run().len() as int)
                >= target_size,
        forall|i: int| 0 <= i < ts@.len()
            ==> sat_charge((#[trigger] ts@[i]).as_run(), 0, ts@[i].as_run().len() - 1)
                < target_size,
{
    let ghost dv = entries.deep_view();
    let mut ts: Vec<SsTable> = Vec::new();
    proof {
        assert(table_runs(ts@) =~= Seq::<Seq<RecordV>>::empty());
        assert(concat_runs(table_runs(ts@)) =~= dv.take(0));
    }
    let mut start: usize = 0;
    while start < entries.len()
        invariant
            start <= dv.len(),
            dv == entries.deep_view(),
            sorted_run(dv),
            block_size > 0,
            target_size > 0,
            first_id + dv.len() <= u64::MAX,
            concat_runs(table_runs(ts@)) == dv.take(start as int),
            forall|i: int| 0 <= i < ts@.len() ==> (#[trigger] ts@[i]).wf(),
            forall|i: int| 0 <= i < ts@.len() ==> (#[trigger] ts@[i]).id == first_id + i,
            ts@.len() <= start,
            forall|j: int, idx: int|
                #![trigger ts@[j], dv[idx]]
                0 <= j < ts@.len() && start <= idx < dv.len()
                    ==> lex_lt(ts@[j].last_key(), dv[idx].key),
            level_tables_disjoint(ts@),
            forall|j: int| 0 <= j < ts@.len() && (j < ts@.len() - 1 || start < dv.len())
                ==> sat_charge((#[trigger] ts@[j]).as_run(), 0, ts@[j].as_run().len() as int)
                    >= target_size,
            forall|j: int| 0 <= j < ts@.len()
                ==> sat_charge((#[trigger] ts@[j]).as_run(), 0, ts@[j].as_run().len() - 1)
                    < target_size,
        decreases dv.len() - start,
    {
        let mut end: usize = start + 1;
        let mut bytes: usize = entries[start].key.len().saturating_add(match &entries[start].value {
            Option::Some(v) => v.len(),
            Option::None => 0,
        });
        proof {
            assert(charge_sum(dv, start as int, start + 1)
                == charge_sum(dv, start as int, start as int) + record_charge(dv[start as int]));
            assert(bytes == sat_charge(dv, start as int, start + 1));
        }
        while end < entries.len() && bytes < target_size
            invariant
                start < end <= dv.len(),
                dv == entries.deep_view(),
                target_size > 0,
                bytes == sat_charge(dv, start as int, end as int),
                sat_charge(dv, start as int, end - 1) < target_size,
            decreases dv.len() - end,
        {
            let charge = entries[end].key.len().saturating_add(match &entries[end].value {
                Option::Some(v) => v.len(),
                Option::None => 0,
            });
            proof {
                lemma_charge_sum_nonneg(dv, start as int, end as int);
                assert(charge == if record_charge(dv[end as int]) <= usize::MAX {
                    record_charge(dv[end as int]) as int
                } else {
                    usize::MAX as int
                });
                assert(charge_sum(dv, start as int, end + 1)
                    == charge_sum(dv, start as int, end as int) + record_charge(dv[end as int]));
            }
            bytes = bytes.saturating_add(charge);
            end = end + 1;
        }
        let chunk = clone_subrange(entries, start, end);
        proof {
            assert(chunk@.len() == chunk.deep_view().len());
            assert forall|x: int, y: int| 0 <= x < y < chunk.deep_view().len()
                implies lex_lt(#[trigger] chunk.deep_view()[x].key, #[trigger] chunk.deep_view()[y].key) by {
                assert(chunk.deep_view()[x] == dv[start + x]);
                assert(chunk.deep_view()[y] == dv[start + y]);
            }
        }
        let table = SsTable::build(first_id + (ts.len() as u64), chunk, block_size);
        let ghost old_ts = ts@;
        ts.push(table);
        proof {
            assert(ts@ =~= old_ts.push(table));
            assert(table_runs(ts@) =~= table_runs(old_ts).push(table.as_run()));
            lemma_concat_runs_push(table_runs(old_ts), table.as_run());
            assert(concat_runs(table_runs(ts@)) =~= dv.take(end as int));
            assert(table.as_run().last() == dv[end - 1]);
            assert(table.last_key() == dv[end - 1].key);
            assert(table.first_key() == dv[start as int].key);
            assert forall|j: int, idx: int|
                #![trigger ts@[j], dv[idx]]
                0 <= j < ts@.len() && end <= idx < dv.len()
                    implies lex_lt(ts@[j].last_key(), dv[idx].key) by {
                if j < old_ts.len() {
                    assert(ts@[j] == old_ts[j]);
                    assert(lex_lt(old_ts[j].last_key(), dv[idx].key));
                } else {
                    assert(ts@[j] == table);
                    assert(lex_lt(dv[end - 1].key, dv[idx].key));
                }
            }
            assert forall|a: int, b: int| 0 <= a < b < ts@.len()
                implies lex_lt((#[trigger] ts@[a]).last_key(), (#[trigger] ts@[b]).first_key()) by {
                if b < old_ts.len() {
                    assert(ts@[a] == old_ts[a] && ts@[b] == old_ts[b]);
                } else {
                    assert(ts@[b] == table);
                    assert(ts@[a] == old_ts[a]);
                    assert(lex_lt(old_ts[a].last_key(), dv[start as int].key));
                }
            }
            // The chunk's byte charges read the same as the source's.
            let cl = (end - start) as int;
            lemma_charge_sub(dv, start as int, end as int, cl);
            lemma_charge_sub(dv, start as int, end as int, cl - 1);
            assert(table.as_run() == dv.subrange(start as int, end as int));
            assert(sat_charge(table.as_run(), 0, cl) == sat_charge(dv, start as int, end as int));
            assert(sat_charge(table.as_run(), 0, cl - 1) == sat_charge(dv, start as int, end - 1));
            assert forall|j: int| 0 <= j < ts@.len() && (j < ts@.len() - 1 || end < dv.len())
                implies sat_charge((#[trigger] ts@[j]).as_run(), 0, ts@[j].as_run().len() as int)
                    >= target_size by {
                if j < old_ts.len() {
                    assert(ts@[j] == old_ts[j]);
                } else {
                    assert(ts@[j] == table);
                }
            }
            assert forall|j: int| 0 <= j < ts@.len()
                implies sat_charge((#[trigger] ts@[j]).as_run(), 0, ts@[j].as_run().len() - 1)
                    < target_size by {
                if j < old_ts.len() {
                    assert(ts@[j] == old_ts[j]);
                } else {
                    assert(ts@[j] == table);
                }
            }
        }
        start = end;
    }
    proof {
        assert(dv.take(dv.len() as int) =~= dv);
    }
    ts
}

impl LsmStorageState {
    /// Clones every run of the snapshot, newest first, as merge input.
    pub fn collect_all_runs(&self) -> (r: Vec<Vec<Record>>)
        ensures
            r.deep_view() == self.all_runs(),
    {
        let ghost pfx = seq![self.memtable.entries.deep_view()] + mem_runs(self.imm_memtables@)
            + table_runs(self.l0_sstables@);
        let mut r: Vec<Vec<Record>> = Vec::new();
        let run0 = clone_records(&self.memtable.entries);
        r.push(run0);
        proof {
            assert(r.deep_view() =~= seq![self.memtable.entries.deep_view()]);
        }
        let mut i: usize = 0;
        while i < self.imm_memtables.len()
            invariant
                i <= self.imm_memtables@.len(),
                r.deep_view() == seq![self.memtable.entries.deep_view()]
                    + mem_runs(self.imm_memtables@).take(i as int),
            decreases self.imm_memtables@.len() - i,
        {
            let run = clone_records(&self.imm_memtables[i].entries);
            let ghost pre = r.deep_view();
            r.push(run);
            proof {
                assert(r@.len() == pre.len() + 1);
                assert(r.deep_view().len() == r@.len());
                assert forall|x: int| 0 <= x < r.deep_view().len()
                    implies #[trigger] r.deep_view()[x] == (seq![self.memtable.entries.deep_view()]
                        + mem_runs(self.imm_memtables@).take(i + 1))[x] by {
                    if x < pre.len() {
                        assert(r.deep_view()[x] == pre[x]);
                    } else {
                        assert(r.deep_view()[x] == run.deep_view());
                    }
                }
                assert(r.deep_view() =~= seq![self.memtable.entries.deep_view()]
                    + mem_runs(self.imm_memtables@).take(i + 1));
            }
            i = i + 1;
        }
        let mut j: usize = 0;
        proof {
            assert(mem_runs(self.imm_memtables@).take(self.imm_memtables@.len() as int)
                =~= mem_runs(self.imm_memtables@));
        }
        while j < self.l0_sstables.len()
            invariant
                j <= self.l0_sstables@.len(),
                r.deep_view() == seq![self.memtable.entries.deep_view()]
                    + mem_runs(self.imm_memtables@) + table_runs(self.l0_sstables@).take(j as int),
            decreases self.l0_sstables@.len() - j,
        {
            let run = clone_records(&self.l0_sstables[j].entries);
            let ghost pre = r.deep_view();
            r.push(run);
            proof {
                assert(r@.len() == pre.len() + 1);
                assert(r.deep_view().len() == r@.len());
                assert forall|x: int| 0 <= x < r.deep_view().len()
                    implies #[trigger] r.deep_view()[x] == (seq![self.memtable.entries.deep_view()]
                        + mem_runs(self.imm_memtables@)
                        + table_runs(self.l0_sstables@).take(j + 1))[x] by {
                    if x < pre.len() {
                        assert(r.deep_view()[x] == pre[x]);
                    } else {
                        assert(r.deep_view()[x] == run.deep_view());
                    }
                }
                assert(r.deep_view() =~= seq![self.memtable.entries.deep_view()]
                    + mem_runs(self.imm_memtables@) + table_runs(self.l0_sstables@).take(j + 1));
            }
            j = j + 1;
        }
        proof {
            assert(table_runs(self.l0_sstables@).take(self.l0_sstables@.len() as int)
                =~= table_runs(self.l0_sstables@));
            assert(r.deep_view() == pfx + levels_runs(self.levels@.take(0)));
        }
        let mut li: usize = 0;
        while li < self.levels.len()
            invariant
                li <= self.levels@.len(),
                pfx == seq![self.memtable.entries.deep_view()] + mem_runs(self.imm_memtables@)
                    + table_runs(self.l0_sstables@),
                r.deep_view() == pfx + levels_runs(self.levels@.take(li as int)),
            decreases self.levels@.len() - li,
        {
            let ghost ts = self.levels@[li as int].tables@;
            let mut ti: usize = 0;
            while ti < self.levels[li].tables.len()
                invariant
                    li < self.levels@.len(),
                    ts == self.levels@[li as int].tables@,
                    ti <= ts.len(),
                    pfx == seq![self.memtable.entries.deep_view()] + mem_runs(self.imm_memtables@)
                        + table_runs(self.l0_sstables@),
                    r.deep_view() == pfx + levels_runs(self.levels@.take(li as int))
                        + table_runs(ts).take(ti as int),
                decreases ts.len() - ti,
            {
                let run = clone_records(&self.levels[li].tables[ti].entries);
                let ghost pre = r.deep_view();
                r.push(run);
                proof {
                    assert(r@.len() == pre.len() + 1);
                    assert(r.deep_view().len() == r@.len());
                    assert forall|x: int| 0 <= x < r.deep_view().len()
                        implies #[trigger] r.deep_view()[x] == (pfx
                            + levels_runs(self.levels@.take(li as int))
                            + table_runs(ts).take(ti + 1))[x] by {
                        if x < pre.len() {
                            assert(r.deep_view()[x] == pre[x]);
                        } else {
                            assert(r.deep_view()[x] == run.deep_view());
                        }
                    }
                    assert(r.deep_view() =~= pfx + levels_runs(self.levels@.take(li as int))
                        + table_runs(ts).take(ti + 1));
                }
                ti = ti + 1;
            }
            proof {
                assert(table_runs(ts).take(ts.len() as int) =~= table_runs(ts));
                assert(self.levels@.take(li + 1) =~= self.levels@.take(li as int) + seq![self.levels@[li as int]]);
                lemma_levels_runs_concat(self.levels@.take(li as int), seq![self.levels@[li as int]]);
                assert(seq![self.levels@[li as int]][0] == self.levels@[li as int]);
                assert(seq![self.levels@[li as int]].skip(1) =~= Seq::<Level>::empty());
                assert(levels_runs(Seq::<Level>::empty()) =~= Seq::<Seq<RecordV>>::empty());
                assert(levels_runs(seq![self.levels@[li as int]]) =~= table_runs(ts));
                assert(r.deep_view() =~= pfx + levels_runs(self.levels@.take(li + 1)));
            }
            li = li + 1;
        }
        proof {
            assert(self.levels@.take(self.levels@.len() as int) =~= self.levels@);
            assert(r.deep_view() =~= self.all_runs());
        }
        r
    }

    /// Range scan: every key the snapshot makes visible between the bounds
    /// (both inclusive), in ascending order, with its newest value.
    pub fn scan(&self, lower: &Vec<u8>, upper: &Vec<u8>) -> (out: Vec<Record>)
        requires
            self.wf(),
        ensures
            sorted_run(out.deep_view()),
            forall|k: Seq<u8>|
                #![trigger run_map(out.deep_view()).contains_key(k)]
                run_map(out.deep_view()).contains_key(k) <==> (crate::order::lex_le(lower@, k)
                    && crate::order::lex_le(k, upper@) && self.view_of(k) is Some),
            forall|k: Seq<u8>|
                #![trigger run_map(out.deep_view())[k]]
                run_map(out.deep_view()).contains_key(k)
                    ==> run_map(out.deep_view())[k].value == self.view_of(k)
                        && run_map(out.deep_view())[k].key == k,
    {
        let runs = self.collect_all_runs();
        proof {
            assert forall|i: int| 0 <= i < runs.deep_view().len()
                implies sorted_run(#[trigger] runs.deep_view()[i]) by {
                lemma_all_runs_sorted(*self, i);
            }
        }
        let merged = merge_runs(&runs, false);
        let ghost md = merged.deep_view();
        let mut out: Vec<Record> = Vec::new();
        proof {
            assert(run_map(out.deep_view()) =~= run_map(md.take(0)));
            assert(out.deep_view() =~= Seq::<RecordV>::empty());
        }
        let mut i: usize = 0;
        while i < merged.len()
            invariant
                i <= md.len(),
                md == merged.deep_view(),
                sorted_run(md),
                sorted_run(out.deep_view()),
                forall|k: Seq<u8>|
                    #![trigger run_map(out.deep_view()).contains_key(k)]
                    #![trigger run_map(md.take(i as int)).contains_key(k)]
                    (run_map(out.deep_view()).contains_key(k) <==> (run_map(md.take(i as int)).contains_key(k)
                        && crate::order::lex_le(lower@, k) && crate::order::lex_le(k, upper@)
                        && run_map(md.take(i as int))[k].value is Some))
                    && (run_map(out.deep_view()).contains_key(k)
                        ==> run_map(out.deep_view())[k] == run_map(md.take(i as int))[k]),
            decreases md.len() - i,
        {
            let e = &merged[i];
            let keep = match &e.value {
                Option::Some(_) => crate::order::key_le(lower, &e.key) && crate::order::key_le(&e.key, upper),
                Option::None => false,
            };
            proof {
                assert(md.take(i + 1) =~= md.take(i as int).push(md[i as int]));
                crate::types::lemma_run_map_push(md.take(i as int), md[i as int]);
                crate::types::lemma_run_map_contains(md.take(i as int), md[i as int].key);
                assert forall|x: int| 0 <= x < md.take(i as int).len()
                    implies lex_lt((#[trigger] md.take(i as int)[x]).key, md[i as int].key) by {
                    assert(md.take(i as int)[x] == md[x]);
                }
                crate::order::lex_lt_irreflexive(md[i as int].key);
            }
            if keep {
                let dup = e.duplicate();
                let ghost pre = out.deep_view();
                proof {
                    assert forall|x: int| 0 <= x < pre.len()
                        implies lex_lt(pre[x].key, md[i as int].key) by {
                        crate::types::lemma_run_map_index(pre, x);
                        crate::types::lemma_run_map_contains(md.take(i as int), pre[x].key);
                    }
                }
                out.push(dup);
                proof {
                    assert(out@.len() == pre.len() + 1);
                    assert(out.deep_view().len() == out@.len());
                    assert(out.deep_view() =~= pre.push(md[i as int]));
                    crate::types::lemma_run_map_push(pre, md[i as int]);
                    assert forall|x: int, y: int| 0 <= x < y < out.deep_view().len()
                        implies lex_lt(#[trigger] out.deep_view()[x].key, #[trigger] out.deep_view()[y].key) by {
                        if y == out.deep_view().len() - 1 {
                            assert(out.deep_view()[x] == pre[x]);
                        } else {
                            assert(out.deep_view()[x] == pre[x] && out.deep_view()[y] == pre[y]);
                        }
                    }
                }
            }
            i = i + 1;
        }
        proof {
            assert(md.take(md.len() as int) =~= md);
            assert forall|k: Seq<u8>|
                (#[trigger] run_map(out.deep_view()).contains_key(k) <==> (crate::order::lex_le(lower@, k)
                    && crate::order::lex_le(k, upper@) && self.view_of(k) is Some))
                && (run_map(out.deep_view()).contains_key(k)
                    ==> run_map(out.deep_view())[k].value == self.view_of(k)
                        && run_map(out.deep_view())[k].key == k) by {
                assert(runs_find(self.all_runs(), k) == runs_find(runs.deep_view(), k));
                if run_map(md).contains_key(k) {
                    crate::types::lemma_run_map_contains(md, k);
                    let w = choose|w: int| 0 <= w < md.len() && (#[trigger] md[w].key) == k;
                    crate::types::lemma_run_map_index(md, w);
                }
            }
        }
        out
    }
}

/// The leveled-mode invariant, stated on its own: in any well-formed
/// snapshot at rest, every governed level's tables hold pairwise
/// non-overlapping key ranges, ascending by key.
pub proof fn lemma_levels_ranges_disjoint(s: LsmStorageState, i: int)
    requires
        s.wf(),
        0 <= i < s.levels@.len(),
    ensures
        level_tables_disjoint(s.levels@[i].tables@),
{
}

/// Every run a well-formed snapshot holds is sorted.
pub proof fn lemma_all_runs_sorted(s: LsmStorageState, i: int)
    requires
        s.wf(),
        0 <= i < s.all_runs().len(),
    ensures
        sorted_run(s.all_runs()[i]),
{
    let rs = s.all_runs();
    let n1 = 1 + mem_runs(s.imm_memtables@).len();
    let n2 = n1 + table_runs(s.l0_sstables@).len();
    if i == 0 {
        assert(rs[i] == s.memtable.entries.deep_view());
    } else if i < n1 {
        assert(rs[i] == s.imm_memtables@[i - 1].entries.deep_view());
    } else if i < n2 {
        assert(rs[i] == s.l0_sstables@[i - n1].as_run());
    } else {
        lemma_levels_runs_sorted(s.levels@, i - n2);
        assert(rs[i] == levels_runs(s.levels@)[i - n2]);
    }
}

proof fn lemma_levels_runs_sorted(ls: Seq<Level>, i: int)
    requires
        forall|a: int, b: int| 0 <= a < ls.len() && 0 <= b < (#[trigger] ls[a]).tables@.len()
            ==> sorted_run((#[trigger] ls[a].tables@[b]).as_run()),
        0 <= i < levels_runs(ls).len(),
    ensures
        sorted_run(levels_runs(ls)[i]),
    decreases ls.len(),
{
    let head = table_runs(ls[0].tables@);
    if i < head.len() {
        assert(levels_runs(ls)[i] == ls[0].tables@[i].as_run());
    } else {
        assert(forall|a: int| 0 <= a < ls.skip(1).len() ==> #[trigger] ls.skip(1)[a] == ls[a + 1]);
        lemma_levels_runs_sorted(ls.skip(1), i - head.len());
        assert(levels_runs(ls)[i] == levels_runs(ls.skip(1))[i - head.len()]);
    }
}

/// Clones the runs of two table lists, in order, as merge input.
pub fn collect_table_runs(a: &Vec<SsTable>, b: &Vec<SsTable>) -> (r: Vec<Vec<Record>>)
    ensures
        r.deep_view() == table_runs(a@) + table_runs(b@),
{
    let mut r: Vec<Vec<Record>> = Vec::new();
    let mut i: usize = 0;
    while i < a.len()
        invariant
            i <= a@.len(),
            r.deep_view() == table_runs(a@).take(i as int),
        decreases a@.len() - i,
    {
        let run = clone_records(&a[i].entries);
        let ghost pre = r.deep_view();
        r.push(run);
        proof {
            assert forall|j: int| 0 <= j < r.deep_view().len()
                implies #[trigger] r.deep_view()[j] == table_runs(a@).take(i + 1)[j] by {
                if j < pre.len() {
                    assert(r.deep_view()[j] == pre[j]);
                } else {
                    assert(r.deep_view()[j] == run.deep_view());
                }
            }
            assert(pre.len() == i as int);
            assert(r@.len() == pre.len() + 1);
            assert(r.deep_view().len() == r@.len());
            assert(r.deep_view() =~= table_runs(a@).take(i + 1));
        }
        i = i + 1;
    }
    let mut j: usize = 0;
    while j < b.len()
        invariant
            j <= b@.len(),
            r.deep_view() == table_runs(a@) + table_runs(b@).take(j as int),
        decreases b@.len() - j,
    {
        let run = clone_records(&b[j].entries);
        let ghost pre = r.deep_view();
        r.push(run);
        proof {
            assert forall|x: int| 0 <= x < r.deep_view().len()
                implies #[trigger] r.deep_view()[x] == (table_runs(a@) + table_runs(b@).take(j + 1))[x] by {
                if x < pre.len() {
                    assert(r.deep_view()[x] == pre[x]);
                } else {
                    assert(r.deep_view()[x] == run.deep_view());
                }
            }
            assert(pre.len() == table_runs(a@).len() + j);
            assert(r@.len() == pre.len() + 1);
            assert(r.deep_view().len() == r@.len());
            assert(r.deep_view() =~= table_runs(a@) + table_runs(b@).take(j + 1));
        }
        j = j + 1;
    }
    proof {
        assert(table_runs(a@).take(a@.len() as int) =~= table_runs(a@));
        assert(table_runs(a@) + table_runs(b@).take(b@.len() as int) =~= table_runs(a@) + table_runs(b@));
    }
    r
}

} // verus!
