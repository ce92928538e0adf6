//! The in-memory write buffer.
//!
//! A memtable keeps records sorted by key and, alongside, the write-ahead
//! log of the puts applied to it, in application order: its sorted contents
//! are always exactly what replaying that log yields, which is what crash
//! recovery relies on.

use vstd::prelude::*;

use crate::order::{lex_lt, lex_lt_transitive, lex_lt_trichotomy, key_lt, key_eq};
use crate::types::{Record, RecordV, sorted_run, run_map, run_get, lemma_run_map_index, lemma_run_map_contains};

verus! {

/// The map that applying a log of writes in order produces.
pub open spec fn replay_map(h: Seq<RecordV>) -> Map<Seq<u8>, RecordV>
    decreases h.len(),
{
    if h.len() == 0 {
        Map::empty()
    } else {
        replay_map(h.drop_last()).insert(h.last().key, h.last())
    }
}

proof fn lemma_run_map_insert(s: Seq<RecordV>, pos: int, x: RecordV)
    requires
        sorted_run(s),
        0 <= pos <= s.len(),
        forall|i: int| 0 <= i < pos ==> lex_lt(#[trigger] s[i].key, x.key),
        forall|i: int| pos <= i < s.len() ==> lex_lt(x.key, #[trigger] s[i].key),
    ensures
        sorted_run(s.insert(pos, x)),
        run_map(s.insert(pos, x)) == run_map(s).insert(x.key, x),
    decreases s.len(),
{
    let t = s.insert(pos, x);
    assert forall|i: int, j: int| 0 <= i < j < t.len()
        implies lex_lt(#[trigger] t[i].key, #[trigger] t[j].key) by {
        if i < pos && j > pos {
            assert(t[i] == s[i] && t[j] == s[j - 1]);
        } else if i == pos && j > pos {
            assert(t[j] == s[j - 1]);
        } else if j == pos && i < pos {
            assert(t[i] == s[i]);
        } else if j < pos {
            assert(t[i] == s[i] && t[j] == s[j]);
        } else if i > pos {
            assert(t[i] == s[i - 1] && t[j] == s[j - 1]);
        }
    }
    if pos == s.len() {
        assert(t =~= s.push(x));
        crate::types::lemma_run_map_push(s, x);
    } else {
        assert(t.drop_last() =~= s.drop_last().insert(pos, x));
        assert(t.last() == s.last());
        assert(sorted_run(s.drop_last()) && forall|i: int|
            0 <= i < s.drop_last().len() ==> #[trigger] s.drop_last()[i] == s[i]);
        lemma_run_map_insert(s.drop_last(), pos, x);
        lex_lt_trichotomy(x.key, s.last().key);
        assert(run_map(t) == run_map(s.drop_last()).insert(x.key, x).insert(s.last().key, s.last()));
        assert(run_map(s.drop_last()).insert(x.key, x).insert(s.last().key, s.last())
            =~= run_map(s.drop_last()).insert(s.last().key, s.last()).insert(x.key, x));
    }
}

proof fn lemma_run_map_update(s: Seq<RecordV>, pos: int, x: RecordV)
    requires
        sorted_run(s),
        0 <= pos < s.len(),
        s[pos].key == x.key,
    ensures
        sorted_run(s.update(pos, x)),
        run_map(s.update(pos, x)) == run_map(s).insert(x.key, x),
    decreases s.len(),
{
    let t = s.update(pos, x);
    assert forall|i: int, j: int| 0 <= i < j < t.len()
        implies lex_lt(#[trigger] t[i].key, #[trigger] t[j].key) by {
        assert(s[i].key == t[i].key && s[j].key == t[j].key);
    }
    if pos == s.len() - 1 {
        assert(t.drop_last() =~= s.drop_last());
        assert(t.last() == x);
        assert(run_map(s).insert(x.key, x)
            =~= run_map(s.drop_last()).insert(x.key, x));
    } else {
        assert(t.drop_last() =~= s.drop_last().update(pos, x));
        assert(t.last() == s.last());
        assert(sorted_run(s.drop_last()) && forall|i: int|
            0 <= i < s.drop_last().len() ==> #[trigger] s.drop_last()[i] == s[i]);
        lemma_run_map_update(s.drop_last(), pos, x);
        assert(lex_lt(s[pos].key, s.last().key));
        lex_lt_trichotomy(x.key, s.last().key);
        assert(run_map(t) == run_map(s.drop_last()).insert(x.key, x).insert(s.last().key, s.last()));
        assert(run_map(s.drop_last()).insert(x.key, x).insert(s.last().key, s.last())
            =~= run_map(s.drop_last()).insert(s.last().key, s.last()).insert(x.key, x));
    }
}

/// How many bytes a record is charged for in size accounting.
pub open spec fn record_charge(r: RecordV) -> nat {
    r.key.len() + match r.value {
        Option::Some(v) => v.len(),
        Option::None => 0,
    }
}

/// The sorted in-memory write buffer, with its write-ahead log.
pub struct MemTable {
    /// Records sorted by key, one per key.
    pub entries: Vec<Record>,
    /// Generation id, assigned at creation and never reused.
    pub id: u64,
    /// The write-ahead log: every applied put, in application order.
    pub wal: Vec<Record>,
    /// Approximate byte size, for flush triggering.
    pub size: usize,
    /// A frozen memtable accepts no further writes.
    pub frozen: bool,
}

impl MemTable {
    /// The contents as a map from key to record.
    pub open spec fn as_map(self) -> Map<Seq<u8>, RecordV> {
        run_map(self.entries.deep_view())
    }

    /// Sorted contents, and contents reconstructible from the log.
    pub open spec fn wf(self) -> bool {
        &&& sorted_run(self.entries.deep_view())
        &&& self.as_map() == replay_map(self.wal.deep_view())
    }

    /// A fresh, empty, mutable memtable of the given generation.
    pub fn new(id: u64) -> (r: MemTable)
        ensures
            r.wf(),
            r.id == id,
            !r.frozen,
            r.entries@.len() == 0,
            r.wal@.len() == 0,
            r.size == 0,
            r.as_map() == Map::<Seq<u8>, RecordV>::empty(),
    {
        let r = MemTable { entries: Vec::new(), id, wal: Vec::new(), size: 0, frozen: false };
        proof {
            assert(r.entries.deep_view() =~= Seq::<RecordV>::empty());
            assert(r.wal.deep_view() =~= Seq::<RecordV>::empty());
        }
        r
    }

    /// Inserts or overwrites a record, appending it to the log first.
    ///
    /// A put with `value == None` writes a tombstone recording a deletion.
    pub fn put(&mut self, key: Vec<u8>, value: Option<Vec<u8>>, seq: u64)
        requires
            old(self).wf(),
            !old(self).frozen,
        ensures
            final(self).wf(),
            !final(self).frozen,
            final(self).id == old(self).id,
            final(self).as_map() == old(self).as_map().insert(
                key@,
                RecordV { key: key@, value: value.deep_view(), seq },
            ),
            final(self).wal.deep_view() == old(self).wal.deep_view().push(
                RecordV { key: key@, value: value.deep_view(), seq },
            ),
    {
        let rec = Record { key, value, seq };
        let ghost rv = rec@;
        let logged = rec.duplicate();
        let ghost old_wal = self.wal.deep_view();
        self.wal.push(logged);
        proof {
            assert(self.wal.deep_view() =~= old_wal.push(rec@));
        }
        let charge = rec.key.len().saturating_add(match &rec.value {
            Option::Some(v) => v.len(),
            Option::None => 0,
        });
        self.size = self.size.saturating_add(charge);
        // Find the insertion point: the first entry at or above the key.
        let ghost s = self.entries.deep_view();
        let mut lo: usize = 0;
        let mut hi: usize = self.entries.len();
        while lo < hi
            invariant
                0 <= lo <= hi <= self.entries.len(),
                self.entries.deep_view() == s,
                sorted_run(s),
                forall|i: int| 0 <= i < lo ==> lex_lt(#[trigger] s[i].key, rec@.key),
                forall|i: int| hi <= i < s.len() ==> !lex_lt(#[trigger] s[i].key, rec@.key),
            decreases hi - lo,
        {
            let mid: usize = lo + (hi - lo) / 2;
            if key_lt(&self.entries[mid].key, &rec.key) {
                proof {
                    assert forall|i: int| 0 <= i < mid + 1 implies lex_lt(#[trigger] s[i].key, rec@.key) by {
                        if i < mid {
                            lex_lt_transitive(s[i].key, s[mid as int].key, rec@.key);
                        }
                    }
                }
                lo = mid + 1;
            } else {
                proof {
                    assert forall|i: int| mid <= i < s.len() implies !lex_lt(#[trigger] s[i].key, rec@.key) by {
                        if i > mid {
                            lex_lt_trichotomy(s[i].key, rec@.key);
                            if lex_lt(s[i].key, rec@.key) {
                                lex_lt_transitive(s[mid as int].key, s[i].key, rec@.key);
                            }
                        }
                    }
                }
                hi = mid;
            }
        }
        if lo < self.entries.len() && key_eq(&self.entries[lo].key, &rec.key) {
            proof {
                lemma_run_map_update(s, lo as int, rv);
            }
            self.entries.remove(lo);
            self.entries.insert(lo, rec);
            proof {
                assert(self.entries.deep_view() =~= s.update(lo as int, rv));
            }
        } else {
            proof {
                assert forall|i: int| lo <= i < s.len() implies lex_lt(rv.key, #[trigger] s[i].key) by {
                    lex_lt_trichotomy(rv.key, s[i].key);
                    if i != lo {
                        lex_lt_trichotomy(rv.key, s[lo as int].key);
                    }
                }
                lemma_run_map_insert(s, lo as int, rv);
            }
            self.entries.insert(lo, rec);
            proof {
                assert(self.entries.deep_view() =~= s.insert(lo as int, rv));
            }
        }
        proof {
            let h = self.wal.deep_view();
            assert(h.drop_last() =~= old_wal);
            assert(h.last() == rv);
            assert(replay_map(h) == replay_map(old_wal).insert(rv.key, rv));
        }
    }

    /// The newest record for `key`, if this table holds one.
    pub fn get<'a>(&'a self, key: &Vec<u8>) -> (r: Option<&'a Record>)
        requires
            self.wf(),
        ensures
            match r {
                Option::Some(e) => self.as_map().contains_key(key@) && e@ == self.as_map()[key@],
                Option::None => !self.as_map().contains_key(key@),
            },
    {
        run_get(&self.entries, key)
    }

    /// Rebuilds a memtable by replaying a write-ahead log: the recovered
    /// contents are exactly what the logged puts produce, in order.
    pub fn rebuild(id: u64, wal: &Vec<Record>) -> (r: MemTable)
        ensures
            r.wf(),
            r.id == id,
            !r.frozen,
            r.as_map() == replay_map(wal.deep_view()),
            r.wal.deep_view() == wal.deep_view(),
    {
        let mut r = MemTable::new(id);
        proof {
            assert(wal.deep_view().take(0) =~= Seq::<RecordV>::empty());
            assert(r.wal.deep_view() =~= wal.deep_view().take(0));
        }
        let mut i: usize = 0;
        while i < wal.len()
            invariant
                i <= wal@.len(),
                r.wf(),
                !r.frozen,
                r.id == id,
                r.as_map() == replay_map(wal.deep_view().take(i as int)),
                r.wal.deep_view() == wal.deep_view().take(i as int),
            decreases wal@.len() - i,
        {
            let rec = wal[i].duplicate();
            let ghost rv = rec@;
            let Record { key, value, seq } = rec;
            proof {
                assert(rv == RecordV { key: key@, value: value.deep_view(), seq });
            }
            r.put(key, value, seq);
            proof {
                assert(wal.deep_view().take(i + 1).drop_last() =~= wal.deep_view().take(i as int));
                assert(wal.deep_view().take(i + 1).last() == rv);
                assert(r.wal.deep_view() =~= wal.deep_view().take(i + 1));
                assert(r.as_map() == replay_map(wal.deep_view().take(i + 1)));
            }
            i = i + 1;
        }
        proof {
            assert(wal.deep_view().take(wal@.len() as int) =~= wal.deep_view());
        }
        r
    }

    /// Marks the table immutable; callers must already have rotated to a new
    /// active memtable.
    pub fn freeze(&mut self)
        requires
            old(self).wf(),
        ensures
            final(self).wf(),
            final(self).frozen,
            final(self).entries == old(self).entries,
            final(self).wal == old(self).wal,
            final(self).id == old(self).id,
            final(self).size == old(self).size,
    {
        self.frozen = true;
    }
}

} // verus!
