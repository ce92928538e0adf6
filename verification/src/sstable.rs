//! Immutable sorted tables.
//!
//! A table is built once, by flush or compaction, from an already-sorted run
//! of records streamed into blocks of a configured byte size. A block index
//! records where each block starts and point lookups binary-search it before
//! scanning a single block.

use vstd::prelude::*;

use crate::memtable::record_charge;
use crate::order::{lex_lt, lex_lt_irreflexive, lex_lt_transitive, lex_lt_trichotomy, key_lt, key_eq};
use crate::types::{Record, RecordV, sorted_run, run_map, lemma_run_map_index, lemma_run_map_contains};

verus! {

/// Byte charge of the records `s[from..to)`.
pub open spec fn charge_sum(s: Seq<RecordV>, from: int, to: int) -> int
    decreases to - from,
{
    if to <= from {
        0
    } else {
        charge_sum(s, from, to - 1) + record_charge(s[to - 1])
    }
}

/// The same, saturated at the accounting limit.
pub open spec fn sat_charge(s: Seq<RecordV>, from: int, to: int) -> int {
    if charge_sum(s, from, to) <= usize::MAX {
        charge_sum(s, from, to)
    } else {
        usize::MAX as int
    }
}

pub proof fn lemma_charge_sum_nonneg(s: Seq<RecordV>, from: int, to: int)
    ensures
        charge_sum(s, from, to) >= 0,
    decreases to - from,
{
    if to > from {
        lemma_charge_sum_nonneg(s, from, to - 1);
    }
}

/// Charges read the same through a subrange.
pub proof fn lemma_charge_sub(s: Seq<RecordV>, from: int, to: int, k: int)
    requires
        0 <= from <= to <= s.len(),
        0 <= k <= to - from,
    ensures
        charge_sum(s.subrange(from, to), 0, k) == charge_sum(s, from, from + k),
    decreases k,
{
    if k > 0 {
        lemma_charge_sub(s, from, to, k - 1);
        assert(s.subrange(from, to)[k - 1] == s[from + k - 1]);
    }
}

/// An immutable sorted run with a monotonic file id and a block index.
pub struct SsTable {
    /// File id; monotonic, never reused.
    pub id: u64,
    /// The records, sorted by key, one per key.
    pub entries: Vec<Record>,
    /// Start offset of each block; the first block starts at zero.
    pub index: Vec<usize>,
    /// Approximate byte size, for compaction triggering.
    pub size: usize,
}

impl SsTable {
    pub open spec fn as_run(self) -> Seq<RecordV> {
        self.entries.deep_view()
    }

    pub open spec fn as_map(self) -> Map<Seq<u8>, RecordV> {
        run_map(self.as_run())
    }

    /// The least key; tables are never empty.
    pub open spec fn first_key(self) -> Seq<u8> {
        self.as_run()[0].key
    }

    /// The greatest key.
    pub open spec fn last_key(self) -> Seq<u8> {
        self.as_run().last().key
    }

    pub open spec fn wf(self) -> bool {
        &&& sorted_run(self.as_run())
        &&& self.entries@.len() > 0
        &&& self.index@.len() > 0
        &&& self.index@[0] == 0
        &&& forall|i: int| 0 <= i < self.index@.len() ==> (#[trigger] self.index@[i]) < self.entries@.len()
        &&& forall|i: int, j: int|
            0 <= i < j < self.index@.len() ==> (#[trigger] self.index@[i]) < (#[trigger] self.index@[j])
    }

    /// Builds a table from a sorted run, cutting a new block whenever the
    /// current one holds at least `block_size` bytes: every finished block
    /// is at least that full, and no block exceeds it by more than its own
    /// last record.
    pub fn build(id: u64, entries: Vec<Record>, block_size: usize) -> (r: SsTable)
        requires
            sorted_run(entries.deep_view()),
            entries@.len() > 0,
            block_size > 0,
        ensures
            r.wf(),
            r.id == id,
            r.as_run() == entries.deep_view(),
            forall|a: int| 0 <= a < r.index@.len() - 1
                ==> sat_charge(r.as_run(), (#[trigger] r.index@[a]) as int, r.index@[a + 1] as int)
                    >= block_size,
            forall|a: int| 0 <= a < r.index@.len() - 1
                ==> sat_charge(r.as_run(), (#[trigger] r.index@[a]) as int, r.index@[a + 1] - 1)
                    < block_size,
            sat_charge(r.as_run(), r.index@.last() as int, r.as_run().len() - 1) < block_size,
    {
        let ghost dv = entries.deep_view();
        let mut index: Vec<usize> = Vec::new();
        index.push(0);
        let mut size: usize = 0;
        let mut block_bytes: usize = 0;
        let ghost mut cur: int = 0;
        let mut i: usize = 0;
        while i < entries.len()
            invariant
                i <= entries@.len(),
                dv == entries.deep_view(),
                entries@.len() > 0,
                block_size > 0,
                index@.len() > 0,
                index@[0] == 0,
                cur == index@.last() as int,
                0 <= cur <= i,
                block_bytes == sat_charge(dv, cur, i as int),
                cur < i ==> sat_charge(dv, cur, i - 1) < block_size,
                forall|a: int| 0 <= a < index@.len() ==> ((#[trigger] index@[a]) < i || (index@[a] == 0
                    && i == 0)) && index@[a] < entries@.len(),
                forall|a: int, b: int|
                    0 <= a < b < index@.len() ==> (#[trigger] index@[a]) < (#[trigger] index@[b]),
                forall|a: int| 0 <= a < index@.len() - 1
                    ==> sat_charge(dv, (#[trigger] index@[a]) as int, index@[a + 1] as int)
                        >= block_size,
                forall|a: int| 0 <= a < index@.len() - 1
                    ==> sat_charge(dv, (#[trigger] index@[a]) as int, index@[a + 1] - 1)
                        < block_size,
            decreases entries@.len() - i,
        {
            let charge = entries[i].key.len().saturating_add(match &entries[i].value {
                Option::Some(v) => v.len(),
                Option::None => 0,
            });
            proof {
                lemma_charge_sum_nonneg(dv, cur, i as int);
                assert(charge == if record_charge(dv[i as int]) <= usize::MAX {
                    record_charge(dv[i as int]) as int
                } else {
                    usize::MAX as int
                });
            }
            if i > 0 && block_bytes >= block_size {
                let ghost old_index = index@;
                index.push(i);
                proof {
                    assert(index@.last() == i);
                    assert forall|a: int| 0 <= a < index@.len() - 1
                        implies sat_charge(dv, (#[trigger] index@[a]) as int, index@[a + 1] as int)
                            >= block_size
                            && sat_charge(dv, index@[a] as int, index@[a + 1] - 1) < block_size by {
                        if a < old_index.len() - 1 {
                            assert(index@[a] == old_index[a] && index@[a + 1] == old_index[a + 1]);
                        } else {
                            assert(index@[a] as int == cur && index@[a + 1] == i);
                        }
                    }
                    cur = i as int;
                }
                block_bytes = 0;
            }
            block_bytes = block_bytes.saturating_add(charge);
            size = size.saturating_add(charge);
            proof {
                lemma_charge_sum_nonneg(dv, cur, i as int);
                assert(charge_sum(dv, cur, i + 1) == charge_sum(dv, cur, i as int)
                    + record_charge(dv[i as int]));
            }
            i = i + 1;
        }
        SsTable { id, entries, index, size }
    }

    /// Point lookup: binary-search the block index, then scan one block.
    pub fn get<'a>(&'a self, key: &Vec<u8>) -> (r: Option<&'a Record>)
        requires
            self.wf(),
        ensures
            match r {
                Option::Some(e) => self.as_map().contains_key(key@) && e@ == self.as_map()[key@],
                Option::None => !self.as_map().contains_key(key@),
            },
    {
        let ghost s = self.as_run();
        let ghost ix = self.index@;
        proof {
            lemma_run_map_contains(s, key@);
        }
        // Count the blocks whose first key is at or below the key.
        let mut lo: usize = 0;
        let mut hi: usize = self.index.len();
        while lo < hi
            invariant
                0 <= lo <= hi <= ix.len(),
                self.wf(),
                s == self.as_run(),
                ix == self.index@,
                forall|j: int| 0 <= j < lo ==> !lex_lt(key@, s[#[trigger] ix[j] as int].key),
                forall|j: int| hi <= j < ix.len() ==> lex_lt(key@, s[#[trigger] ix[j] as int].key),
            decreases hi - lo,
        {
            let mid: usize = lo + (hi - lo) / 2;
            let off: usize = self.index[mid];
            if key_lt(key, &self.entries[off].key) {
                proof {
                    assert forall|j: int| mid <= j < ix.len()
                        implies lex_lt(key@, s[#[trigger] ix[j] as int].key) by {
                        if j > mid {
                            assert(lex_lt(s[ix[mid as int] as int].key, s[ix[j] as int].key));
                            lex_lt_transitive(key@, s[ix[mid as int] as int].key, s[ix[j] as int].key);
                        }
                    }
                }
                hi = mid;
            } else {
                proof {
                    assert forall|j: int| 0 <= j < mid + 1
                        implies !lex_lt(key@, s[#[trigger] ix[j] as int].key) by {
                        if j < mid {
                            lex_lt_trichotomy(key@, s[ix[j] as int].key);
                            if lex_lt(key@, s[ix[j] as int].key) {
                                assert(lex_lt(s[ix[j] as int].key, s[ix[mid as int] as int].key));
                                lex_lt_transitive(key@, s[ix[j] as int].key, s[ix[mid as int] as int].key);
                            }
                        }
                    }
                }
                lo = mid + 1;
            }
        }
        if lo == 0 {
            // Every block starts above the key, so the least key already
            // exceeds it.
            proof {
                assert(lex_lt(key@, s[0].key));
                assert forall|i: int| 0 <= i < s.len() implies (#[trigger] s[i].key) != key@ by {
                    if i > 0 {
                        lex_lt_transitive(key@, s[0].key, s[i].key);
                    }
                    lex_lt_irreflexive(key@);
                }
            }
            return Option::None;
        }
        let b: usize = lo - 1;
        let start: usize = self.index[b];
        let end: usize = if b + 1 < self.index.len() {
            self.index[b + 1]
        } else {
            self.entries.len()
        };
        proof {
            assert(start < end <= s.len());
        }
        let mut p: usize = start;
        while p < end
            invariant
                self.wf(),
                s == self.as_run(),
                ix == self.index@,
                start <= p <= end <= s.len(),
                forall|i: int| start <= i < p ==> lex_lt(#[trigger] s[i].key, key@),
                b + 1 < ix.len() ==> end == ix[b + 1 as int],
                b + 1 >= ix.len() ==> end == s.len(),
                b == lo - 1 < ix.len(),
                start == ix[b as int],
                !lex_lt(key@, s[start as int].key),
                forall|j: int| lo <= j < ix.len() ==> lex_lt(key@, s[#[trigger] ix[j] as int].key),
            decreases end - p,
        {
            if key_eq(&self.entries[p].key, key) {
                proof {
                    lemma_run_map_index(s, p as int);
                }
                return Option::Some(&self.entries[p]);
            }
            if key_lt(&self.entries[p].key, key) {
                p = p + 1;
            } else {
                proof {
                    lex_lt_trichotomy(s[p as int].key, key@);
                    assert(lex_lt(key@, s[p as int].key));
                    assert forall|i: int| 0 <= i < s.len() implies (#[trigger] s[i].key) != key@ by {
                        lex_lt_trichotomy(s[i].key, key@);
                        lex_lt_irreflexive(key@);
                        if i < start {
                            assert(lex_lt(s[i].key, s[start as int].key));
                            if s[i].key == key@ {
                                assert(lex_lt(key@, s[start as int].key));
                            }
                        } else if i > p {
                            lex_lt_transitive(key@, s[p as int].key, s[i].key);
                        }
                    }
                    lemma_run_map_contains(s, key@);
                    assert(!run_map(s).contains_key(key@));
                }
                return Option::None;
            }
        }
        proof {
            assert forall|i: int| 0 <= i < s.len() implies (#[trigger] s[i].key) != key@ by {
                lex_lt_trichotomy(s[i].key, key@);
                lex_lt_irreflexive(key@);
                if i < start {
                    assert(lex_lt(s[i].key, s[start as int].key));
                    if s[i].key == key@ {
                        assert(lex_lt(key@, s[start as int].key));
                    }
                } else if i >= end {
                    assert(b + 1 < ix.len());
                    assert(lex_lt(key@, s[ix[b + 1 as int] as int].key));
                    if i > end {
                        lex_lt_transitive(key@, s[end as int].key, s[i].key);
                    }
                }
            }
        }
        Option::None
    }
}

} // verus!
