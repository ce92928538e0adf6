//! Records and sorted runs.
//!
//! A run is a key-sorted sequence of records with distinct keys: the contents
//! of a memtable or of one sorted table. The engine's whole state is a
//! sequence of runs ordered newest first, and a read returns the record found
//! in the newest run that knows the key.

use vstd::prelude::*;

use crate::order::{lex_lt, lex_lt_transitive, lex_lt_trichotomy, key_lt, key_eq};

verus! {

/// One write: a key, the value written (`None` records a deletion, a
/// tombstone), and the sequence number the engine assigned to the write.
#[derive(Clone, Debug)]
pub struct Record {
    pub key: Vec<u8>,
    pub value: Option<Vec<u8>>,
    pub seq: u64,
}

/// The mathematical shape of a record.
pub struct RecordV {
    pub key: Seq<u8>,
    pub value: Option<Seq<u8>>,
    pub seq: u64,
}

impl View for Record {
    type V = RecordV;

    open spec fn view(&self) -> RecordV {
        RecordV { key: self.key@, value: self.value.deep_view(), seq: self.seq }
    }
}

impl DeepView for Record {
    type V = RecordV;

    open spec fn deep_view(&self) -> RecordV {
        self@
    }
}

impl Record {
    /// An explicit deep copy.
    pub fn duplicate(&self) -> (r: Record)
        ensures
            r@ == self@,
    {
        let value: Option<Vec<u8>> = match &self.value {
            Option::Some(v) => Option::Some(v.clone()),
            Option::None => Option::None,
        };
        Record { key: self.key.clone(), value, seq: self.seq }
    }
}

/// The records are strictly ascending by key, hence keys are distinct.
pub open spec fn sorted_run(s: Seq<RecordV>) -> bool {
    forall|i: int, j: int|
        0 <= i < j < s.len() ==> lex_lt(#[trigger] s[i].key, #[trigger] s[j].key)
}

/// The run as a mapping from key to record.
pub open spec fn run_map(s: Seq<RecordV>) -> Map<Seq<u8>, RecordV>
    decreases s.len(),
{
    if s.len() == 0 {
        Map::empty()
    } else {
        run_map(s.drop_last()).insert(s.last().key, s.last())
    }
}

pub proof fn lemma_run_map_contains(s: Seq<RecordV>, k: Seq<u8>)
    ensures
        run_map(s).contains_key(k) <==> exists|i: int| 0 <= i < s.len() && (#[trigger] s[i].key) == k,
    decreases s.len(),
{
    if s.len() > 0 {
        lemma_run_map_contains(s.drop_last(), k);
        if s.last().key == k {
            assert(s[s.len() - 1].key == k);
        } else if run_map(s).contains_key(k) {
            let i = choose|i: int| 0 <= i < s.drop_last().len() && (#[trigger] s.drop_last()[i].key) == k;
            assert(s[i].key == k);
        } else {
            if exists|i: int| 0 <= i < s.len() && (#[trigger] s[i].key) == k {
                let i = choose|i: int| 0 <= i < s.len() && (#[trigger] s[i].key) == k;
                assert(i < s.len() - 1);
                assert(s.drop_last()[i].key == k);
            }
        }
    }
}

pub proof fn lemma_run_map_index(s: Seq<RecordV>, i: int)
    requires
        sorted_run(s),
        0 <= i < s.len(),
    ensures
        run_map(s).contains_key(s[i].key),
        run_map(s)[s[i].key] == s[i],
    decreases s.len(),
{
    if i == s.len() - 1 {
    } else {
        assert(s.drop_last()[i] == s[i]);
        assert(sorted_run(s.drop_last())) by {
            assert(forall|x: int, y: int|
                0 <= x < y < s.drop_last().len() ==> s.drop_last()[x] == s[x] && s.drop_last()[y] == s[y]);
        }
        lemma_run_map_index(s.drop_last(), i);
        assert(lex_lt(s[i].key, s.last().key));
        lex_lt_trichotomy(s[i].key, s.last().key);
    }
}

/// The record for `k` in the newest run that knows `k`, if any does.
pub open spec fn runs_find(runs: Seq<Seq<RecordV>>, k: Seq<u8>) -> Option<RecordV>
    decreases runs.len(),
{
    if runs.len() == 0 {
        Option::None
    } else if run_map(runs[0]).contains_key(k) {
        Option::Some(run_map(runs[0])[k])
    } else {
        runs_find(runs.skip(1), k)
    }
}

/// What a reader sees for `k`: `None` when the key is unknown or its newest
/// record is a tombstone.
pub open spec fn visible(runs: Seq<Seq<RecordV>>, k: Seq<u8>) -> Option<Seq<u8>> {
    match runs_find(runs, k) {
        Option::None => Option::None,
        Option::Some(r) => r.value,
    }
}

pub proof fn lemma_runs_find_concat(a: Seq<Seq<RecordV>>, b: Seq<Seq<RecordV>>, k: Seq<u8>)
    ensures
        runs_find(a + b, k) == if runs_find(a, k) is Some {
            runs_find(a, k)
        } else {
            runs_find(b, k)
        },
    decreases a.len(),
{
    if a.len() == 0 {
        assert(a + b =~= b);
    } else {
        assert((a + b)[0] == a[0]);
        assert((a + b).skip(1) =~= a.skip(1) + b);
        lemma_runs_find_concat(a.skip(1), b, k);
    }
}

/// Runs that agree on `k` pointwise are found alike.
pub proof fn lemma_runs_find_agree(r1: Seq<Seq<RecordV>>, r2: Seq<Seq<RecordV>>, k: Seq<u8>)
    requires
        r1.len() == r2.len(),
        forall|i: int| 0 <= i < r1.len() ==>
            (run_map(#[trigger] r1[i]).contains_key(k) <==> run_map(#[trigger] r2[i]).contains_key(k)),
        forall|i: int| 0 <= i < r1.len() && run_map(#[trigger] r1[i]).contains_key(k) ==>
            run_map(r1[i])[k] == run_map(#[trigger] r2[i])[k],
    ensures
        runs_find(r1, k) == runs_find(r2, k),
    decreases r1.len(),
{
    if r1.len() > 0 {
        assert(forall|i: int| 0 <= i < r1.skip(1).len() ==> #[trigger] r1.skip(1)[i] == r1[i + 1]);
        assert(forall|i: int| 0 <= i < r2.skip(1).len() ==> #[trigger] r2.skip(1)[i] == r2[i + 1]);
        lemma_runs_find_agree(r1.skip(1), r2.skip(1), k);
    }
}

pub proof fn lemma_runs_find_none(runs: Seq<Seq<RecordV>>, k: Seq<u8>)
    ensures
        (runs_find(runs, k) is None) <==> (forall|i: int|
            0 <= i < runs.len() ==> !run_map(#[trigger] runs[i]).contains_key(k)),
    decreases runs.len(),
{
    if runs.len() > 0 {
        lemma_runs_find_none(runs.skip(1), k);
        assert(forall|i: int|
            0 <= i < runs.skip(1).len() ==> #[trigger] runs.skip(1)[i] == runs[i + 1]);
        if runs_find(runs, k) is None {
            assert forall|i: int|
                0 <= i < runs.len() implies !run_map(#[trigger] runs[i]).contains_key(k) by {
                if i > 0 {
                    assert(runs.skip(1)[i - 1] == runs[i]);
                    assert(!run_map(runs.skip(1)[i - 1]).contains_key(k));
                }
            }
        } else {
            if !run_map(runs[0]).contains_key(k) {
                assert(runs_find(runs.skip(1), k) is Some);
                assert(exists|i: int|
                    0 <= i < runs.skip(1).len()
                        && run_map(#[trigger] runs.skip(1)[i]).contains_key(k));
                let w = choose|i: int|
                    0 <= i < runs.skip(1).len()
                        && run_map(#[trigger] runs.skip(1)[i]).contains_key(k);
                assert(run_map(runs[w + 1]).contains_key(k));
            }
        }
    }
}

/// When the runs before `b` do not know `k` and run `b` does, the find stops
/// at run `b`.
pub proof fn lemma_runs_find_first(runs: Seq<Seq<RecordV>>, k: Seq<u8>, b: int)
    requires
        0 <= b < runs.len(),
        forall|i: int| 0 <= i < b ==> !run_map(#[trigger] runs[i]).contains_key(k),
        run_map(runs[b]).contains_key(k),
    ensures
        runs_find(runs, k) == Option::Some(run_map(runs[b])[k]),
    decreases b,
{
    if b > 0 {
        assert(forall|i: int|
            0 <= i < runs.skip(1).len() ==> #[trigger] runs.skip(1)[i] == runs[i + 1]);
        lemma_runs_find_first(runs.skip(1), k, b - 1);
    }
}

pub proof fn lemma_run_map_push(s: Seq<RecordV>, x: RecordV)
    ensures
        run_map(s.push(x)) == run_map(s).insert(x.key, x),
{
    assert(s.push(x).drop_last() =~= s);
    assert(s.push(x).last() == x);
}

/// Inserting into the newest run changes what is visible at that key and
/// nothing else.
pub proof fn lemma_visible_head_insert(r1: Seq<Seq<RecordV>>, r2: Seq<Seq<RecordV>>, e: RecordV)
    requires
        r1.len() == r2.len(),
        r1.len() >= 1,
        run_map(r2[0]) == run_map(r1[0]).insert(e.key, e),
        forall|i: int| 1 <= i < r1.len() ==> #[trigger] r2[i] == r1[i],
    ensures
        visible(r2, e.key) == e.value,
        forall|k: Seq<u8>| k != e.key ==> #[trigger] visible(r2, k) == visible(r1, k),
{
    assert(run_map(r2[0]).contains_key(e.key));
    assert(run_map(r2[0])[e.key] == e);
    assert forall|k: Seq<u8>| k != e.key implies #[trigger] visible(r2, k) == visible(r1, k) by {
        lemma_runs_find_agree(r2, r1, k);
    }
}

/// An explicit deep copy of a record list.
pub fn clone_records(v: &Vec<Record>) -> (r: Vec<Record>)
    ensures
        r.deep_view() == v.deep_view(),
{
    clone_subrange(v, 0, v.len())
}

/// An explicit deep copy of part of a record list.
pub fn clone_subrange(v: &Vec<Record>, from: usize, to: usize) -> (r: Vec<Record>)
    requires
        from <= to <= v@.len(),
    ensures
        r.deep_view() == v.deep_view().subrange(from as int, to as int),
{
    let mut r: Vec<Record> = Vec::new();
    proof {
        assert(r.deep_view() =~= v.deep_view().subrange(from as int, from as int));
    }
    let mut i: usize = from;
    while i < to
        invariant
            from <= i <= to <= v@.len(),
            r.deep_view() == v.deep_view().subrange(from as int, i as int),
        decreases to - i,
    {
        let dup = v[i].duplicate();
        let ghost pre = r.deep_view();
        r.push(dup);
        proof {
            assert forall|j: int| 0 <= j < r.deep_view().len()
                implies #[trigger] r.deep_view()[j] == v.deep_view().subrange(from as int, i + 1)[j] by {
                if j < pre.len() {
                    assert(r.deep_view()[j] == pre[j]);
                } else {
                    assert(r.deep_view()[j] == dup@);
                }
            }
            assert(pre == v.deep_view().subrange(from as int, i as int));
            assert(pre.len() == i - from);
            assert(r@.len() == pre.len() + 1);
            assert(r.deep_view().len() == r@.len());
            assert(r.deep_view().len() == v.deep_view().subrange(from as int, i + 1).len());
            assert(r.deep_view() =~~= v.deep_view().subrange(from as int, i + 1));
        }
        i = i + 1;
    }
    r
}

/// Point lookup in one sorted run by binary search.
pub fn run_get<'a>(entries: &'a Vec<Record>, key: &Vec<u8>) -> (r: Option<&'a Record>)
    requires
        sorted_run(entries.deep_view()),
    ensures
        match r {
            Option::Some(e) => run_map(entries.deep_view()).contains_key(key@)
                && e@ == run_map(entries.deep_view())[key@],
            Option::None => !run_map(entries.deep_view()).contains_key(key@),
        },
{
    let ghost s = entries.deep_view();
    let mut lo: usize = 0;
    let mut hi: usize = entries.len();
    while lo < hi
        invariant
            0 <= lo <= hi <= entries.len(),
            entries.deep_view() == s,
            sorted_run(s),
            forall|i: int| 0 <= i < lo ==> lex_lt(#[trigger] s[i].key, key@),
            forall|i: int| hi <= i < s.len() ==> !lex_lt(#[trigger] s[i].key, key@),
        decreases hi - lo,
    {
        let mid: usize = lo + (hi - lo) / 2;
        if key_lt(&entries[mid].key, key) {
            proof {
                assert forall|i: int| 0 <= i < mid + 1 implies lex_lt(#[trigger] s[i].key, key@) by {
                    if i < mid {
                        lex_lt_transitive(s[i].key, s[mid as int].key, key@);
                    }
                }
            }
            lo = mid + 1;
        } else {
            proof {
                assert forall|i: int| mid <= i < s.len() implies !lex_lt(#[trigger] s[i].key, key@) by {
                    if i > mid {
                        lex_lt_trichotomy(s[i].key, key@);
                        if lex_lt(s[i].key, key@) {
                            lex_lt_transitive(s[mid as int].key, s[i].key, key@);
                        }
                    }
                }
            }
            hi = mid;
        }
    }
    proof {
        lemma_run_map_contains(s, key@);
    }
    if lo < entries.len() && key_eq(&entries[lo].key, key) {
        proof {
            lemma_run_map_index(s, lo as int);
        }
        Option::Some(&entries[lo])
    } else {
        proof {
            assert forall|i: int| 0 <= i < s.len() implies (#[trigger] s[i].key) != key@ by {
                lex_lt_trichotomy(s[i].key, key@);
                if i >= lo && s[i].key == key@ {
                    assert(lo < s.len());
                    assert(i != lo);
                    lex_lt_trichotomy(s[lo as int].key, key@);
                    lex_lt_transitive(key@, s[lo as int].key, s[i].key);
                    crate::order::lex_lt_irreflexive(key@);
                }
            }
        }
        Option::None
    }
}

} // verus!
