//! K-way merge of sorted runs.
//!
//! The compaction executor and range scans both merge several runs, ordered
//! newest first, into one sorted run that keeps, for every key, the record of
//! the newest run knowing the key. Older duplicates are dropped; tombstones
//! are kept unless the merge reaches the bottom of the tree, where nothing
//! older can shadow them any more.

use vstd::prelude::*;

use crate::order::{lex_lt, lex_lt_irreflexive, lex_lt_transitive, lex_lt_trichotomy, key_lt, key_eq};
use crate::types::{
    Record, RecordV, sorted_run, run_map, runs_find, visible, lemma_run_map_contains,
    lemma_run_map_index, lemma_run_map_push, lemma_runs_find_agree, lemma_runs_find_first,
    lemma_runs_find_none,
};

verus! {

/// The runs joined end to end.
pub open spec fn concat_runs(rs: Seq<Seq<RecordV>>) -> Seq<RecordV>
    decreases rs.len(),
{
    if rs.len() == 0 {
        Seq::empty()
    } else {
        rs[0] + concat_runs(rs.skip(1))
    }
}

pub proof fn lemma_concat_runs_push(rs: Seq<Seq<RecordV>>, r: Seq<RecordV>)
    ensures
        concat_runs(rs.push(r)) == concat_runs(rs) + r,
    decreases rs.len(),
{
    if rs.len() == 0 {
        assert(rs.push(r)[0] == r);
        assert(rs.push(r).skip(1) =~= Seq::<Seq<RecordV>>::empty());
        assert(concat_runs(Seq::<Seq<RecordV>>::empty()) == Seq::<RecordV>::empty());
        assert(concat_runs(rs.push(r)) =~= concat_runs(rs) + r);
    } else {
        assert(rs.push(r)[0] == rs[0]);
        assert(rs.push(r).skip(1) =~= rs.skip(1).push(r));
        lemma_concat_runs_push(rs.skip(1), r);
        assert(concat_runs(rs.push(r)) =~= concat_runs(rs) + r);
    }
}

pub proof fn lemma_run_map_concat(a: Seq<RecordV>, b: Seq<RecordV>, k: Seq<u8>)
    ensures
        run_map(a + b).contains_key(k) <==> (run_map(a).contains_key(k) || run_map(b).contains_key(k)),
        run_map(a + b).contains_key(k) ==> run_map(a + b)[k] == if run_map(b).contains_key(k) {
            run_map(b)[k]
        } else {
            run_map(a)[k]
        },
    decreases b.len(),
{
    if b.len() == 0 {
        assert(a + b =~= a);
        lemma_run_map_contains(b, k);
    } else {
        assert((a + b).drop_last() =~= a + b.drop_last());
        assert((a + b).last() == b.last());
        lemma_run_map_concat(a, b.drop_last(), k);
        lemma_run_map_contains(b, k);
        lemma_run_map_contains(b.drop_last(), k);
        assert forall|i: int| 0 <= i < b.drop_last().len()
            implies #[trigger] b.drop_last()[i] == b[i] by {}
    }
}

/// Looking a key up run by run through key-disjoint chunks of one sorted
/// run is looking it up in the whole run.
pub proof fn lemma_runs_find_chunks(c: Seq<Seq<RecordV>>, k: Seq<u8>)
    requires
        sorted_run(concat_runs(c)),
    ensures
        runs_find(c, k) == if run_map(concat_runs(c)).contains_key(k) {
            Option::Some(run_map(concat_runs(c))[k])
        } else {
            Option::<RecordV>::None
        },
    decreases c.len(),
{
    if c.len() == 0 {
        lemma_run_map_contains(concat_runs(c), k);
    } else {
        let whole = concat_runs(c);
        let rest = concat_runs(c.skip(1));
        assert(whole == c[0] + rest);
        assert(sorted_run(rest)) by {
            assert forall|i: int, j: int| 0 <= i < j < rest.len()
                implies lex_lt(#[trigger] rest[i].key, #[trigger] rest[j].key) by {
                assert(rest[i] == whole[c[0].len() + i]);
                assert(rest[j] == whole[c[0].len() + j]);
            }
        }
        lemma_runs_find_chunks(c.skip(1), k);
        lemma_run_map_concat(c[0], rest, k);
        lemma_run_map_contains(c[0], k);
        lemma_run_map_contains(rest, k);
        if run_map(c[0]).contains_key(k) && run_map(rest).contains_key(k) {
            // Both chunks would hold the key, yet the whole is strictly
            // sorted: impossible.
            let i = choose|i: int| 0 <= i < c[0].len() && (#[trigger] c[0][i].key) == k;
            let j = choose|j: int| 0 <= j < rest.len() && (#[trigger] rest[j].key) == k;
            assert(whole[i].key == k);
            assert(whole[c[0].len() + j].key == k);
            assert(lex_lt(whole[i].key, whole[c[0].len() + j].key));
            lex_lt_irreflexive(k);
        }
        if run_map(c[0]).contains_key(k) {
            let i = choose|i: int| 0 <= i < c[0].len() && (#[trigger] c[0][i].key) == k;
            assert(whole[i] == c[0][i]);
            lemma_run_map_index(whole, i);
            assert(sorted_run(c[0])) by {
                assert forall|x: int, y: int| 0 <= x < y < c[0].len()
                    implies lex_lt(#[trigger] c[0][x].key, #[trigger] c[0][y].key) by {
                    assert(c[0][x] == whole[x] && c[0][y] == whole[y]);
                }
            }
            lemma_run_map_index(c[0], i);
        }
    }
}

/// Replacing adjacent runs by their merge leaves every read unchanged.
///
/// `b` are the runs consumed (in recency order), `out` their merge and `c`
/// the chunks `out` was split into. Tombstones may only have been shed when
/// nothing older (`q`) remains below.
pub proof fn lemma_replace_adjacent(
    p: Seq<Seq<RecordV>>,
    b: Seq<Seq<RecordV>>,
    c: Seq<Seq<RecordV>>,
    q: Seq<Seq<RecordV>>,
    out: Seq<RecordV>,
    drop: bool,
)
    requires
        merged_matches(b, out, drop),
        sorted_run(out),
        concat_runs(c) == out,
        drop ==> q.len() == 0,
    ensures
        forall|k: Seq<u8>| #[trigger] visible(p + c + q, k) == visible(p + b + q, k),
{
    assert forall|k: Seq<u8>| #[trigger] visible(p + c + q, k) == visible(p + b + q, k) by {
        assert(p + c + q =~= p + (c + q));
        assert(p + b + q =~= p + (b + q));
        crate::types::lemma_runs_find_concat(p, c + q, k);
        crate::types::lemma_runs_find_concat(p, b + q, k);
        crate::types::lemma_runs_find_concat(c, q, k);
        crate::types::lemma_runs_find_concat(b, q, k);
        lemma_runs_find_chunks(c, k);
        assert(match runs_find(b, k) {
            Option::None => !run_map(out).contains_key(k),
            Option::Some(e) => if !drop || e.value is Some {
                run_map(out).contains_key(k) && run_map(out)[k] == e
            } else {
                !run_map(out).contains_key(k)
            },
        });
        if runs_find(p, k) is Some {
        } else if runs_find(b, k) is Some {
            let e = runs_find(b, k)->Some_0;
            if !drop || e.value is Some {
            } else {
                assert(runs_find(q, k) is None);
                assert(runs_find(c, k) is None);
            }
        } else {
            assert(runs_find(c, k) is None);
        }
    }
}

/// The prefixes of the runs that a merge has consumed so far.
pub open spec fn prefixes(rs: Seq<Seq<RecordV>>, ps: Seq<usize>) -> Seq<Seq<RecordV>> {
    Seq::new(rs.len(), |i: int| rs[i].take(ps[i] as int))
}

/// How many records the runs hold in all.
pub open spec fn runs_total(rs: Seq<Seq<RecordV>>) -> nat
    decreases rs.len(),
{
    if rs.len() == 0 {
        0
    } else {
        runs_total(rs.drop_last()) + rs.last().len()
    }
}

proof fn lemma_rem_count_start(rs: Seq<Seq<RecordV>>, ps: Seq<usize>)
    requires
        ps.len() == rs.len(),
        forall|i: int| 0 <= i < ps.len() ==> #[trigger] ps[i] == 0,
    ensures
        rem_count(rs, ps) == runs_total(rs),
    decreases rs.len(),
{
    if rs.len() > 0 {
        assert(forall|i: int|
            0 <= i < rs.len() - 1 ==> #[trigger] ps.drop_last()[i] == ps[i]);
        lemma_rem_count_start(rs.drop_last(), ps.drop_last());
    }
}

/// How many records are still unconsumed.
pub open spec fn rem_count(rs: Seq<Seq<RecordV>>, ps: Seq<usize>) -> nat
    decreases rs.len(),
{
    if rs.len() == 0 {
        0
    } else {
        rem_count(rs.drop_last(), ps.drop_last()) + if ps[rs.len() - 1] <= rs.last().len() {
            (rs.last().len() - ps[rs.len() - 1]) as nat
        } else {
            0
        }
    }
}

proof fn lemma_rem_count_mono(rs: Seq<Seq<RecordV>>, p1: Seq<usize>, p2: Seq<usize>)
    requires
        p1.len() == rs.len(),
        p2.len() == rs.len(),
        forall|i: int| 0 <= i < rs.len() ==> #[trigger] p1[i] <= p2[i],
    ensures
        rem_count(rs, p2) <= rem_count(rs, p1),
    decreases rs.len(),
{
    if rs.len() > 0 {
        assert(forall|i: int|
            0 <= i < rs.len() - 1 ==> #[trigger] p1.drop_last()[i] == p1[i] && p2.drop_last()[i] == p2[i]);
        lemma_rem_count_mono(rs.drop_last(), p1.drop_last(), p2.drop_last());
    }
}

proof fn lemma_rem_count_strict(rs: Seq<Seq<RecordV>>, p1: Seq<usize>, p2: Seq<usize>, w: int)
    requires
        p1.len() == rs.len(),
        p2.len() == rs.len(),
        forall|i: int| 0 <= i < rs.len() ==> #[trigger] p1[i] <= p2[i],
        0 <= w < rs.len(),
        p1[w] < p2[w],
        p2[w] <= rs[w].len(),
    ensures
        rem_count(rs, p2) < rem_count(rs, p1),
    decreases rs.len(),
{
    assert(forall|i: int|
        0 <= i < rs.len() - 1 ==> #[trigger] p1.drop_last()[i] == p1[i] && p2.drop_last()[i] == p2[i]);
    if w == rs.len() - 1 {
        lemma_rem_count_mono(rs.drop_last(), p1.drop_last(), p2.drop_last());
    } else {
        lemma_rem_count_strict(rs.drop_last(), p1.drop_last(), p2.drop_last(), w);
    }
}

/// The merge of `runs` (newest first) is `out`: for every key, `out` holds
/// the record of the newest run knowing the key, except that when `drop`
/// is set a newest record that is a tombstone is left out entirely.
pub open spec fn merged_matches(runs: Seq<Seq<RecordV>>, out: Seq<RecordV>, drop: bool) -> bool {
    forall|k: Seq<u8>|
        #![trigger runs_find(runs, k)]
        #![trigger run_map(out).contains_key(k)]
        match runs_find(runs, k) {
            Option::None => !run_map(out).contains_key(k),
            Option::Some(e) => if !drop || e.value is Some {
                run_map(out).contains_key(k) && run_map(out)[k] == e
            } else {
                !run_map(out).contains_key(k)
            },
        }
}

/// Merges sorted runs, newest first, into one sorted run. With
/// `drop_tombstones` the output also sheds deletion markers: it is the merge
/// for a compaction that reaches the bottom level.
pub fn merge_runs(inputs: &Vec<Vec<Record>>, drop_tombstones: bool) -> (out: Vec<Record>)
    requires
        forall|i: int| 0 <= i < inputs.deep_view().len() ==> sorted_run(#[trigger] inputs.deep_view()[i]),
    ensures
        sorted_run(out.deep_view()),
        merged_matches(inputs.deep_view(), out.deep_view(), drop_tombstones),
        out@.len() <= runs_total(inputs.deep_view()),
{
    let ghost rs = inputs.deep_view();
    let n: usize = inputs.len();
    proof {
        assert(rs.len() == n);
    }
    let mut ptrs: Vec<usize> = Vec::new();
    let mut z: usize = 0;
    while z < n
        invariant
            ptrs.len() == z,
            z <= n,
            forall|i: int| 0 <= i < z ==> #[trigger] ptrs@[i] == 0,
        decreases n - z,
    {
        ptrs.push(0);
        z = z + 1;
    }
    let mut out: Vec<Record> = Vec::new();
    let ghost mut acc: Map<Seq<u8>, RecordV> = Map::<Seq<u8>, RecordV>::empty();
    proof {
        lemma_rem_count_start(rs, ptrs@);
        assert forall|k: Seq<u8>| #[trigger] runs_find(prefixes(rs, ptrs@), k) is None by {
            lemma_runs_find_none(prefixes(rs, ptrs@), k);
            assert(forall|i: int|
                0 <= i < rs.len() ==> (#[trigger] prefixes(rs, ptrs@)[i]).len() == 0);
        }
    }
    loop
        invariant
            n == rs.len(),
            inputs.deep_view() == rs,
            forall|i: int| 0 <= i < rs.len() ==> sorted_run(#[trigger] rs[i]),
            ptrs.len() == n,
            forall|i: int| 0 <= i < n ==> #[trigger] ptrs@[i] <= rs[i].len(),
            sorted_run(out.deep_view()),
            out.deep_view().len() + rem_count(rs, ptrs@) <= runs_total(rs),
            // `acc` is exactly what the consumed prefixes resolve to.
            forall|k: Seq<u8>|
                #![trigger acc.contains_key(k)]
                #![trigger runs_find(prefixes(rs, ptrs@), k)]
                (acc.contains_key(k) <==> runs_find(prefixes(rs, ptrs@), k) is Some)
                && (acc.contains_key(k) ==> Option::Some(acc[k]) == runs_find(prefixes(rs, ptrs@), k)),
            // `out` is `acc` without the dropped tombstones.
            forall|k: Seq<u8>|
                #![trigger run_map(out.deep_view()).contains_key(k)]
                #![trigger acc.contains_key(k)]
                (run_map(out.deep_view()).contains_key(k) <==> (acc.contains_key(k)
                    && (!drop_tombstones || acc[k].value is Some)))
                && (run_map(out.deep_view()).contains_key(k) ==> run_map(out.deep_view())[k] == acc[k]),
            // Every consumed key is below every unconsumed record.
            forall|k: Seq<u8>, i: int, j: int|
                #![trigger acc.contains_key(k), rs[i][j]]
                acc.contains_key(k) && 0 <= i < n && ptrs@[i] <= j < rs[i].len()
                    ==> lex_lt(k, rs[i][j].key),
        ensures
            ptrs.len() == n,
            forall|i: int| 0 <= i < n ==> #[trigger] ptrs@[i] == rs[i].len(),
            sorted_run(out.deep_view()),
            out.deep_view().len() <= runs_total(rs),
            forall|k: Seq<u8>|
                #![trigger acc.contains_key(k)]
                #![trigger runs_find(prefixes(rs, ptrs@), k)]
                (acc.contains_key(k) <==> runs_find(prefixes(rs, ptrs@), k) is Some)
                && (acc.contains_key(k) ==> Option::Some(acc[k]) == runs_find(prefixes(rs, ptrs@), k)),
            forall|k: Seq<u8>|
                #![trigger run_map(out.deep_view()).contains_key(k)]
                #![trigger acc.contains_key(k)]
                (run_map(out.deep_view()).contains_key(k) <==> (acc.contains_key(k)
                    && (!drop_tombstones || acc[k].value is Some)))
                && (run_map(out.deep_view()).contains_key(k) ==> run_map(out.deep_view())[k] == acc[k]),
        decreases rem_count(rs, ptrs@),
    {
        // Pick the run with the least head key; ties go to the newest run.
        let mut best: usize = n;
        let mut idx: usize = 0;
        while idx < n
            invariant
                n == rs.len(),
                inputs.deep_view() == rs,
                ptrs.len() == n,
                forall|i: int| 0 <= i < n ==> #[trigger] ptrs@[i] <= rs[i].len(),
                idx <= n,
                best == n || (best < idx && ptrs@[best as int] < rs[best as int].len()),
                best == n ==> forall|i: int| 0 <= i < idx ==> #[trigger] ptrs@[i] == rs[i].len(),
                best < n ==> forall|i: int|
                    0 <= i < idx && ptrs@[i] < rs[i].len()
                        ==> !lex_lt(#[trigger] rs[i][ptrs@[i] as int].key, rs[best as int][ptrs@[best as int] as int].key),
                best < n ==> forall|i: int|
                    0 <= i < best && ptrs@[i] < rs[i].len()
                        ==> lex_lt(rs[best as int][ptrs@[best as int] as int].key, #[trigger] rs[i][ptrs@[i] as int].key),
            decreases n - idx,
        {
            if ptrs[idx] < inputs[idx].len() {
                if best == n {
                    proof {
                        lex_lt_irreflexive(rs[idx as int][ptrs@[idx as int] as int].key);
                    }
                    best = idx;
                } else {
                    let ghost bk = rs[best as int][ptrs@[best as int] as int].key;
                    if key_lt(&inputs[idx][ptrs[idx]].key, &inputs[best][ptrs[best]].key) {
                        proof {
                            let nk = rs[idx as int][ptrs@[idx as int] as int].key;
                            assert forall|i: int|
                                0 <= i < idx && ptrs@[i] < rs[i].len()
                                    implies lex_lt(nk, #[trigger] rs[i][ptrs@[i] as int].key)
                                        && !lex_lt(rs[i][ptrs@[i] as int].key, nk) by {
                                let ik = rs[i][ptrs@[i] as int].key;
                                lex_lt_trichotomy(ik, bk);
                                if i < best {
                                    lex_lt_transitive(nk, bk, ik);
                                } else if i != best && ik != bk {
                                    lex_lt_transitive(nk, bk, ik);
                                }
                                lex_lt_trichotomy(nk, ik);
                            }
                            lex_lt_irreflexive(nk);
                        }
                        best = idx;
                    }
                }
            }
            idx = idx + 1;
        }
        if best == n {
            break;
        }
        let b: usize = best;
        let e: Record = inputs[b][ptrs[b]].duplicate();
        let ghost ek = e@.key;
        let ghost old_ptrs = ptrs@;
        let ghost old_trunc = prefixes(rs, old_ptrs);
        proof {
            // The head key of run `b` has not been consumed yet.
            if acc.contains_key(ek) {
                assert(lex_lt(ek, rs[b as int][old_ptrs[b as int] as int].key));
                lex_lt_irreflexive(ek);
            }
            assert(!acc.contains_key(ek));
            // No consumed prefix knows it either.
            lemma_runs_find_none(old_trunc, ek);
        }
        // Advance every run whose head is this key, dropping older duplicates.
        let mut i2: usize = 0;
        while i2 < n
            invariant
                n == rs.len(),
                inputs.deep_view() == rs,
                ptrs.len() == n,
                i2 <= n,
                old_ptrs.len() == n,
                b < n,
                old_ptrs[b as int] < rs[b as int].len(),
                ek == rs[b as int][old_ptrs[b as int] as int].key,
                e@ == rs[b as int][old_ptrs[b as int] as int],
                forall|i: int| 0 <= i < n ==> #[trigger] old_ptrs[i] <= rs[i].len(),
                forall|j: int| i2 <= j < n ==> #[trigger] ptrs@[j] == old_ptrs[j],
                forall|j: int| 0 <= j < i2 ==> (#[trigger] ptrs@[j]) as int == (
                    if old_ptrs[j] < rs[j].len() && rs[j][old_ptrs[j] as int].key == ek {
                        old_ptrs[j] + 1
                    } else {
                        old_ptrs[j] as int
                    }
                ),
            decreases n - i2,
        {
            if ptrs[i2] < inputs[i2].len() {
                if key_eq(&inputs[i2][ptrs[i2]].key, &e.key) {
                    let p: usize = ptrs[i2];
                    ptrs.set(i2, p + 1);
                }
            }
            i2 = i2 + 1;
        }
        let ghost new_trunc = prefixes(rs, ptrs@);
        proof {
            // Each new prefix is the old one, extended by this key where the
            // run's head carried it.
            assert forall|i: int| 0 <= i < n implies #[trigger] new_trunc[i] == (
                if old_ptrs[i] < rs[i].len() && rs[i][old_ptrs[i] as int].key == ek {
                    old_trunc[i].push(rs[i][old_ptrs[i] as int])
                } else {
                    old_trunc[i]
                }
            ) by {
                if old_ptrs[i] < rs[i].len() && rs[i][old_ptrs[i] as int].key == ek {
                    assert(rs[i].take(old_ptrs[i] + 1) =~= rs[i].take(old_ptrs[i] as int).push(rs[i][old_ptrs[i] as int]));
                } else {
                    assert(rs[i].take(ptrs@[i] as int) =~= rs[i].take(old_ptrs[i] as int));
                }
            }
            // Older runs do not carry this key at all.
            assert forall|i: int| 0 <= i < b implies !run_map(#[trigger] new_trunc[i]).contains_key(ek) by {
                if old_ptrs[i] < rs[i].len() {
                    assert(lex_lt(ek, rs[i][old_ptrs[i] as int].key));
                    lex_lt_irreflexive(ek);
                    assert(rs[i][old_ptrs[i] as int].key != ek);
                }
                assert(new_trunc[i] == old_trunc[i]);
            }
            assert(run_map(new_trunc[b as int]).contains_key(ek)
                && run_map(new_trunc[b as int])[ek] == e@) by {
                lemma_run_map_push(old_trunc[b as int], rs[b as int][old_ptrs[b as int] as int]);
            }
            lemma_runs_find_first(new_trunc, ek, b as int);
            // Other keys resolve as before.
            assert forall|k: Seq<u8>| k != ek implies
                #[trigger] runs_find(new_trunc, k) == runs_find(old_trunc, k) by {
                assert forall|i: int| 0 <= i < n implies
                    (run_map(#[trigger] new_trunc[i]).contains_key(k) <==> run_map(old_trunc[i]).contains_key(k))
                    && (run_map(new_trunc[i]).contains_key(k) ==> run_map(new_trunc[i])[k] == run_map(old_trunc[i])[k]) by {
                    if old_ptrs[i] < rs[i].len() && rs[i][old_ptrs[i] as int].key == ek {
                        lemma_run_map_push(old_trunc[i], rs[i][old_ptrs[i] as int]);
                    }
                }
                lemma_runs_find_agree(new_trunc, old_trunc, k);
            }
            acc = acc.insert(ek, e@);
            // The frontier moves past this key.
            assert forall|k: Seq<u8>, i: int, j: int|
                #![trigger acc.contains_key(k), rs[i][j]]
                acc.contains_key(k) && 0 <= i < n && ptrs@[i] <= j < rs[i].len()
                    implies lex_lt(k, rs[i][j].key) by {
                if k == ek {
                    let hk = rs[i][old_ptrs[i] as int].key;
                    if old_ptrs[i] < rs[i].len() && hk == ek {
                        assert(old_ptrs[i] < j);
                        assert(lex_lt(rs[i][old_ptrs[i] as int].key, rs[i][j].key));
                    } else {
                        assert(ptrs@[i] == old_ptrs[i]);
                        assert(old_ptrs[i] <= j);
                        assert(!lex_lt(hk, ek));
                        lex_lt_trichotomy(hk, ek);
                        assert(lex_lt(ek, hk));
                        if j > old_ptrs[i] {
                            assert(lex_lt(hk, rs[i][j].key));
                            lex_lt_transitive(ek, hk, rs[i][j].key);
                        }
                    }
                } else {
                    assert(old_ptrs[i] <= ptrs@[i]);
                }
            }
        }
        let keep: bool = match &e.value {
            Option::Some(_) => true,
            Option::None => !drop_tombstones,
        };
        if keep {
            let ghost old_out = out.deep_view();
            proof {
                // Everything already emitted is below this key.
                assert forall|x: int| 0 <= x < old_out.len()
                    implies lex_lt(old_out[x].key, ek) by {
                    lemma_run_map_index(old_out, x);
                    // The record being emitted is still unconsumed, so every
                    // consumed key lies strictly below it.
                    assert(acc.contains_key(old_out[x].key) && rs[b as int][old_ptrs[b as int] as int] == e@);
                }
            }
            out.push(e);
            proof {
                assert(out.deep_view() =~= old_out.push(e@));
                lemma_run_map_push(old_out, e@);
                assert forall|x: int, y: int| 0 <= x < y < out.deep_view().len()
                    implies lex_lt(#[trigger] out.deep_view()[x].key, #[trigger] out.deep_view()[y].key) by {
                    if y < old_out.len() {
                        assert(old_out[x] == out.deep_view()[x]);
                        assert(old_out[y] == out.deep_view()[y]);
                    } else {
                        assert(out.deep_view()[y] == e@);
                        assert(old_out[x] == out.deep_view()[x]);
                    }
                }
            }
        }
        proof {
            lemma_rem_count_strict(rs, old_ptrs, ptrs@, b as int);
        }
    }
    proof {
        assert(out@.len() == out.deep_view().len());
        assert forall|i: int| 0 <= i < n implies #[trigger] prefixes(rs, ptrs@)[i] == rs[i] by {
            assert(rs[i].take(ptrs@[i] as int) =~= rs[i]);
        }
        assert(prefixes(rs, ptrs@) =~= rs);
        assert forall|k: Seq<u8>|
            match #[trigger] runs_find(rs, k) {
                Option::None => !run_map(out.deep_view()).contains_key(k),
                Option::Some(e) => if !drop_tombstones || e.value is Some {
                    run_map(out.deep_view()).contains_key(k) && run_map(out.deep_view())[k] == e
                } else {
                    !run_map(out.deep_view()).contains_key(k)
                },
            } by {
            assert(runs_find(prefixes(rs, ptrs@), k) == runs_find(rs, k));
            assert(acc.contains_key(k) <==> runs_find(prefixes(rs, ptrs@), k) is Some);
        }
    }
    out
}

} // verus!
