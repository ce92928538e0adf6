//! Optimistic serializable transactions.
//!
//! With the serializable option, a transaction records the keys it reads
//! and buffers its writes. Commit succeeds only when no transaction that
//! committed after this one's read timestamp wrote a key this one read;
//! otherwise the caller gets a conflict and may retry.

use vstd::prelude::*;

use crate::lsm_storage::{LsmError, LsmStorageInner};
use crate::order::key_eq;

verus! {

/// One buffered write: `None` buffers a deletion.
pub struct WriteOp {
    pub key: Vec<u8>,
    pub value: Option<Vec<u8>>,
}

pub struct WriteOpV {
    pub key: Seq<u8>,
    pub value: Option<Seq<u8>>,
}

impl View for WriteOp {
    type V = WriteOpV;

    open spec fn view(&self) -> WriteOpV {
        WriteOpV { key: self.key@, value: self.value.deep_view() }
    }
}

impl DeepView for WriteOp {
    type V = WriteOpV;

    open spec fn deep_view(&self) -> WriteOpV {
        self@
    }
}

/// What one committed transaction wrote, and when.
pub struct CommitRecord {
    pub commit_ts: u64,
    pub keys: Vec<Vec<u8>>,
}

pub struct CommitRecordV {
    pub commit_ts: u64,
    pub keys: Seq<Seq<u8>>,
}

impl View for CommitRecord {
    type V = CommitRecordV;

    open spec fn view(&self) -> CommitRecordV {
        CommitRecordV { commit_ts: self.commit_ts, keys: self.keys.deep_view() }
    }
}

impl DeepView for CommitRecord {
    type V = CommitRecordV;

    open spec fn deep_view(&self) -> CommitRecordV {
        self@
    }
}

/// A transaction in flight: reads tracked, writes buffered until commit.
pub struct Transaction {
    /// Commits at or after this timestamp are concurrent with this
    /// transaction.
    pub read_ts: u64,
    /// Every key this transaction read.
    pub reads: Vec<Vec<u8>>,
    /// Buffered writes, applied only at commit, in order.
    pub writes: Vec<WriteOp>,
}

/// The net effect of a write buffer: the last write per key.
pub open spec fn write_map(ws: Seq<WriteOpV>) -> Map<Seq<u8>, Option<Seq<u8>>>
    decreases ws.len(),
{
    if ws.len() == 0 {
        Map::empty()
    } else {
        write_map(ws.drop_last()).insert(ws.last().key, ws.last().value)
    }
}

/// `c` invalidates a transaction that started at `read_ts` and read
/// `reads`: it committed later and wrote a key the transaction read.
pub open spec fn conflicts_with(c: CommitRecordV, read_ts: u64, reads: Seq<Seq<u8>>) -> bool {
    c.commit_ts >= read_ts && exists|i: int, j: int|
        #![trigger c.keys[i], reads[j]]
        0 <= i < c.keys.len() && 0 <= j < reads.len() && c.keys[i] == reads[j]
}

pub open spec fn has_conflict(commits: Seq<CommitRecordV>, read_ts: u64, reads: Seq<Seq<u8>>) -> bool {
    exists|i: int| 0 <= i < commits.len() && conflicts_with(#[trigger] commits[i], read_ts, reads)
}

impl Transaction {
    /// Buffers a write; nothing is visible to readers until commit.
    pub fn write(&mut self, key: Vec<u8>, value: Option<Vec<u8>>)
        ensures
            final(self).read_ts == old(self).read_ts,
            final(self).reads == old(self).reads,
            final(self).writes.deep_view() == old(self).writes.deep_view().push(
                WriteOpV { key: key@, value: value.deep_view() },
            ),
    {
        let ghost pre = self.writes.deep_view();
        let op = WriteOp { key, value };
        let ghost opv = op@;
        self.writes.push(op);
        proof {
            assert(self.writes@.len() == pre.len() + 1);
            assert(self.writes.deep_view().len() == self.writes@.len());
            assert(self.writes.deep_view() =~= pre.push(opv));
        }
    }

    /// Reads a key: the transaction's own buffered write if it has one,
    /// else what the engine holds; the key joins the read set either way.
    pub fn read(&mut self, engine: &LsmStorageInner, key: &Vec<u8>) -> (r: Option<Vec<u8>>)
        requires
            engine.wf(),
        ensures
            final(self).read_ts == old(self).read_ts,
            final(self).writes == old(self).writes,
            final(self).reads.deep_view() == old(self).reads.deep_view().push(key@),
            r.deep_view() == if write_map(final(self).writes.deep_view()).contains_key(key@) {
                write_map(final(self).writes.deep_view())[key@]
            } else {
                engine.kv(key@)
            },
    {
        let ghost pre = self.reads.deep_view();
        let copied = key.clone();
        let ghost cv = copied@;
        self.reads.push(copied);
        proof {
            assert(self.reads@.len() == pre.len() + 1);
            assert(self.reads.deep_view().len() == self.reads@.len());
            assert forall|x: int| 0 <= x < self.reads.deep_view().len()
                implies #[trigger] self.reads.deep_view()[x] == pre.push(key@)[x] by {
                if x < pre.len() {
                    assert(self.reads.deep_view()[x] == pre[x]);
                } else {
                    assert(self.reads@[x]@ == cv);
                    assert(self.reads@[x].deep_view() =~= self.reads@[x]@);
                }
            }
            assert(self.reads.deep_view() =~= pre.push(key@));
        }
        let ghost ws = self.writes.deep_view();
        let mut i: usize = self.writes.len();
        while i > 0
            invariant
                i <= ws.len(),
                ws == self.writes.deep_view(),
                self.read_ts == old(self).read_ts,
                self.writes == old(self).writes,
                self.reads.deep_view() == old(self).reads.deep_view().push(key@),
                forall|x: int| i <= x < ws.len() ==> (#[trigger] ws[x].key) != key@,
            decreases i,
        {
            i = i - 1;
            if key_eq(&self.writes[i].key, key) {
                proof {
                    lemma_write_map_last(ws, key@, i as int);
                }
                let r: Option<Vec<u8>> = match &self.writes[i].value {
                    Option::Some(v) => Option::Some(v.clone()),
                    Option::None => Option::None,
                };
                return r;
            }
        }
        proof {
            lemma_write_map_absent(ws, key@);
        }
        engine.get(key)
    }
}

/// When index `i` holds the last write of `k`, the buffer's net effect at
/// `k` is that write.
proof fn lemma_write_map_last(ws: Seq<WriteOpV>, k: Seq<u8>, i: int)
    requires
        0 <= i < ws.len(),
        ws[i].key == k,
        forall|x: int| i < x < ws.len() ==> (#[trigger] ws[x].key) != k,
    ensures
        write_map(ws).contains_key(k),
        write_map(ws)[k] == ws[i].value,
    decreases ws.len(),
{
    if i == ws.len() - 1 {
    } else {
        assert(ws.drop_last()[i] == ws[i]);
        assert(forall|x: int| i < x < ws.drop_last().len()
            ==> #[trigger] ws.drop_last()[x] == ws[x]);
        lemma_write_map_last(ws.drop_last(), k, i);
        assert(ws.last().key != k);
    }
}

/// A key no buffered write names is absent from the net effect.
proof fn lemma_write_map_absent(ws: Seq<WriteOpV>, k: Seq<u8>)
    requires
        forall|x: int| 0 <= x < ws.len() ==> (#[trigger] ws[x].key) != k,
    ensures
        !write_map(ws).contains_key(k),
    decreases ws.len(),
{
    if ws.len() > 0 {
        assert(forall|x: int| 0 <= x < ws.drop_last().len()
            ==> #[trigger] ws.drop_last()[x] == ws[x]);
        lemma_write_map_absent(ws.drop_last(), k);
    }
}

/// Two transactions that race on a key cannot both win: once one of them
/// has committed a write to a key the other read, the other's commit
/// carries a conflict, and `commit` then rejects it.
pub proof fn lemma_racing_commit_conflicts(
    commits: Seq<CommitRecordV>,
    i: int,
    read_ts: u64,
    reads: Seq<Seq<u8>>,
    x: int,
    y: int,
)
    requires
        0 <= i < commits.len(),
        commits[i].commit_ts >= read_ts,
        0 <= x < commits[i].keys.len(),
        0 <= y < reads.len(),
        commits[i].keys[x] == reads[y],
    ensures
        has_conflict(commits, read_ts, reads),
{
    assert(conflicts_with(commits[i], read_ts, reads));
}

impl LsmStorageInner {
    /// Starts a transaction at the current write frontier.
    pub fn begin(&self) -> (t: Transaction)
        ensures
            t.read_ts == self.next_seq,
            t.reads@.len() == 0,
            t.writes@.len() == 0,
    {
        Transaction { read_ts: self.next_seq, reads: Vec::new(), writes: Vec::new() }
    }

    /// Commits a transaction: fails with a conflict exactly when some
    /// earlier commit, at or after the read timestamp, wrote a key this
    /// transaction read; succeeds whenever there is none and the sequence
    /// space suffices, applying the buffered writes in order under fresh
    /// sequence numbers and recording the written keys at the new commit
    /// timestamp.
    pub fn commit(&mut self, txn: Transaction) -> (r: Result<u64, LsmError>)
        requires
            old(self).wf(),
        ensures
            final(self).wf(),
            (r matches Err(LsmError::Conflict)) <==> has_conflict(
                old(self).commits.deep_view(),
                txn.read_ts,
                txn.reads.deep_view(),
            ),
            r is Ok <==> (!has_conflict(
                old(self).commits.deep_view(),
                txn.read_ts,
                txn.reads.deep_view(),
            ) && txn.writes@.len() <= u64::MAX - old(self).next_seq),
            r is Err ==> *final(self) == *old(self),
            r is Ok ==> forall|k: Seq<u8>|
                #![trigger final(self).kv(k)]
                if write_map(txn.writes.deep_view()).contains_key(k) {
                    final(self).kv(k) == write_map(txn.writes.deep_view())[k]
                } else {
                    final(self).kv(k) == old(self).kv(k)
                },
            r matches Ok(ts) ==> final(self).commits.deep_view()
                == old(self).commits.deep_view().push(CommitRecordV {
                    commit_ts: ts,
                    keys: Seq::new(txn.writes.deep_view().len(), |i: int| txn.writes.deep_view()[i].key),
                }),
            r matches Ok(ts) ==> txn.writes@.len() > 0 ==> ts >= old(self).next_seq,
    {
        let ghost cs = self.commits.deep_view();
        let mut ci: usize = 0;
        while ci < self.commits.len()
            invariant
                ci <= cs.len(),
                cs == self.commits.deep_view(),
                self.wf(),
                *self == *old(self),
                forall|x: int| 0 <= x < ci
                    ==> !conflicts_with(#[trigger] cs[x], txn.read_ts, txn.reads.deep_view()),
            decreases cs.len() - ci,
        {
            if self.commits[ci].commit_ts >= txn.read_ts {
                let ghost keys = cs[ci as int].keys;
                let ghost reads = txn.reads.deep_view();
                let mut kj: usize = 0;
                while kj < self.commits[ci].keys.len()
                    invariant
                        ci < cs.len(),
                        cs == self.commits.deep_view(),
                        self.wf(),
                        *self == *old(self),
                        keys == cs[ci as int].keys,
                        reads == txn.reads.deep_view(),
                        kj <= keys.len(),
                        cs[ci as int].commit_ts >= txn.read_ts,
                        forall|x: int, y: int| 0 <= x < kj && 0 <= y < reads.len()
                            ==> (#[trigger] keys[x]) != #[trigger] reads[y],
                    decreases keys.len() - kj,
                {
                    let mut rl: usize = 0;
                    while rl < txn.reads.len()
                        invariant
                            ci < cs.len(),
                            cs == self.commits.deep_view(),
                            self.wf(),
                            *self == *old(self),
                            keys == cs[ci as int].keys,
                            reads == txn.reads.deep_view(),
                            kj < keys.len(),
                            rl <= reads.len(),
                            cs[ci as int].commit_ts >= txn.read_ts,
                            forall|y: int| 0 <= y < rl ==> keys[kj as int] != #[trigger] reads[y],
                        decreases reads.len() - rl,
                    {
                        let hit = key_eq(&self.commits[ci].keys[kj], &txn.reads[rl]);
                        proof {
                            let ck = self.commits@[ci as int].keys@[kj as int];
                            let rk = txn.reads@[rl as int];
                            assert(keys[kj as int] == ck.deep_view());
                            assert(ck.deep_view() =~= ck@);
                            assert(reads[rl as int] == rk.deep_view());
                            assert(rk.deep_view() =~= rk@);
                        }
                        if hit {
                            proof {
                                assert(keys[kj as int] == reads[rl as int]);
                                assert(conflicts_with(cs[ci as int], txn.read_ts, reads));
                            }
                            return Result::Err(LsmError::Conflict);
                        }
                        rl = rl + 1;
                    }
                    kj = kj + 1;
                }
            }
            ci = ci + 1;
        }
        proof {
            assert(!has_conflict(cs, txn.read_ts, txn.reads.deep_view()));
        }
        if u64::MAX - self.next_seq < txn.writes.len() as u64 {
            return Result::Err(LsmError::SequenceExhausted);
        }
        let Transaction { read_ts: _, reads: _, writes } = txn;
        let ghost ws = writes.deep_view();
        let mut keys: Vec<Vec<u8>> = Vec::new();
        let mut wi: usize = 0;
        while wi < writes.len()
            invariant
                wi <= ws.len(),
                ws == writes.deep_view(),
                self.wf(),
                self.next_seq == old(self).next_seq + wi,
                u64::MAX - self.next_seq >= ws.len() - wi,
                keys.deep_view().len() == wi,
                forall|x: int| 0 <= x < wi ==> (#[trigger] keys.deep_view()[x]) == ws[x].key,
                self.commits == old(self).commits,
                forall|k: Seq<u8>|
                    #![trigger self.kv(k)]
                    if write_map(ws.take(wi as int)).contains_key(k) {
                        self.kv(k) == write_map(ws.take(wi as int))[k]
                    } else {
                        self.kv(k) == old(self).kv(k)
                    },
            decreases ws.len() - wi,
        {
            let op = &writes[wi];
            let key = op.key.clone();
            let value: Option<Vec<u8>> = match &op.value {
                Option::Some(v) => Option::Some(v.clone()),
                Option::None => Option::None,
            };
            let ghost wk = key@;
            let ghost wv = value.deep_view();
            proof {
                assert(wk == ws[wi as int].key);
                assert(wv == ws[wi as int].value);
            }
            let ghost mid_kv = |k: Seq<u8>| self.kv(k);
            let ghost pre_keys = keys.deep_view();
            let copied_key = op.key.clone();
            let ghost ckv = copied_key@;
            keys.push(copied_key);
            proof {
                assert(keys@.len() == pre_keys.len() + 1);
                assert(keys.deep_view().len() == keys@.len());
                assert forall|x: int| 0 <= x < wi + 1
                    implies (#[trigger] keys.deep_view()[x]) == ws[x].key by {
                    if x < wi {
                        assert(keys.deep_view()[x] == pre_keys[x]);
                    } else {
                        assert(keys@[x]@ == ckv);
                        assert(keys@[x].deep_view() =~= keys@[x]@);
                    }
                }
            }
            match self.write_record(key, value) {
                Result::Ok(_) => {},
                Result::Err(_) => {
                    proof {
                        assert(false);
                    }
                },
            }
            proof {
                assert(ws.take(wi + 1).drop_last() =~= ws.take(wi as int));
                assert(ws.take(wi + 1).last() == ws[wi as int]);
                assert(write_map(ws.take(wi + 1))
                    == write_map(ws.take(wi as int)).insert(ws[wi as int].key, ws[wi as int].value));
                assert forall|k: Seq<u8>|
                    #![trigger self.kv(k)]
                    if write_map(ws.take(wi + 1)).contains_key(k) {
                        self.kv(k) == write_map(ws.take(wi + 1))[k]
                    } else {
                        self.kv(k) == old(self).kv(k)
                    } by {
                    if k == wk {
                        assert(self.kv(k) == wv);
                    } else {
                        assert(self.kv(k) == mid_kv(k));
                    }
                }
            }
            wi = wi + 1;
        }
        proof {
            assert(ws.take(ws.len() as int) =~= ws);
            assert(keys.deep_view() =~= Seq::new(ws.len(), |i: int| ws[i].key));
        }
        let commit_ts = self.next_seq - 1;
        let ghost pre = self.commits.deep_view();
        let ghost pre_push = *self;
        let record = CommitRecord { commit_ts, keys };
        let ghost recv = record@;
        self.commits.push(record);
        proof {
            assert(self.state == pre_push.state);
            assert(forall|k: Seq<u8>| #[trigger] self.kv(k) == pre_push.kv(k));
            assert(self.commits@.len() == pre.len() + 1);
            assert(self.commits.deep_view().len() == self.commits@.len());
            assert(self.commits.deep_view() =~= pre.push(recv));
        }
        Result::Ok(commit_ts)
    }
}

} // verus!
