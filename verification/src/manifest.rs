//! The manifest: a durable, append-only log of state transitions.
//!
//! Every transition — a new memtable, a flush, a compaction — appends one
//! record before it counts as complete. Replaying the records rebuilds the
//! id layout of the tree (which memtables are live, which files sit in
//! which level), so a crashed engine can be reopened at exactly the state
//! the last record describes.

use vstd::prelude::*;

use crate::state::LsmStorageState;

verus! {

/// One durable state transition.
pub enum ManifestRecord {
    /// A fresh active memtable was installed; the previous one froze.
    NewMemtable { id: u64 },
    /// The oldest frozen memtable became the newest level-0 table.
    Flush { mem_id: u64, sst_id: u64 },
    /// Level 0 and level 1 were merged into `count` tables with ids
    /// `first_id..`, installed as level 1.
    CompactL0 { first_id: u64, count: usize },
    /// The level at vector index `upper` was merged into the level below,
    /// which now holds `count` tables with ids `first_id..`.
    CompactLevel { upper: usize, first_id: u64, count: usize },
}

/// The id layout of the tree, as the manifest describes it.
pub struct LayoutV {
    pub active: u64,
    pub frozen: Seq<u64>,
    pub l0: Seq<u64>,
    pub levels: Seq<Seq<u64>>,
}

pub open spec fn id_range(first: u64, count: int) -> Seq<u64> {
    Seq::new(count as nat, |i: int| (first + i) as u64)
}

/// How one record advances the layout.
pub open spec fn layout_step(l: LayoutV, r: ManifestRecord) -> LayoutV {
    match r {
        ManifestRecord::NewMemtable { id } => LayoutV {
            active: id,
            frozen: seq![l.active] + l.frozen,
            ..l
        },
        ManifestRecord::Flush { mem_id, sst_id } => LayoutV {
            frozen: l.frozen.drop_last(),
            l0: seq![sst_id] + l.l0,
            ..l
        },
        ManifestRecord::CompactL0 { first_id, count } => LayoutV {
            l0: Seq::empty(),
            levels: l.levels.update(0, id_range(first_id, count as int)),
            ..l
        },
        ManifestRecord::CompactLevel { upper, first_id, count } => LayoutV {
            levels: l.levels.update(upper as int, Seq::empty()).update(
                upper + 1,
                id_range(first_id, count as int),
            ),
            ..l
        },
    }
}

/// The layout of a freshly opened store.
pub open spec fn layout_init(first_mem: u64, depth: int) -> LayoutV {
    LayoutV {
        active: first_mem,
        frozen: Seq::empty(),
        l0: Seq::empty(),
        levels: Seq::new(depth as nat, |i: int| Seq::<u64>::empty()),
    }
}

/// Replaying the whole manifest, oldest record first.
pub open spec fn layout_replay(first_mem: u64, depth: int, rs: Seq<ManifestRecord>) -> LayoutV
    decreases rs.len(),
{
    if rs.len() == 0 {
        layout_init(first_mem, depth)
    } else {
        layout_step(layout_replay(first_mem, depth, rs.drop_last()), rs.last())
    }
}

/// Whether every record can be applied to the layout the records before
/// it produce: flushes find a frozen memtable, compactions name a level
/// that exists and an id range that fits.
pub open spec fn layout_ok(first_mem: u64, depth: int, rs: Seq<ManifestRecord>) -> bool
    decreases rs.len(),
{
    if rs.len() == 0 {
        true
    } else {
        layout_ok(first_mem, depth, rs.drop_last()) && {
            let l = layout_replay(first_mem, depth, rs.drop_last());
            match rs.last() {
                ManifestRecord::NewMemtable { id } => true,
                ManifestRecord::Flush { mem_id, sst_id } => l.frozen.len() > 0,
                ManifestRecord::CompactL0 { first_id, count } => l.levels.len() > 0
                    && first_id + count <= u64::MAX,
                ManifestRecord::CompactLevel { upper, first_id, count } => upper + 1 < l.levels.len()
                    && first_id + count <= u64::MAX,
            }
        }
    }
}

pub proof fn lemma_layout_ok_prefix(first_mem: u64, depth: int, rs: Seq<ManifestRecord>, j: int)
    requires
        layout_ok(first_mem, depth, rs),
        0 <= j <= rs.len(),
    ensures
        layout_ok(first_mem, depth, rs.take(j)),
    decreases rs.len(),
{
    if j < rs.len() {
        assert(rs.drop_last().take(j) =~= rs.take(j));
        lemma_layout_ok_prefix(first_mem, depth, rs.drop_last(), j);
    } else {
        assert(rs.take(j) =~= rs);
    }
}

/// The id layout as an executable value, for recovery.
pub struct Layout {
    pub active: u64,
    pub frozen: Vec<u64>,
    pub l0: Vec<u64>,
    pub levels: Vec<Vec<u64>>,
}

impl Layout {
    pub open spec fn as_layout(self) -> LayoutV {
        LayoutV {
            active: self.active,
            frozen: self.frozen@,
            l0: self.l0@,
            levels: self.levels.deep_view(),
        }
    }
}

/// Replays a manifest into the id layout it describes: the pure part of
/// recovery on open. Returns `None` exactly when some record cannot be
/// applied — a corrupt manifest, surfaced to the opener.
pub fn recover_layout(first_mem: u64, depth: usize, manifest: &Vec<ManifestRecord>)
    -> (r: Option<Layout>)
    ensures
        r is Some <==> layout_ok(first_mem, depth as int, manifest@),
        r matches Some(l) ==> l.as_layout() == layout_replay(first_mem, depth as int, manifest@),
{
    let ghost rs = manifest@;
    let mut lay = Layout { active: first_mem, frozen: Vec::new(), l0: Vec::new(), levels: Vec::new() };
    let mut d: usize = 0;
    while d < depth
        invariant
            d <= depth,
            lay.levels@.len() == d,
            forall|i: int| 0 <= i < d ==> (#[trigger] lay.levels@[i])@.len() == 0,
            lay.active == first_mem,
            lay.frozen@.len() == 0,
            lay.l0@.len() == 0,
        decreases depth - d,
    {
        lay.levels.push(Vec::new());
        d = d + 1;
    }
    proof {
        assert(rs.take(0) =~= Seq::<ManifestRecord>::empty());
        assert forall|i: int| 0 <= i < depth
            implies #[trigger] lay.levels.deep_view()[i] == layout_init(first_mem, depth as int).levels[i] by {
            assert(lay.levels@[i].deep_view() =~= lay.levels@[i]@);
        }
        assert(lay.levels.deep_view() =~= layout_init(first_mem, depth as int).levels);
        assert(lay.as_layout().frozen =~= layout_init(first_mem, depth as int).frozen);
        assert(lay.as_layout().l0 =~= layout_init(first_mem, depth as int).l0);
    }
    let mut i: usize = 0;
    while i < manifest.len()
        invariant
            i <= rs.len(),
            rs == manifest@,
            layout_ok(first_mem, depth as int, rs.take(i as int)),
            lay.as_layout() == layout_replay(first_mem, depth as int, rs.take(i as int)),
        decreases rs.len() - i,
    {
        let ghost pre = lay.as_layout();
        proof {
            assert(rs.take(i + 1).drop_last() =~= rs.take(i as int));
            assert(rs.take(i + 1).last() == rs[i as int]);
        }
        match &manifest[i] {
            ManifestRecord::NewMemtable { id } => {
                lay.frozen.insert(0, lay.active);
                lay.active = *id;
                proof {
                    assert(lay.as_layout().frozen =~= seq![pre.active] + pre.frozen);
                }
            },
            ManifestRecord::Flush { mem_id: _, sst_id } => {
                if lay.frozen.len() == 0 {
                    proof {
                        lemma_recover_bad(first_mem, depth as int, rs, i as int);
                    }
                    return Option::None;
                }
                lay.frozen.pop();
                lay.l0.insert(0, *sst_id);
                proof {
                    assert(lay.as_layout().frozen =~= pre.frozen.drop_last());
                    assert(lay.as_layout().l0 =~= seq![*sst_id] + pre.l0);
                }
            },
            ManifestRecord::CompactL0 { first_id, count } => {
                if !(lay.levels.len() > 0 && *count as u64 <= u64::MAX - *first_id) {
                    proof {
                        lemma_recover_bad(first_mem, depth as int, rs, i as int);
                    }
                    return Option::None;
                }
                let ids = id_range_vec(*first_id, *count);
                lay.levels.remove(0);
                lay.levels.insert(0, ids);
                lay.l0 = Vec::new();
                proof {
                    assert(lay.as_layout().l0 =~= Seq::<u64>::empty());
                    assert forall|x: int| 0 <= x < lay.levels.deep_view().len()
                        implies #[trigger] lay.levels.deep_view()[x]
                            == pre.levels.update(0, id_range(*first_id, *count as int))[x] by {
                        assert(lay.levels@[x].deep_view() =~= lay.levels@[x]@);
                    }
                    assert(lay.levels.deep_view()
                        =~= pre.levels.update(0, id_range(*first_id, *count as int)));
                }
            },
            ManifestRecord::CompactLevel { upper, first_id, count } => {
                if !(lay.levels.len() >= 2 && *upper <= lay.levels.len() - 2
                    && *count as u64 <= u64::MAX - *first_id) {
                    proof {
                        lemma_recover_bad(first_mem, depth as int, rs, i as int);
                    }
                    return Option::None;
                }
                let ids = id_range_vec(*first_id, *count);
                let u = *upper;
                lay.levels.remove(u);
                lay.levels.insert(u, Vec::new());
                lay.levels.remove(u + 1);
                lay.levels.insert(u + 1, ids);
                proof {
                    let target = pre.levels.update(u as int, Seq::<u64>::empty()).update(
                        u + 1,
                        id_range(*first_id, *count as int),
                    );
                    assert forall|x: int| 0 <= x < lay.levels.deep_view().len()
                        implies #[trigger] lay.levels.deep_view()[x] == target[x] by {
                        assert(lay.levels@[x].deep_view() =~= lay.levels@[x]@);
                    }
                    assert(lay.levels.deep_view() =~= target);
                }
            },
        }
        i = i + 1;
    }
    proof {
        assert(rs.take(rs.len() as int) =~= rs);
    }
    Option::Some(lay)
}

/// A record that cannot be applied condemns the whole manifest.
proof fn lemma_recover_bad(first_mem: u64, depth: int, rs: Seq<ManifestRecord>, i: int)
    requires
        0 <= i < rs.len(),
        !layout_ok(first_mem, depth, rs.take(i + 1)),
    ensures
        !layout_ok(first_mem, depth, rs),
{
    if layout_ok(first_mem, depth, rs) {
        lemma_layout_ok_prefix(first_mem, depth, rs, i + 1);
    }
}

/// The consecutive ids `first..first + count`, as a vector.
fn id_range_vec(first: u64, count: usize) -> (r: Vec<u64>)
    requires
        first + count <= u64::MAX,
    ensures
        r@ == id_range(first, count as int),
{
    let mut r: Vec<u64> = Vec::new();
    let mut c: usize = 0;
    while c < count
        invariant
            c <= count,
            first + count <= u64::MAX,
            r@.len() == c,
            forall|x: int| 0 <= x < c ==> (#[trigger] r@[x]) == first + x,
        decreases count - c,
    {
        r.push(first + c as u64);
        c = c + 1;
    }
    proof {
        assert(r@ =~= id_range(first, count as int));
    }
    r
}

/// The id layout a live snapshot actually has.
pub open spec fn layout_of(s: LsmStorageState) -> LayoutV {
    LayoutV {
        active: s.memtable.id,
        frozen: Seq::new(s.imm_memtables@.len(), |i: int| s.imm_memtables@[i].id),
        l0: Seq::new(s.l0_sstables@.len(), |i: int| s.l0_sstables@[i].id),
        levels: Seq::new(
            s.levels@.len(),
            |i: int| Seq::new(s.levels@[i].tables@.len(), |j: int| s.levels@[i].tables@[j].id),
        ),
    }
}

/// States whose fields agree describe one layout.
pub proof fn lemma_layout_same(s1: LsmStorageState, s2: LsmStorageState)
    requires
        s1.memtable.id == s2.memtable.id,
        s1.imm_memtables@ == s2.imm_memtables@,
        s1.l0_sstables@ == s2.l0_sstables@,
        s1.levels@ == s2.levels@,
    ensures
        layout_of(s2) == layout_of(s1),
{
    assert(layout_of(s2).frozen =~= layout_of(s1).frozen);
    assert(layout_of(s2).l0 =~= layout_of(s1).l0);
    lemma_layout_levels_eq(s1, s2);
}

proof fn lemma_layout_levels_eq(s1: LsmStorageState, s2: LsmStorageState)
    requires
        s1.levels@ == s2.levels@,
    ensures
        layout_of(s2).levels == layout_of(s1).levels,
{
    assert forall|i: int| 0 <= i < s2.levels@.len()
        implies #[trigger] layout_of(s2).levels[i] == layout_of(s1).levels[i] by {
        assert(layout_of(s2).levels[i] =~= layout_of(s1).levels[i]);
    }
    assert(layout_of(s2).levels =~= layout_of(s1).levels);
}

/// Freezing the active memtable appends a `NewMemtable` record.
pub proof fn lemma_layout_after_freeze(s1: LsmStorageState, s2: LsmStorageState, new_id: u64)
    requires
        s2.memtable.id == new_id,
        s2.imm_memtables@.len() == s1.imm_memtables@.len() + 1,
        s2.imm_memtables@[0].id == s1.memtable.id,
        forall|i: int| 1 <= i < s2.imm_memtables@.len()
            ==> #[trigger] s2.imm_memtables@[i] == s1.imm_memtables@[i - 1],
        s2.l0_sstables@ == s1.l0_sstables@,
        s2.levels@ == s1.levels@,
    ensures
        layout_of(s2) == layout_step(layout_of(s1), ManifestRecord::NewMemtable { id: new_id }),
{
    assert(layout_of(s2).frozen =~= seq![s1.memtable.id] + layout_of(s1).frozen);
    assert(layout_of(s2).l0 =~= layout_of(s1).l0);
    lemma_layout_levels_eq(s1, s2);
}

/// Flushing the oldest frozen memtable appends a `Flush` record.
pub proof fn lemma_layout_after_flush(s1: LsmStorageState, s2: LsmStorageState, mem_id: u64, sst_id: u64)
    requires
        s1.imm_memtables@.len() > 0,
        s2.memtable == s1.memtable,
        s2.imm_memtables@ == s1.imm_memtables@.drop_last(),
        s2.l0_sstables@.len() == s1.l0_sstables@.len() + 1,
        s2.l0_sstables@[0].id == sst_id,
        forall|i: int| 1 <= i < s2.l0_sstables@.len()
            ==> #[trigger] s2.l0_sstables@[i] == s1.l0_sstables@[i - 1],
        s2.levels@ == s1.levels@,
    ensures
        layout_of(s2) == layout_step(layout_of(s1), ManifestRecord::Flush { mem_id, sst_id }),
{
    assert(layout_of(s2).frozen =~= layout_of(s1).frozen.drop_last());
    assert(layout_of(s2).l0 =~= seq![sst_id] + layout_of(s1).l0);
    lemma_layout_levels_eq(s1, s2);
}

/// Merging level 0 into level 1 appends a `CompactL0` record.
pub proof fn lemma_layout_after_compact_l0(
    s1: LsmStorageState,
    s2: LsmStorageState,
    first_id: u64,
    count: usize,
)
    requires
        s2.memtable == s1.memtable,
        s2.imm_memtables@ == s1.imm_memtables@,
        s2.l0_sstables@.len() == 0,
        s2.levels@.len() == s1.levels@.len(),
        s2.levels@.len() > 0,
        count == s2.levels@[0].tables@.len(),
        forall|i: int| 1 <= i < s2.levels@.len() ==> #[trigger] s2.levels@[i] == s1.levels@[i],
        forall|i: int| 0 <= i < s2.levels@[0].tables@.len()
            ==> (#[trigger] s2.levels@[0].tables@[i]).id == first_id + i,
    ensures
        layout_of(s2) == layout_step(
            layout_of(s1),
            ManifestRecord::CompactL0 { first_id, count },
        ),
{
    assert(layout_of(s2).frozen =~= layout_of(s1).frozen);
    assert(layout_of(s2).l0 =~= Seq::<u64>::empty());
    assert forall|i: int| 0 <= i < s2.levels@.len()
        implies #[trigger] layout_of(s2).levels[i]
            == layout_of(s1).levels.update(0, id_range(first_id, count as int))[i] by {
        if i == 0 {
            assert forall|j: int| 0 <= j < count
                implies #[trigger] layout_of(s2).levels[0][j] == id_range(first_id, count as int)[j] by {
                assert((#[trigger] s2.levels@[0].tables@[j]).id == first_id + j);
            }
            assert(layout_of(s2).levels[0] =~= id_range(first_id, count as int));
        } else {
            assert(layout_of(s2).levels[i] =~= layout_of(s1).levels[i]);
        }
    }
    assert(layout_of(s2).levels =~= layout_of(s1).levels.update(0, id_range(first_id, count as int)));
}

/// Merging a governed level down appends a `CompactLevel` record.
pub proof fn lemma_layout_after_compact_level(
    s1: LsmStorageState,
    s2: LsmStorageState,
    upper: usize,
    first_id: u64,
    count: usize,
)
    requires
        s2.memtable == s1.memtable,
        s2.imm_memtables@ == s1.imm_memtables@,
        s2.l0_sstables@ == s1.l0_sstables@,
        s2.levels@.len() == s1.levels@.len(),
        upper + 1 < s2.levels@.len(),
        count == s2.levels@[upper + 1].tables@.len(),
        forall|i: int| 0 <= i < s2.levels@.len() && i != upper && i != upper + 1
            ==> #[trigger] s2.levels@[i] == s1.levels@[i],
        s2.levels@[upper as int].tables@.len() == 0,
        forall|i: int| 0 <= i < s2.levels@[upper + 1].tables@.len()
            ==> (#[trigger] s2.levels@[upper + 1].tables@[i]).id == first_id + i,
    ensures
        layout_of(s2) == layout_step(
            layout_of(s1),
            ManifestRecord::CompactLevel { upper, first_id, count },
        ),
{
    let target = layout_of(s1).levels.update(upper as int, Seq::<u64>::empty()).update(
        upper + 1,
        id_range(first_id, count as int),
    );
    assert(layout_of(s2).frozen =~= layout_of(s1).frozen);
    assert(layout_of(s2).l0 =~= layout_of(s1).l0);
    assert forall|i: int| 0 <= i < s2.levels@.len()
        implies #[trigger] layout_of(s2).levels[i] == target[i] by {
        if i == upper {
            assert(layout_of(s2).levels[i] =~= Seq::<u64>::empty());
        } else if i == upper + 1 {
            assert forall|j: int| 0 <= j < count
                implies #[trigger] layout_of(s2).levels[i][j] == id_range(first_id, count as int)[j] by {
                assert((#[trigger] s2.levels@[upper + 1].tables@[j]).id == first_id + j);
            }
            assert(layout_of(s2).levels[i] =~= id_range(first_id, count as int));
        } else {
            assert(layout_of(s2).levels[i] =~= layout_of(s1).levels[i]);
        }
    }
    assert(layout_of(s2).levels =~= target);
}

} // verus!
