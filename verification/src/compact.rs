//! Compaction strategies.
//!
//! A controller looks at a snapshot and decides, without mutating anything,
//! whether a merge is due and which levels take part. The closed set of
//! strategies: no compaction, the simple size-ratio strategy, the tiered
//! strategy and the leveled strategy; each carries its own parameters.

use vstd::prelude::*;

use crate::sstable::SsTable;
use crate::state::LsmStorageState;

verus! {

pub struct SimpleLeveledCompactionOptions {
    /// Merge a level down when the lower level holds less than this many
    /// hundredths of the upper level's bytes.
    pub size_ratio_percent: usize,
    /// Merge level 0 down once it holds this many tables.
    pub level0_file_num_compaction_trigger: usize,
    pub max_levels: usize,
}

pub struct TieredCompactionOptions {
    /// How many runs are tolerated before a merge is forced.
    pub num_tiers: usize,
    /// Merge everything when the non-last tiers exceed this many hundredths
    /// of the last tier's bytes.
    pub max_size_amplification_percent: usize,
    /// Merge a tier down when the lower tier holds no more than
    /// `(100 + size_ratio)` hundredths of the upper tier's bytes.
    pub size_ratio: usize,
    pub min_merge_width: usize,
}

pub struct LeveledCompactionOptions {
    pub level0_file_num_compaction_trigger: usize,
    pub max_levels: usize,
    /// Byte budget of level 1, in mebibytes.
    pub base_level_size_mb: usize,
    /// Each deeper level's budget is the previous one's times this.
    pub level_size_multiplier: usize,
}

pub enum CompactionOptions {
    NoCompaction,
    Simple(SimpleLeveledCompactionOptions),
    Tiered(TieredCompactionOptions),
    Leveled(LeveledCompactionOptions),
}

/// One merge step: either all of level 0 into level 1, or one governed
/// level into the one below it (`upper` is the vector index of the upper
/// level).
pub enum CompactionTask {
    MergeL0,
    MergeLevelDown { upper: usize },
}

/// Total bytes of a table list.
pub open spec fn size_sum(ts: Seq<SsTable>) -> int
    decreases ts.len(),
{
    if ts.len() == 0 {
        0
    } else {
        size_sum(ts.drop_last()) + ts.last().size
    }
}

pub proof fn lemma_size_sum_nonneg(ts: Seq<SsTable>)
    ensures
        size_sum(ts) >= 0,
    decreases ts.len(),
{
    if ts.len() > 0 {
        lemma_size_sum_nonneg(ts.drop_last());
    }
}

/// Total bytes, saturated at the accounting limit.
pub open spec fn sat_size(ts: Seq<SsTable>) -> int {
    if size_sum(ts) <= u64::MAX {
        size_sum(ts)
    } else {
        u64::MAX as int
    }
}

/// Computes the saturated byte total of a level.
pub fn level_size(ts: &Vec<SsTable>) -> (r: u64)
    ensures
        r == sat_size(ts@),
{
    let mut acc: u64 = 0;
    let mut i: usize = 0;
    proof {
        assert(ts@.take(0) =~= Seq::<SsTable>::empty());
    }
    while i < ts.len()
        invariant
            i <= ts@.len(),
            acc == sat_size(ts@.take(i as int)),
        decreases ts@.len() - i,
    {
        let sz: u64 = ts[i].size as u64;
        proof {
            lemma_size_sum_nonneg(ts@.take(i as int));
            assert(ts@.take(i + 1).drop_last() =~= ts@.take(i as int));
            assert(ts@.take(i + 1).last() == ts@[i as int]);
        }
        acc = acc.saturating_add(sz);
        i = i + 1;
    }
    proof {
        assert(ts@.take(ts@.len() as int) =~= ts@);
    }
    acc
}

proof fn lemma_mul_bound(a: int, b: int)
    requires
        0 <= a <= 0xffff_ffff_ffff_ffff,
        0 <= b <= 0xffff_ffff_ffff_ffff,
    ensures
        a * b <= 0xffff_ffff_ffff_ffff * 0xffff_ffff_ffff_ffff,
{
    assert(a * b <= 0xffff_ffff_ffff_ffff * 0xffff_ffff_ffff_ffff) by (nonlinear_arith)
        requires
            0 <= a <= 0xffff_ffff_ffff_ffff,
            0 <= b <= 0xffff_ffff_ffff_ffff,
    ;
}

/// Saturating product at the accounting limit.
pub fn sat_mul(a: u64, b: u64) -> (r: u64)
    ensures
        r == if a * b <= u64::MAX {
            a * b
        } else {
            u64::MAX as int
        },
{
    if b == 0 {
        return 0;
    }
    if a <= u64::MAX / b {
        proof {
            assert(a * b <= (u64::MAX / b) * b <= u64::MAX) by (nonlinear_arith)
                requires
                    b > 0,
                    a <= u64::MAX / b,
            ;
        }
        a * b
    } else {
        proof {
            assert(a * b > u64::MAX) by (nonlinear_arith)
                requires
                    b > 0,
                    a > u64::MAX / b,
            ;
        }
        u64::MAX
    }
}

/// The simple strategy's level-0 trigger.
pub open spec fn simple_l0_due(s: LsmStorageState, o: SimpleLeveledCompactionOptions) -> bool {
    s.l0_sstables@.len() >= o.level0_file_num_compaction_trigger && s.levels@.len() > 0
}

/// The simple strategy's cascade trigger between a level and the next.
pub open spec fn simple_level_due(s: LsmStorageState, o: SimpleLeveledCompactionOptions, u: int) -> bool {
    &&& 0 <= u
    &&& u + 1 < s.levels@.len()
    &&& s.levels@[u].tables@.len() > 0
    &&& sat_size(s.levels@[u + 1].tables@) * 100 < sat_size(s.levels@[u].tables@) * o.size_ratio_percent
}

/// Decides for the simple strategy: level 0 first, then the shallowest
/// out-of-ratio level.
pub fn simple_decide(s: &LsmStorageState, o: &SimpleLeveledCompactionOptions)
    -> (r: Option<CompactionTask>)
    ensures
        match r {
            Option::Some(CompactionTask::MergeL0) => simple_l0_due(*s, *o),
            Option::Some(CompactionTask::MergeLevelDown { upper }) => {
                &&& !simple_l0_due(*s, *o)
                &&& simple_level_due(*s, *o, upper as int)
                &&& forall|u: int| 0 <= u < upper ==> !simple_level_due(*s, *o, u)
            },
            Option::None => !simple_l0_due(*s, *o)
                && forall|u: int| !simple_level_due(*s, *o, u),
        },
{
    if s.l0_sstables.len() >= o.level0_file_num_compaction_trigger && s.levels.len() > 0 {
        return Option::Some(CompactionTask::MergeL0);
    }
    if s.levels.len() == 0 {
        return Option::None;
    }
    let last: usize = s.levels.len() - 1;
    let mut u: usize = 0;
    while u < last
        invariant
            u <= last,
            last == s.levels@.len() - 1,
            s.levels@.len() > 0,
            !simple_l0_due(*s, *o),
            forall|v: int| 0 <= v < u ==> !simple_level_due(*s, *o, v),
        decreases last - u,
    {
        if s.levels[u].tables.len() > 0 {
            let upper_size = level_size(&s.levels[u].tables);
            let lower_size = level_size(&s.levels[u + 1].tables);
            proof {
                lemma_mul_bound(upper_size as int, o.size_ratio_percent as int);
            }
            let lhs: u128 = lower_size as u128 * 100;
            let rhs: u128 = upper_size as u128 * (o.size_ratio_percent as u128);
            if lhs < rhs {
                return Option::Some(CompactionTask::MergeLevelDown { upper: u });
            }
        }
        u = u + 1;
    }
    Option::None
}

/// The leveled strategy's level-0 trigger.
pub open spec fn leveled_l0_due(s: LsmStorageState, o: LeveledCompactionOptions) -> bool {
    s.l0_sstables@.len() >= o.level0_file_num_compaction_trigger && s.levels@.len() > 0
}

/// The byte budget of the level at vector index `u`, saturated.
pub open spec fn leveled_target(o: LeveledCompactionOptions, u: int) -> int
    decreases u,
{
    if u <= 0 {
        if o.base_level_size_mb * 0x100000 <= u64::MAX {
            o.base_level_size_mb * 0x100000
        } else {
            u64::MAX as int
        }
    } else {
        if leveled_target(o, u - 1) * o.level_size_multiplier <= u64::MAX {
            leveled_target(o, u - 1) * o.level_size_multiplier
        } else {
            u64::MAX as int
        }
    }
}

/// The leveled strategy's size trigger for the level at vector index `u`.
pub open spec fn leveled_level_due(s: LsmStorageState, o: LeveledCompactionOptions, u: int) -> bool {
    &&& 0 <= u
    &&& u + 1 < s.levels@.len()
    &&& sat_size(s.levels@[u].tables@) > leveled_target(o, u)
}

/// Decides for the leveled strategy: level 0 first, then the shallowest
/// level over its byte budget.
pub fn leveled_decide(s: &LsmStorageState, o: &LeveledCompactionOptions)
    -> (r: Option<CompactionTask>)
    requires
        o.base_level_size_mb <= 0xffff_ffff,
        o.level_size_multiplier <= 0xffff_ffff,
    ensures
        match r {
            Option::Some(CompactionTask::MergeL0) => leveled_l0_due(*s, *o),
            Option::Some(CompactionTask::MergeLevelDown { upper }) => {
                &&& !leveled_l0_due(*s, *o)
                &&& leveled_level_due(*s, *o, upper as int)
                &&& forall|u: int| 0 <= u < upper ==> !leveled_level_due(*s, *o, u)
            },
            Option::None => !leveled_l0_due(*s, *o)
                && forall|u: int| !leveled_level_due(*s, *o, u),
        },
{
    if s.l0_sstables.len() >= o.level0_file_num_compaction_trigger && s.levels.len() > 0 {
        return Option::Some(CompactionTask::MergeL0);
    }
    if s.levels.len() == 0 {
        return Option::None;
    }
    let last: usize = s.levels.len() - 1;
    let mut target: u64 = sat_mul(o.base_level_size_mb as u64, 0x100000);
    let mut u: usize = 0;
    while u < last
        invariant
            u <= last,
            last == s.levels@.len() - 1,
            s.levels@.len() > 0,
            !leveled_l0_due(*s, *o),
            o.level_size_multiplier <= 0xffff_ffff,
            target == leveled_target(*o, u as int),
            forall|v: int| 0 <= v < u ==> !leveled_level_due(*s, *o, v),
        decreases last - u,
    {
        let sz = level_size(&s.levels[u].tables);
        if sz > target {
            return Option::Some(CompactionTask::MergeLevelDown { upper: u });
        }
        target = sat_mul(target, o.level_size_multiplier as u64);
        u = u + 1;
    }
    Option::None
}

/// The tiered strategy's space-amplification trigger: everything above the
/// deepest tier, against the deepest tier.
pub open spec fn tiered_amp_due(s: LsmStorageState, o: TieredCompactionOptions) -> bool {
    &&& s.levels@.len() >= 2
    &&& s.levels@[0].tables@.len() > 0
    &&& sat_size(s.levels@[s.levels@.len() - 1].tables@) * o.max_size_amplification_percent
        <= sat_size(s.levels@[0].tables@) * 100
}

/// The tiered strategy's size-ratio trigger between a tier and the next.
pub open spec fn tiered_ratio_due(s: LsmStorageState, o: TieredCompactionOptions, u: int) -> bool {
    &&& 0 <= u
    &&& u + 1 < s.levels@.len()
    &&& s.levels@[u].tables@.len() > 0
    &&& u + 2 >= o.min_merge_width
    &&& sat_size(s.levels@[u + 1].tables@) * 100
        <= sat_size(s.levels@[u].tables@) * (100 + o.size_ratio)
}

/// Decides for the tiered strategy: fresh level-0 runs sink first; then the
/// space-amplification bound, then the size-ratio bound.
pub fn tiered_decide(s: &LsmStorageState, o: &TieredCompactionOptions)
    -> (r: Option<CompactionTask>)
    requires
        o.max_size_amplification_percent <= 0xffff_ffff,
        o.size_ratio <= 0xffff_ffff,
    ensures
        match r {
            Option::Some(CompactionTask::MergeL0) => s.l0_sstables@.len() >= o.num_tiers
                && s.levels@.len() > 0,
            Option::Some(CompactionTask::MergeLevelDown { upper }) => {
                &&& s.l0_sstables@.len() < o.num_tiers || s.levels@.len() == 0
                &&& (tiered_amp_due(*s, *o) && upper == 0)
                    || (!tiered_amp_due(*s, *o) && tiered_ratio_due(*s, *o, upper as int)
                        && (forall|u: int| 0 <= u < upper ==> !tiered_ratio_due(*s, *o, u)))
            },
            Option::None => (s.l0_sstables@.len() < o.num_tiers || s.levels@.len() == 0)
                && !tiered_amp_due(*s, *o)
                && forall|u: int| !tiered_ratio_due(*s, *o, u),
        },
{
    if s.l0_sstables.len() >= o.num_tiers && s.levels.len() > 0 {
        return Option::Some(CompactionTask::MergeL0);
    }
    if s.levels.len() >= 2 && s.levels[0].tables.len() > 0 {
        let top = level_size(&s.levels[0].tables);
        let last = level_size(&s.levels[s.levels.len() - 1].tables);
        let amp: u64 = o.max_size_amplification_percent as u64;
        proof {
            lemma_mul_bound(last as int, amp as int);
        }
        if last as u128 * amp as u128 <= top as u128 * 100 {
            return Option::Some(CompactionTask::MergeLevelDown { upper: 0 });
        }
    }
    if s.levels.len() == 0 {
        return Option::None;
    }
    let last: usize = s.levels.len() - 1;
    let mut u: usize = 0;
    while u < last
        invariant
            u <= last,
            last == s.levels@.len() - 1,
            s.levels@.len() > 0,
            s.l0_sstables@.len() < o.num_tiers || s.levels@.len() == 0,
            !tiered_amp_due(*s, *o),
            o.size_ratio <= 0xffff_ffff,
            forall|v: int| 0 <= v < u ==> !tiered_ratio_due(*s, *o, v),
        decreases last - u,
    {
        if s.levels[u].tables.len() > 0 && u >= o.min_merge_width.saturating_sub(2) {
            let upper_size = level_size(&s.levels[u].tables);
            let lower_size = level_size(&s.levels[u + 1].tables);
            let factor: u64 = 100 + o.size_ratio as u64;
            proof {
                lemma_mul_bound(upper_size as int, factor as int);
            }
            if lower_size as u128 * 100 <= upper_size as u128 * factor as u128 {
                return Option::Some(CompactionTask::MergeLevelDown { upper: u });
            }
        }
        u = u + 1;
    }
    Option::None
}

/// The uniform controller entry: the configured strategy's exact decision.
pub fn decide(opts: &CompactionOptions, s: &LsmStorageState) -> (r: Option<CompactionTask>)
    requires
        compaction_options_wf(*opts),
    ensures
        r is Some ==> s.levels@.len() > 0,
        r matches Option::Some(CompactionTask::MergeLevelDown { upper })
            ==> upper + 1 < s.levels@.len(),
        opts is NoCompaction ==> r is None,
        (*opts) matches CompactionOptions::Simple(o) ==> match r {
            Option::Some(CompactionTask::MergeL0) => simple_l0_due(*s, o),
            Option::Some(CompactionTask::MergeLevelDown { upper }) => {
                &&& !simple_l0_due(*s, o)
                &&& simple_level_due(*s, o, upper as int)
                &&& forall|u: int| 0 <= u < upper ==> !simple_level_due(*s, o, u)
            },
            Option::None => !simple_l0_due(*s, o)
                && forall|u: int| !simple_level_due(*s, o, u),
        },
        (*opts) matches CompactionOptions::Leveled(o) ==> match r {
            Option::Some(CompactionTask::MergeL0) => leveled_l0_due(*s, o),
            Option::Some(CompactionTask::MergeLevelDown { upper }) => {
                &&& !leveled_l0_due(*s, o)
                &&& leveled_level_due(*s, o, upper as int)
                &&& forall|u: int| 0 <= u < upper ==> !leveled_level_due(*s, o, u)
            },
            Option::None => !leveled_l0_due(*s, o)
                && forall|u: int| !leveled_level_due(*s, o, u),
        },
        (*opts) matches CompactionOptions::Tiered(o) ==> match r {
            Option::Some(CompactionTask::MergeL0) => s.l0_sstables@.len() >= o.num_tiers
                && s.levels@.len() > 0,
            Option::Some(CompactionTask::MergeLevelDown { upper }) => {
                &&& s.l0_sstables@.len() < o.num_tiers || s.levels@.len() == 0
                &&& (tiered_amp_due(*s, o) && upper == 0)
                    || (!tiered_amp_due(*s, o) && tiered_ratio_due(*s, o, upper as int)
                        && (forall|u: int| 0 <= u < upper ==> !tiered_ratio_due(*s, o, u)))
            },
            Option::None => (s.l0_sstables@.len() < o.num_tiers || s.levels@.len() == 0)
                && !tiered_amp_due(*s, o)
                && forall|u: int| !tiered_ratio_due(*s, o, u),
        },
{
    match opts {
        CompactionOptions::NoCompaction => Option::None,
        CompactionOptions::Simple(o) => simple_decide(s, o),
        CompactionOptions::Tiered(o) => tiered_decide(s, o),
        CompactionOptions::Leveled(o) => leveled_decide(s, o),
    }
}

/// Parameter ranges under which every controller computation stays exact.
pub open spec fn compaction_options_wf(opts: CompactionOptions) -> bool {
    match opts {
        CompactionOptions::NoCompaction => true,
        CompactionOptions::Simple(o) => true,
        CompactionOptions::Tiered(o) => o.max_size_amplification_percent <= 0xffff_ffff
            && o.size_ratio <= 0xffff_ffff,
        CompactionOptions::Leveled(o) => o.base_level_size_mb <= 0xffff_ffff
            && o.level_size_multiplier <= 0xffff_ffff,
    }
}

} // verus!
