//! Where the rows of appended regions stand, and how a block is split.

use vstd::prelude::*;

use crate::virt::bytecode::{
    region_views, AppendedRegionKind, AppendedRegionMeta, OperandMode, RegionMetaView, TripCount,
};

verus! {

/// The rows of a table: those of the outer program first, then those of the
/// appended regions.
#[derive(Debug)]
pub struct UnifiedBytecodeLayout {
    pub outer_block_count: usize,
    pub regions: Vec<AppendedRegionMeta>,
    pub total_rows: usize,
}

/// What a [`UnifiedBytecodeLayout`] denotes.
#[verifier::ext_equal]
pub struct LayoutView {
    pub outer_block_count: usize,
    pub regions: Seq<RegionMetaView>,
    pub total_rows: usize,
}

impl View for UnifiedBytecodeLayout {
    type V = LayoutView;

    open spec fn view(&self) -> LayoutView {
        LayoutView {
            outer_block_count: self.outer_block_count,
            regions: region_views(self.regions@),
            total_rows: self.total_rows,
        }
    }
}

impl LayoutView {
    /// The row at which region `i` starts: behind the outer program and the
    /// regions before it.
    pub open spec fn region_start(self, i: int) -> int {
        if i == 0 {
            self.outer_block_count as int
        } else {
            self.regions[i - 1].pc_end as int
        }
    }

    /// Whether the regions tile the rows behind the outer program, without
    /// gaps and in order.
    pub open spec fn wf(self) -> bool {
        &&& self.total_rows == self.region_start(self.regions.len() as int)
        &&& forall|i: int|
            0 <= i < self.regions.len() ==> {
                &&& (#[trigger] self.regions[i]).pc_start == self.region_start(i)
                &&& self.regions[i].pc_start <= self.regions[i].pc_end
            }
    }
}

impl UnifiedBytecodeLayout {
    /// The layout of a program of `outer_block_count` blocks without regions.
    pub fn outer(outer_block_count: usize) -> (r: Self)
        ensures
            r@ == (LayoutView {
                outer_block_count,
                regions: Seq::empty(),
                total_rows: outer_block_count,
            }),
            r@.wf(),
    {
        let r = UnifiedBytecodeLayout {
            outer_block_count,
            regions: Vec::new(),
            total_rows: outer_block_count,
        };
        assert(r@.regions =~= Seq::empty());
        r
    }

    /// The row at which appended regions start.
    pub fn appended_base(&self) -> (r: u32)
        requires
            self.outer_block_count <= u32::MAX,
        ensures
            r == self.outer_block_count,
    {
        self.outer_block_count as u32
    }

    /// Append a region of `row_count` rows.
    pub fn push_region(&mut self, kind: AppendedRegionKind, row_count: usize) -> (meta:
        AppendedRegionMeta)
        requires
            old(self).total_rows + row_count <= u32::MAX,
        ensures
            meta@ == (RegionMetaView {
                pc_start: old(self).total_rows as u32,
                pc_end: (old(self).total_rows + row_count) as u32,
                kind: kind@,
            }),
            final(self)@ == (LayoutView {
                outer_block_count: old(self).outer_block_count,
                regions: old(self)@.regions.push(meta@),
                total_rows: (old(self).total_rows + row_count) as usize,
            }),
            old(self)@.wf() ==> final(self)@.wf(),
    {
        let pc_start: u32 = self.total_rows as u32;
        let pc_end: u32 = pc_start + row_count as u32;
        self.total_rows = pc_end as usize;
        let meta = AppendedRegionMeta { pc_start, pc_end, kind };
        let ghost before = self.regions@;
        self.regions.push(meta.clone());
        proof {
            assert(region_views(self.regions@) =~= region_views(before).push(meta@));
            let o = old(self)@;
            let n = self@;
            if o.wf() {
                assert forall|i: int| 0 <= i < n.regions.len() implies {
                    &&& (#[trigger] n.regions[i]).pc_start == n.region_start(i)
                    &&& n.regions[i].pc_start <= n.regions[i].pc_end
                } by {
                    if i < o.regions.len() {
                        assert(n.regions[i] == o.regions[i]);
                        if i > 0 {
                            assert(n.regions[i - 1] == o.regions[i - 1]);
                        }
                    } else if i > 0 {
                        assert(n.regions[i - 1] == o.regions[i - 1]);
                    }
                }
            }
        }
        meta
    }
}

/// A half-open range of statements.
#[derive(Clone, Copy, PartialEq, Eq, Debug, Structural)]
pub struct StmtRange {
    pub start: usize,
    pub end: usize,
}

impl StmtRange {
    /// The number of statements.
    pub open spec fn size(self) -> nat {
        if self.start < self.end {
            (self.end - self.start) as nat
        } else {
            0
        }
    }
}

/// A call of a region out of a block.
#[derive(Clone, Copy, PartialEq, Eq, Debug, Structural)]
pub enum SegmentInvoke {
    SharedCore { region_index: usize, entry_offset: u32 },
    RerollLoop { region_index: usize },
}

/// How a block runs once regions are split off.
#[derive(Debug)]
pub struct BlockCompositePlan {
    pub prologue: StmtRange,
    pub segments: Vec<SegmentInvoke>,
    pub epilogue: StmtRange,
}

/// Statement sequences, one in each of several blocks, that are equal up to
/// constants.
#[derive(Debug)]
pub struct SharedCoreSpec {
    pub members: Vec<(usize, StmtRange)>,
}

/// A repetition within a block.
#[derive(Clone, Copy, PartialEq, Eq, Debug, Structural)]
pub struct RerollLoopSpec {
    pub owner_block: usize,
    pub body_range: StmtRange,
    pub trip_count: TripCount,
    pub operand_mode: OperandMode,
    /// Every statement that the loop stands for.
    pub covered_range: StmtRange,
}

/// A plan for the whole module.
#[derive(Debug)]
pub struct AdaptiveSplitPlan {
    pub block_plans: Vec<BlockCompositePlan>,
    pub layout: UnifiedBytecodeLayout,
    pub shared_cores: Vec<SharedCoreSpec>,
    pub reroll_loops: Vec<RerollLoopSpec>,
}

/// The rows of the table are the outer program and the regions, each once:
/// two regions never share a row, and none meets the outer program.
pub proof fn law_regions_disjoint(l: LayoutView, i: int, j: int)
    requires
        l.wf(),
        0 <= i < j < l.regions.len(),
    ensures
        l.outer_block_count <= l.regions[i].pc_start,
        l.regions[i].pc_end <= l.regions[j].pc_start,
        l.regions[j].pc_end <= l.total_rows,
    decreases j - i,
{
    lemma_region_start_grows(l, 0, i);
    lemma_region_start_grows(l, i + 1, j);
    lemma_region_start_grows(l, j + 1, l.regions.len() as int);
}

/// Later regions start later.
proof fn lemma_region_start_grows(l: LayoutView, i: int, j: int)
    requires
        l.wf(),
        0 <= i <= j <= l.regions.len(),
    ensures
        l.region_start(i) <= l.region_start(j),
    decreases j - i,
{
    if i < j {
        lemma_region_start_grows(l, i, j - 1);
        assert(l.regions[j - 1].pc_start == l.region_start(j - 1));
    }
}

} // verus!
