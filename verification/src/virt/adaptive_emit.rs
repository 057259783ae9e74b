//! Virtualisation with regions.
//!
//! The blocks that call a region are cut where the region starts and ends, and
//! a repetition also where each of its rounds starts. Every piece is a row of
//! its own: the pieces that blocks are entered at are the rows of the outer
//! program, the rows of each region follow, and behind them what is left of the
//! blocks. A block that starts with a region is entered at an empty piece.
//! Pieces that are equal up to constants and destinations share a handler.

use vstd::prelude::*;

use crate::common::{IrTypeView, TypeTable};
use crate::ir::{stmt_output_type, IRBlockView, IRBlocks, IRVarId};
use crate::virt::bytecode::{
    entry_views, region_views, AppendedRegionMeta, BytecodeEntry, BytecodeRowKind, EntryView,
    RegionMetaView, VirtBytecode,
};
use crate::virt::canon::{ir_immediates, ir_schema};
use crate::virt::config::VirtualizeConfig;
use crate::virt::ctx::VirtOutput;
use crate::virt::handler::scoped;
use crate::virt::hash::{CommitmentConfig, IrHashAlgorithm};
use crate::virt::ir::{
    bytecode_of, emits, merged_blocks, plan_of, plan_ready, plan_rows, virtualize_ir_outer,
    virtualizes, IrPlan,
};
use crate::virt::layout::{AdaptiveSplitPlan, SegmentInvoke};
use crate::virt::module::handlers;
use crate::virt::pieces::{cut_blocks, hands_on, pieces, row_in, rows_in, Row};
use crate::virt::regs::var_type;
use crate::virt::split::{
    call_valid, calls_valid, core_views, regions_in, segment_range, segment_stmt_range, split_view,
    SplitView,
};

verus! {

// ---------------------------------------------------------------------------
// Where blocks are cut
// ---------------------------------------------------------------------------

/// The first of the first `n` calls of block `b` that stands for statement `i`.
pub open spec fn owner_among(s: SplitView, b: int, i: int, n: int) -> Option<int>
    decreases n,
{
    if n <= 0 {
        None
    } else {
        match owner_among(s, b, i, n - 1) {
            Some(k) => Some(k),
            None => {
                let r = segment_range(s, b, s.segments[b][n - 1]);
                if r.start <= i < r.end {
                    Some(n - 1)
                } else {
                    None
                }
            },
        }
    }
}

/// The first call of block `b` that stands for statement `i`.
pub open spec fn owner(s: SplitView, b: int, i: int) -> Option<int> {
    owner_among(s, b, i, s.segments[b].len() as int)
}

/// Whether a round of a repetition starts at statement `i` of block `b`.
pub open spec fn round_starts(s: SplitView, b: int, i: int) -> bool {
    match owner(s, b, i) {
        Some(k) => match s.segments[b][k] {
            SegmentInvoke::RerollLoop { region_index } => {
                let l = s.loops[region_index as int];
                &&& l.body_range.start < l.body_range.end
                &&& (i - l.covered_range.start) % (l.body_range.end - l.body_range.start) == 0
            },
            _ => false,
        },
        None => false,
    }
}

/// Whether block `b` is cut before statement `c`: a region starts or ends
/// there, or a round of a repetition, and there is a value to hand on.
pub open spec fn is_cut(s: SplitView, blocks: Seq<IRBlockView>, b: int, c: int) -> bool {
    &&& 0 <= c < blocks[b].stmts.len()
    &&& hands_on(blocks[b], c)
    &&& if c == 0 {
        owner(s, b, 0) is Some
    } else {
        owner(s, b, c - 1) != owner(s, b, c) || round_starts(s, b, c)
    }
}

/// The cuts of block `b` before statement `n`.
pub open spec fn block_cuts(s: SplitView, blocks: Seq<IRBlockView>, b: int, n: int) -> Seq<Row>
    decreases n,
{
    if n <= 0 {
        Seq::empty()
    } else if is_cut(s, blocks, b, n - 1) {
        block_cuts(s, blocks, b, n - 1).push(
            Row { block: b as usize, start: (n - 1) as usize, entry: false },
        )
    } else {
        block_cuts(s, blocks, b, n - 1)
    }
}

/// The cuts of the first `n` blocks.
pub open spec fn all_cuts(s: SplitView, blocks: Seq<IRBlockView>, n: int) -> Seq<Row>
    decreases n,
{
    if n <= 0 {
        Seq::empty()
    } else {
        all_cuts(s, blocks, n - 1) + block_cuts(
            s,
            blocks,
            n - 1,
            blocks[n - 1].stmts.len() as int,
        )
    }
}

/// The region of a row, or the number of regions for what is left of a block.
pub open spec fn region_of(s: SplitView, r: Row) -> int {
    match owner(s, r.block as int, r.start as int) {
        Some(k) => match s.segments[r.block as int][k] {
            SegmentInvoke::SharedCore { region_index, .. } => region_index as int,
            SegmentInvoke::RerollLoop { region_index } => s.cores.len() + region_index as int,
        },
        None => s.regions.len() as int,
    }
}

/// The rows of region `g` among the first `n` cuts.
pub open spec fn rows_of_region(s: SplitView, cuts: Seq<Row>, g: int, n: int) -> Seq<Row>
    decreases n,
{
    if n <= 0 {
        Seq::empty()
    } else if region_of(s, cuts[n - 1]) == g {
        rows_of_region(s, cuts, g, n - 1).push(cuts[n - 1])
    } else {
        rows_of_region(s, cuts, g, n - 1)
    }
}

/// The rows of the first `g` regions, region by region.
pub open spec fn region_rows(s: SplitView, cuts: Seq<Row>, g: int) -> Seq<Row>
    decreases g,
{
    if g <= 0 {
        Seq::empty()
    } else {
        region_rows(s, cuts, g - 1) + rows_of_region(s, cuts, g - 1, cuts.len() as int)
    }
}

/// The pieces that `n` blocks are entered at.
pub open spec fn outer_rows(n: nat) -> Seq<Row> {
    Seq::new(n, |b: int| Row { block: b as usize, start: 0, entry: true })
}

/// The rows of a program: those of the blocks, those of the regions, and those
/// of what is left of the blocks.
pub open spec fn split_rows(s: SplitView, blocks: Seq<IRBlockView>) -> Seq<Row> {
    outer_rows(blocks.len()) + region_rows(
        s,
        all_cuts(s, blocks, blocks.len() as int),
        s.regions.len() as int + 1,
    )
}

/// The first row of region `g`.
pub open spec fn region_start(s: SplitView, blocks: Seq<IRBlockView>, g: int) -> int {
    blocks.len() as int + region_rows(s, all_cuts(s, blocks, blocks.len() as int), g).len()
}

/// The regions of a program, with their rows.
pub open spec fn split_regions(s: SplitView, blocks: Seq<IRBlockView>) -> Seq<RegionMetaView> {
    Seq::new(
        s.regions.len(),
        |g: int|
            RegionMetaView {
                pc_start: region_start(s, blocks, g) as u32,
                pc_end: region_start(s, blocks, g + 1) as u32,
                kind: s.regions[g].kind,
            },
    )
}

/// What a row is for.
pub open spec fn row_kind(s: SplitView, r: Row) -> BytecodeRowKind {
    if r.entry {
        BytecodeRowKind::Outer
    } else {
        match owner(s, r.block as int, r.start as int) {
            Some(k) => match s.segments[r.block as int][k] {
                SegmentInvoke::SharedCore { .. } => BytecodeRowKind::SharedCoreStep,
                SegmentInvoke::RerollLoop { .. } => BytecodeRowKind::RerollDescriptor,
            },
            None => BytecodeRowKind::Outer,
        }
    }
}

/// Every cut is one of a block.
proof fn lemma_block_cuts(s: SplitView, blocks: Seq<IRBlockView>, b: int, n: int, i: int)
    requires
        0 <= b < blocks.len() <= usize::MAX,
        n <= blocks[b].stmts.len() <= usize::MAX,
        0 <= i < block_cuts(s, blocks, b, n).len(),
    ensures
        row_in(block_cuts(s, blocks, b, n)[i], blocks),
    decreases n,
{
    let before = block_cuts(s, blocks, b, n - 1);
    if i < before.len() {
        lemma_block_cuts(s, blocks, b, n - 1, i);
    }
}

/// So is every cut of a program.
proof fn lemma_all_cuts(s: SplitView, blocks: Seq<IRBlockView>, n: int, i: int)
    requires
        n <= blocks.len() <= usize::MAX,
        forall|b: int| 0 <= b < blocks.len() ==> (#[trigger] blocks[b]).stmts.len() <= usize::MAX,
        0 <= i < all_cuts(s, blocks, n).len(),
    ensures
        row_in(all_cuts(s, blocks, n)[i], blocks),
    decreases n,
{
    let before = all_cuts(s, blocks, n - 1);
    if i < before.len() {
        lemma_all_cuts(s, blocks, n - 1, i);
    } else {
        assert(blocks[n - 1].stmts.len() <= usize::MAX);
        lemma_block_cuts(s, blocks, n - 1, blocks[n - 1].stmts.len() as int, i - before.len());
    }
}

/// The rows of a region are cuts.
proof fn lemma_rows_of_region(s: SplitView, cuts: Seq<Row>, g: int, n: int, i: int)
    requires
        n <= cuts.len(),
        0 <= i < rows_of_region(s, cuts, g, n).len(),
    ensures
        cuts.contains(rows_of_region(s, cuts, g, n)[i]),
    decreases n,
{
    let before = rows_of_region(s, cuts, g, n - 1);
    if i < before.len() {
        lemma_rows_of_region(s, cuts, g, n - 1, i);
    } else {
        assert(cuts[n - 1] == rows_of_region(s, cuts, g, n)[i]);
    }
}

/// So are those of several regions.
proof fn lemma_region_rows(s: SplitView, cuts: Seq<Row>, g: int, i: int)
    requires
        0 <= i < region_rows(s, cuts, g).len(),
    ensures
        cuts.contains(region_rows(s, cuts, g)[i]),
    decreases g,
{
    let before = region_rows(s, cuts, g - 1);
    if i < before.len() {
        lemma_region_rows(s, cuts, g - 1, i);
    } else {
        lemma_rows_of_region(s, cuts, g - 1, cuts.len() as int, i - before.len());
    }
}

/// More regions have no fewer rows.
proof fn lemma_region_rows_grow(s: SplitView, cuts: Seq<Row>, g: int, h: int)
    requires
        g <= h,
    ensures
        region_rows(s, cuts, g).len() <= region_rows(s, cuts, h).len(),
    decreases h - g,
{
    if g < h && h > 0 {
        lemma_region_rows_grow(s, cuts, g, h - 1);
    }
}

/// The rows are pieces of the program.
pub proof fn lemma_split_rows(s: SplitView, blocks: Seq<IRBlockView>)
    requires
        split_rows(s, blocks).len() <= u32::MAX,
        forall|b: int| 0 <= b < blocks.len() ==> (#[trigger] blocks[b]).var_space() <= u32::MAX,
    ensures
        rows_in(split_rows(s, blocks), blocks),
{
    let rows = split_rows(s, blocks);
    let n = blocks.len() as int;
    let cuts = all_cuts(s, blocks, n);
    assert forall|b: int| 0 <= b < blocks.len() implies (#[trigger] blocks[b]).stmts.len()
        <= usize::MAX by {
        assert(blocks[b].var_space() <= u32::MAX);
    }
    assert forall|k: int| 0 <= k < rows.len() implies row_in(#[trigger] rows[k], blocks) by {
        if k >= n {
            lemma_region_rows(s, cuts, s.regions.len() as int + 1, k - n);
            let i = cuts.index_of(rows[k]);
            lemma_all_cuts(s, blocks, n, i);
        }
    }
}

// ---------------------------------------------------------------------------
// Cutting blocks
// ---------------------------------------------------------------------------

/// Whether a plan is one of the given blocks with valid calls.
spec fn planned(plan: AdaptiveSplitPlan, blocks: Seq<IRBlockView>, s: SplitView) -> bool {
    &&& plan.plans(blocks, s)
    &&& calls_valid(s)
    &&& regions_in(blocks, s)
    &&& s.segments.len() == blocks.len()
    &&& forall|b: int| 0 <= b < blocks.len() ==> (#[trigger] blocks[b]).var_space() <= u32::MAX
}

/// The first call of block `b` that stands for statement `i`.
fn find_owner(
    plan: &AdaptiveSplitPlan,
    b: usize,
    i: usize,
    blocks: Ghost<Seq<IRBlockView>>,
    s: Ghost<SplitView>,
) -> (r: Option<usize>)
    requires
        planned(*plan, blocks@, s@),
        b < blocks@.len(),
    ensures
        match r {
            Some(k) => k < s@.segments[b as int].len() && owner(s@, b as int, i as int) == Some(
                k as int,
            ),
            None => owner(s@, b as int, i as int) is None,
        },
{
    let segments = &plan.block_plans[b].segments;
    assert(segments@ == s@.segments[b as int]);
    let mut n: usize = 0;
    while n < segments.len()
        invariant
            n <= segments.len(),
            planned(*plan, blocks@, s@),
            b < blocks@.len(),
            segments@ == s@.segments[b as int],
            owner_among(s@, b as int, i as int, n as int) is None,
        decreases segments.len() - n,
    {
        assert(call_valid(s@, s@.segments[b as int][n as int]));
        let range = segment_stmt_range(b, &segments[n], &plan.shared_cores, &plan.reroll_loops, s);
        if range.start <= i && i < range.end {
            proof {
                lemma_owner_found(s@, b as int, i as int, n as int, segments@.len() as int);
            }
            return Some(n);
        }
        n += 1;
    }
    None
}

/// What is found is not lost.
proof fn lemma_owner_found(s: SplitView, b: int, i: int, k: int, n: int)
    requires
        0 <= k < n,
        owner_among(s, b, i, k) is None,
        ({
            let r = segment_range(s, b, s.segments[b][k]);
            r.start <= i < r.end
        }),
    ensures
        owner_among(s, b, i, n) == Some(k),
    decreases n,
{
    if k < n - 1 {
        lemma_owner_found(s, b, i, k, n - 1);
    }
}

/// Whether a round of a repetition starts at statement `i` of block `b`.
fn starts_round(
    plan: &AdaptiveSplitPlan,
    b: usize,
    i: usize,
    by: Option<usize>,
    blocks: Ghost<Seq<IRBlockView>>,
    s: Ghost<SplitView>,
) -> (r: bool)
    requires
        planned(*plan, blocks@, s@),
        b < blocks@.len(),
        match by {
            Some(k) => k < s@.segments[b as int].len() && owner(s@, b as int, i as int) == Some(
                k as int,
            ),
            None => owner(s@, b as int, i as int) is None,
        },
    ensures
        r == round_starts(s@, b as int, i as int),
{
    match by {
        Some(k) => {
            let segments = &plan.block_plans[b].segments;
            assert(segments@ == s@.segments[b as int]);
            assert(call_valid(s@, s@.segments[b as int][k as int]));
            proof {
                lemma_owner_range(s@, b as int, i as int, segments@.len() as int);
            }
            match segments[k] {
                SegmentInvoke::RerollLoop { region_index } => {
                    let l = plan.reroll_loops[region_index];
                    if l.body_range.start < l.body_range.end && l.covered_range.start <= i {
                        (i - l.covered_range.start) % (l.body_range.end - l.body_range.start) == 0
                    } else {
                        false
                    }
                },
                SegmentInvoke::SharedCore { .. } => false,
            }
        },
        None => false,
    }
}

/// A call that stands for a statement has it in its range.
proof fn lemma_owner_range(s: SplitView, b: int, i: int, n: int)
    ensures
        owner_among(s, b, i, n) matches Some(k) ==> 0 <= k < n && ({
            let r = segment_range(s, b, s.segments[b][k]);
            r.start <= i < r.end
        }),
    decreases n,
{
    if n > 0 {
        lemma_owner_range(s, b, i, n - 1);
    }
}

/// The cuts of all blocks.
fn collect_cuts<P>(
    blocks: &IRBlocks<P>,
    plan: &AdaptiveSplitPlan,
    s: Ghost<SplitView>,
) -> (r: Vec<Row>)
    requires
        planned(*plan, blocks@.blocks, s@),
    ensures
        r@ == all_cuts(s@, blocks@.blocks, blocks@.blocks.len() as int),
{
    let ghost bv = blocks@.blocks;
    let mut out: Vec<Row> = Vec::new();
    let mut b: usize = 0;
    while b < blocks.blocks.len()
        invariant
            b <= blocks.blocks.len(),
            bv == blocks@.blocks,
            planned(*plan, bv, s@),
            out@ == all_cuts(s@, bv, b as int),
        decreases blocks.blocks.len() - b,
    {
        let block = &blocks.blocks[b];
        let ghost before = out@;
        let n: usize = block.stmts.len();
        assert(bv[b as int] == block@);
        assert(block@.stmts.len() == n);
        assert(before + block_cuts(s@, bv, b as int, 0) =~= before);
        let hands: bool = if block.params.len() > 0 {
            true
        } else if n > 0 {
            assert(block@.stmts[0] == block.stmts@[0].kind@);
            stmt_output_type(&block.stmts[0].kind).is_some()
        } else {
            false
        };
        let mut last: Option<usize> = None;
        let mut c: usize = 0;
        while c < n
            invariant
                c <= n,
                n == block@.stmts.len(),
                n == block.stmts@.len(),
                b < blocks.blocks.len(),
                bv == blocks@.blocks,
                bv[b as int] == block@,
                planned(*plan, bv, s@),
                n > 0 ==> hands == (var_type(block@, IRVarId(0)) is Some),
                c > 0 ==> match last {
                    Some(k) => owner(s@, b as int, c - 1) == Some(k as int),
                    None => owner(s@, b as int, c - 1) is None,
                },
                out@ == before + block_cuts(s@, bv, b as int, c as int),
            decreases n - c,
        {
            let by = find_owner(plan, b, c, Ghost(bv), s);
            let round: bool = starts_round(plan, b, c, by, Ghost(bv), s);
            let changes: bool = match (last, by) {
                (Some(x), Some(y)) => x != y,
                (None, None) => false,
                _ => true,
            };
            let cut: bool = if c == 0 {
                by.is_some()
            } else {
                hands && (changes || round)
            };
            assert(cut == is_cut(s@, bv, b as int, c as int));
            if cut {
                let ghost o = out@;
                out.push(Row { block: b, start: c, entry: false });
                assert(out@ =~= before + block_cuts(s@, bv, b as int, c + 1));
            }
            last = by;
            c += 1;
        }
        b += 1;
    }
    out
}

/// The region of a row.
fn find_region(
    plan: &AdaptiveSplitPlan,
    r: Row,
    blocks: Ghost<Seq<IRBlockView>>,
    s: Ghost<SplitView>,
) -> (g: usize)
    requires
        planned(*plan, blocks@, s@),
        r.block < blocks@.len(),
    ensures
        g == region_of(s@, r),
{
    proof {
        assert(region_views(plan.layout.regions@).len() == plan.layout.regions@.len());
        assert(core_views(plan.shared_cores@).len() == plan.shared_cores@.len());
        assert(plan.layout.regions@.len() == s@.cores.len() + s@.loops.len());
        assert(plan.layout.regions.len() <= usize::MAX);
    }
    match find_owner(plan, r.block, r.start, blocks, s) {
        Some(k) => {
            let segments = &plan.block_plans[r.block].segments;
            assert(segments@ == s@.segments[r.block as int]);
            assert(call_valid(s@, s@.segments[r.block as int][k as int]));
            match segments[k] {
                SegmentInvoke::SharedCore { region_index, .. } => region_index,
                SegmentInvoke::RerollLoop { region_index } => plan.shared_cores.len()
                    + region_index,
            }
        },
        None => plan.layout.regions.len(),
    }
}

/// What a row is for.
fn find_kind(
    plan: &AdaptiveSplitPlan,
    r: Row,
    blocks: Ghost<Seq<IRBlockView>>,
    s: Ghost<SplitView>,
) -> (k: BytecodeRowKind)
    requires
        planned(*plan, blocks@, s@),
        r.block < blocks@.len(),
    ensures
        k == row_kind(s@, r),
{
    if r.entry {
        return BytecodeRowKind::Outer;
    }
    match find_owner(plan, r.block, r.start, blocks, s) {
        Some(k) => {
            let segments = &plan.block_plans[r.block].segments;
            assert(segments@ == s@.segments[r.block as int]);
            match segments[k] {
                SegmentInvoke::SharedCore { .. } => BytecodeRowKind::SharedCoreStep,
                SegmentInvoke::RerollLoop { .. } => BytecodeRowKind::RerollDescriptor,
            }
        },
        None => BytecodeRowKind::Outer,
    }
}

/// Append the rows of region `g`.
fn push_region_rows(
    plan: &AdaptiveSplitPlan,
    cuts: &Vec<Row>,
    g: usize,
    rows: &mut Vec<Row>,
    blocks: Ghost<Seq<IRBlockView>>,
    s: Ghost<SplitView>,
)
    requires
        planned(*plan, blocks@, s@),
        forall|i: int| 0 <= i < cuts@.len() ==> row_in(#[trigger] cuts@[i], blocks@),
    ensures
        final(rows)@ == old(rows)@ + rows_of_region(s@, cuts@, g as int, cuts@.len() as int),
{
    let ghost before = rows@;
    let mut i: usize = 0;
    assert(before + rows_of_region(s@, cuts@, g as int, 0) =~= before);
    while i < cuts.len()
        invariant
            i <= cuts.len(),
            planned(*plan, blocks@, s@),
            forall|k: int| 0 <= k < cuts@.len() ==> row_in(#[trigger] cuts@[k], blocks@),
            rows@ == before + rows_of_region(s@, cuts@, g as int, i as int),
        decreases cuts.len() - i,
    {
        assert(row_in(cuts@[i as int], blocks@));
        if find_region(plan, cuts[i], blocks, s) == g {
            rows.push(cuts[i]);
            assert(rows@ =~= before + rows_of_region(s@, cuts@, g as int, i + 1));
        }
        i += 1;
    }
}

/// The rows of a program, and its regions with their rows.
fn build_appended_program<P>(
    blocks: &IRBlocks<P>,
    plan: &AdaptiveSplitPlan,
    s: Ghost<SplitView>,
) -> (r: (Vec<Row>, Vec<AppendedRegionMeta>))
    requires
        planned(*plan, blocks@.blocks, s@),
        split_rows(s@, blocks@.blocks).len() <= u32::MAX,
    ensures
        r.0@ == split_rows(s@, blocks@.blocks),
        region_views(r.1@) == split_regions(s@, blocks@.blocks),
{
    let ghost bv = blocks@.blocks;
    let cuts = collect_cuts(blocks, plan, s);
    let n: usize = blocks.blocks.len();
    let mut rows: Vec<Row> = Vec::new();
    let mut b: usize = 0;
    while b < n
        invariant
            b <= n,
            rows@ == outer_rows(b as nat),
        decreases n - b,
    {
        rows.push(Row { block: b, start: 0, entry: true });
        assert(rows@ =~= outer_rows((b + 1) as nat));
        b += 1;
    }
    let mut metas: Vec<AppendedRegionMeta> = Vec::new();
    let regions = &plan.layout.regions;
    proof {
        assert(bv.len() == n);
        assert(region_views(regions@) == s@.regions);
        assert(regions@.len() == s@.regions.len());
        assert(rows@ =~= outer_rows(n as nat) + region_rows(s@, cuts@, 0));
        assert forall|b: int| 0 <= b < bv.len() implies (#[trigger] bv[b]).stmts.len()
            <= usize::MAX by {
            assert(bv[b].var_space() <= u32::MAX);
        }
        assert forall|i: int| 0 <= i < cuts@.len() implies row_in(#[trigger] cuts@[i], bv) by {
            lemma_all_cuts(s@, bv, bv.len() as int, i);
        }
    }
    let mut g: usize = 0;
    while g < regions.len()
        invariant
            g <= regions.len(),
            bv == blocks@.blocks,
            n == bv.len(),
            planned(*plan, bv, s@),
            split_rows(s@, bv).len() <= u32::MAX,
            cuts@ == all_cuts(s@, bv, n as int),
            forall|i: int| 0 <= i < cuts@.len() ==> row_in(#[trigger] cuts@[i], bv),
            region_views(regions@) == s@.regions,
            rows@ == outer_rows(n as nat) + region_rows(s@, cuts@, g as int),
            metas@.len() == g,
            forall|k: int| 0 <= k < g ==> (#[trigger] metas@[k])@ == split_regions(s@, bv)[k],
        decreases regions.len() - g,
    {
        proof {
            assert(regions@.len() == s@.regions.len());
            lemma_region_rows_grow(s@, cuts@, g as int, s@.regions.len() as int + 1);
            lemma_region_rows_grow(s@, cuts@, g + 1, s@.regions.len() as int + 1);
            assert(s@.regions[g as int] == regions@[g as int]@);
        }
        let pc_start: u32 = rows.len() as u32;
        let ghost before = rows@;
        push_region_rows(plan, &cuts, g, &mut rows, Ghost(bv), s);
        assert(rows@ =~= outer_rows(n as nat) + region_rows(s@, cuts@, g + 1));
        let pc_end: u32 = rows.len() as u32;
        let meta = AppendedRegionMeta { pc_start, pc_end, kind: regions[g].kind.clone() };
        assert(meta@ == split_regions(s@, bv)[g as int]);
        metas.push(meta);
        g += 1;
    }
    push_region_rows(plan, &cuts, g, &mut rows, Ghost(bv), s);
    assert(rows@ =~= split_rows(s@, bv));
    assert(region_views(metas@) =~= split_regions(s@, bv));
    (rows, metas)
}

// ---------------------------------------------------------------------------
// Virtualisation
// ---------------------------------------------------------------------------

/// The rows of a module with regions.
pub open spec fn adaptive_rows(blocks: Seq<IRBlockView>, cfg: VirtualizeConfig) -> Seq<Row> {
    let merged = merged_blocks(blocks);
    split_rows(split_view(merged, cfg.adaptive_split), merged)
}

/// The blocks of a module with regions: its pieces.
pub open spec fn adaptive_pieces(blocks: Seq<IRBlockView>, cfg: VirtualizeConfig) -> Seq<
    IRBlockView,
> {
    pieces(merged_blocks(blocks), adaptive_rows(blocks, cfg))
}

/// Whether a module with regions can be cut: its blocks are well scoped, and its
/// rows can be counted.
pub open spec fn can_be_cut(blocks: Seq<IRBlockView>, cfg: VirtualizeConfig) -> bool {
    &&& adaptive_rows(blocks, cfg).len() <= u32::MAX
    &&& forall|b: int| 0 <= b < blocks.len() ==> scoped(#[trigger] merged_blocks(blocks)[b])
}

/// What virtualisation of a module with regions works with.
pub open spec fn adaptive_plan<H: IrHashAlgorithm>(
    blocks: Seq<IRBlockView>,
    types: Seq<IrTypeView>,
    cfg: VirtualizeConfig,
) -> IrPlan<H> {
    plan_of(
        adaptive_pieces(blocks, cfg),
        types,
        cfg.bytecode_storage,
        cfg.direct_dispatch,
        None::<CommitmentConfig<H>>,
    )
}

/// Whether `r` is the virtualisation with regions of the module `blocks`.
pub open spec fn adaptively_virtualizes<P: Clone + Default, H: IrHashAlgorithm>(
    blocks: IRBlocks<P>,
    p: IrPlan<H>,
    cfg: VirtualizeConfig,
    r: VirtOutput<IRBlocks<P>>,
) -> bool {
    let merged = merged_blocks(blocks@.blocks);
    let s = split_view(merged, cfg.adaptive_split);
    &&& emits(blocks, p, None, cfg.storage_access, r)
    &&& r.bytecode matches Some(table) && adaptive_bytecode(p, s, merged, table)
    &&& r.n_appended_regions == s.regions.len()
}

/// Whether `table` is the bytecode table of a plan with regions: each row names
/// the handler of its piece and the values lifted out of it.
pub open spec fn adaptive_bytecode<H>(
    p: IrPlan<H>,
    s: SplitView,
    merged: Seq<IRBlockView>,
    table: VirtBytecode,
) -> bool {
    &&& table.n_handlers == p.keys.len()
    &&& table.outer_block_count == merged.len()
    &&& table@.handler_schemas == p.keys.map_values(|k: IRBlockView| ir_schema(k))
    &&& table@.regions == split_regions(s, merged)
    &&& table@.entries.len() == p.blocks.len()
    &&& forall|i: int|
        0 <= i < p.blocks.len() ==> #[trigger] table@.entries[i] == (EntryView {
            handler_idx: plan_rows(p)[i],
            consts: ir_immediates(p.blocks[i]).consts,
            targets: ir_immediates(p.blocks[i]).targets,
            row_kind: row_kind(s, split_rows(s, merged)[i]),
        })
}

/// Emit the module of the pieces of `merged`, the blocks that the module
/// `blocks` is run as: one handler for each piece that differs, and a row for
/// each.
fn emit_adaptive_module<P: Clone + Default, H: IrHashAlgorithm>(
    blocks: &IRBlocks<P>,
    merged: &IRBlocks<P>,
    rows: &Vec<Row>,
    types: &mut TypeTable,
    cfg: &VirtualizeConfig,
) -> (r: VirtOutput<IRBlocks<P>>)
    requires
        rows_in(rows@, merged@.blocks),
        plan_ready(
            blocks@,
            plan_of(
                pieces(merged@.blocks, rows@),
                old(types)@,
                cfg.bytecode_storage,
                cfg.direct_dispatch,
                None::<CommitmentConfig<H>>,
            ),
            None,
        ),
    ensures
        ({
            let p = plan_of(
                pieces(merged@.blocks, rows@),
                old(types)@,
                cfg.bytecode_storage,
                cfg.direct_dispatch,
                None::<CommitmentConfig<H>>,
            );
            &&& virtualizes(*blocks, p, None, cfg.storage_access, r)
            &&& final(types)@ == handlers(
                p.frame,
                p.keys,
                p.check,
                p.types,
                p.keys.len() as int,
            ).types
        }),
{
    let cut = cut_blocks(merged, rows);
    let none: Option<&CommitmentConfig<H>> = None;
    virtualize_ir_outer(blocks, &cut, types, cfg, none)
}

/// The table with its rows told apart.
fn label_rows<H>(
    table: VirtBytecode,
    outer: usize,
    regions: Vec<AppendedRegionMeta>,
    rows: &Vec<Row>,
    plan: &AdaptiveSplitPlan,
    p: Ghost<IrPlan<H>>,
    blocks: Ghost<Seq<IRBlockView>>,
    s: Ghost<SplitView>,
) -> (r: VirtBytecode)
    requires
        bytecode_of(p@, table),
        planned(*plan, blocks@, s@),
        outer == blocks@.len(),
        rows@ == split_rows(s@, blocks@),
        rows_in(rows@, blocks@),
        p@.blocks.len() == rows@.len(),
        region_views(regions@) == split_regions(s@, blocks@),
    ensures
        adaptive_bytecode(p@, s@, blocks@, r),
{
    let mut entries: Vec<BytecodeEntry> = Vec::new();
    let mut i: usize = 0;
    assert(entry_views(table.entries@).len() == table.entries@.len());
    while i < table.entries.len()
        invariant
            i <= table.entries.len(),
            bytecode_of(p@, table),
            planned(*plan, blocks@, s@),
            rows@ == split_rows(s@, blocks@),
            rows_in(rows@, blocks@),
            p@.blocks.len() == rows@.len(),
            table.entries@.len() == rows@.len(),
            entries@.len() == i,
            forall|k: int|
                0 <= k < i ==> (#[trigger] entries@[k])@ == (EntryView {
                    row_kind: row_kind(s@, rows@[k]),
                    ..table@.entries[k]
                }),
        decreases table.entries.len() - i,
    {
        assert(row_in(rows@[i as int], blocks@));
        let e = &table.entries[i];
        assert(table@.entries[i as int] == e@);
        let consts = e.consts.clone();
        let targets = e.targets.clone();
        assert(consts@ =~= e.consts@);
        assert(targets@ =~= e.targets@);
        let entry = BytecodeEntry {
            handler_idx: e.handler_idx,
            consts,
            targets,
            row_kind: find_kind(plan, rows[i], blocks, s),
        };
        entries.push(entry);
        i += 1;
    }
    let r = VirtBytecode {
        n_handlers: table.n_handlers,
        handler_schemas: table.handler_schemas,
        entries,
        outer_block_count: outer,
        regions,
    };
    proof {
        assert forall|k: int| 0 <= k < p@.blocks.len() implies #[trigger] r@.entries[k] == (
        EntryView {
            handler_idx: plan_rows(p@)[k],
            consts: ir_immediates(p@.blocks[k]).consts,
            targets: ir_immediates(p@.blocks[k]).targets,
            row_kind: row_kind(s@, split_rows(s@, blocks@)[k]),
        }) by {
            assert(r@.entries[k] == entries@[k]@);
            assert(table@.entries[k].handler_idx == plan_rows(p@)[k]);
        }
    }
    r
}

/// Virtualise a typed module with regions.
pub(crate) fn virtualize_ir_adaptive<P: Clone + Default, H: IrHashAlgorithm>(
    blocks: &IRBlocks<P>,
    merged: &IRBlocks<P>,
    types: &mut TypeTable,
    cfg: &VirtualizeConfig,
    split_plan: &AdaptiveSplitPlan,
) -> (r: VirtOutput<IRBlocks<P>>)
    requires
        merged@.blocks == merged_blocks(blocks@.blocks),
        can_be_cut(blocks@.blocks, *cfg),
        plan_ready(blocks@, adaptive_plan::<H>(blocks@.blocks, old(types)@, *cfg), None),
        split_plan.plans(merged@.blocks, split_view(merged@.blocks, cfg.adaptive_split)),
        calls_valid(split_view(merged@.blocks, cfg.adaptive_split)),
        regions_in(merged@.blocks, split_view(merged@.blocks, cfg.adaptive_split)),
        split_view(merged@.blocks, cfg.adaptive_split).segments.len() == merged@.blocks.len(),
    ensures
        ({
            let p = adaptive_plan::<H>(blocks@.blocks, old(types)@, *cfg);
            &&& adaptively_virtualizes(*blocks, p, *cfg, r)
            &&& final(types)@ == handlers(
                p.frame,
                p.keys,
                p.check,
                p.types,
                p.keys.len() as int,
            ).types
        }),
{
    let ghost bv = merged@.blocks;
    let ghost s = split_view(bv, cfg.adaptive_split);
    let ghost p = adaptive_plan::<H>(blocks@.blocks, types@, *cfg);
    proof {
        assert forall|b: int| 0 <= b < bv.len() implies (#[trigger] bv[b]).var_space()
            <= u32::MAX by {
            assert(scoped(merged_blocks(blocks@.blocks)[b]));
        }
        lemma_split_rows(s, bv);
    }
    let (rows, regions) = build_appended_program(merged, split_plan, Ghost(s));
    let out = emit_adaptive_module::<P, H>(blocks, merged, &rows, types, cfg);
    let VirtOutput {
        blocks: out_blocks,
        storage_access,
        bytecode,
        n_handlers,
        blocks_in,
        n_appended_regions: _,
        key_params,
    } = out;
    let n_regions: usize = split_plan.layout.regions.len();
    assert(region_views(split_plan.layout.regions@).len() == n_regions);
    let table: VirtBytecode = match bytecode {
        Some(table) => label_rows::<H>(
            table,
            merged.blocks.len(),
            regions,
            &rows,
            split_plan,
            Ghost(p),
            Ghost(bv),
            Ghost(s),
        ),
        None => VirtBytecode::new(),
    };
    VirtOutput {
        blocks: out_blocks,
        storage_access,
        bytecode: Some(table),
        n_handlers,
        blocks_in,
        n_appended_regions: n_regions,
        key_params,
    }
}

} // verus!
