//! Planning of the adaptive split: statement sequences shared across blocks,
//! and repetitions within a block.

use vstd::prelude::*;

use crate::ir::{node_kinds, IRBlockView, IRBlocks, IRStmt, StmtView};
use crate::virt::adaptive_cfg::AdaptiveSplitConfig;
use crate::virt::bytecode::{
    region_views, AppendedRegionKind, OperandMode, RegionKindView, RegionMetaView, TripCount,
};
use crate::virt::canon::{canon_ir_stmt, canon_stmt, canon_stmts, stmt_views};
use crate::virt::cfg_hints::{collect_hinted_loops, hinted_loops, HintedLoop};
use crate::virt::layout::{
    AdaptiveSplitPlan, BlockCompositePlan, LayoutView, RerollLoopSpec, SegmentInvoke,
    SharedCoreSpec, StmtRange, UnifiedBytecodeLayout,
};

verus! {

// ---------------------------------------------------------------------------
// The state of planning
// ---------------------------------------------------------------------------

/// What has been planned so far.
#[verifier::ext_equal]
pub struct SplitView {
    /// The regions that each block calls.
    pub segments: Seq<Seq<SegmentInvoke>>,
    /// The occurrences of each shared sequence.
    pub cores: Seq<Seq<(usize, StmtRange)>>,
    pub loops: Seq<RerollLoopSpec>,
    pub regions: Seq<RegionMetaView>,
    /// The number of rows.
    pub rows: nat,
    /// The statements of each block that belong to a region.
    pub used: Seq<Seq<StmtRange>>,
}

impl SplitView {
    /// With a region of `n` rows.
    pub open spec fn with_region(self, kind: RegionKindView, n: nat) -> SplitView {
        SplitView {
            regions: self.regions.push(
                RegionMetaView {
                    pc_start: self.rows as u32,
                    pc_end: (self.rows + n) as u32,
                    kind,
                },
            ),
            rows: self.rows + n,
            ..self
        }
    }

    /// With a region called by `block` that stands for `range`.
    pub open spec fn with_call(self, block: int, range: StmtRange, call: SegmentInvoke) -> SplitView {
        if 0 <= block < self.used.len() && block < self.segments.len() {
            SplitView {
                used: self.used.update(block, self.used[block].push(range)),
                segments: self.segments.update(block, self.segments[block].push(call)),
                ..self
            }
        } else {
            self
        }
    }
}

/// The state of planning.
struct SplitState {
    segments: Vec<Vec<SegmentInvoke>>,
    cores: Vec<SharedCoreSpec>,
    loops: Vec<RerollLoopSpec>,
    layout: UnifiedBytecodeLayout,
    used: Vec<Vec<StmtRange>>,
}

/// The occurrences of a list of shared sequences.
pub open spec fn core_views(s: Seq<SharedCoreSpec>) -> Seq<Seq<(usize, StmtRange)>> {
    s.map_values(|c: SharedCoreSpec| c.members@)
}

impl View for SplitState {
    type V = SplitView;

    closed spec fn view(&self) -> SplitView {
        SplitView {
            segments: self.segments@.map_values(|v: Vec<SegmentInvoke>| v@),
            cores: core_views(self.cores@),
            loops: self.loops@,
            regions: region_views(self.layout.regions@),
            rows: self.layout.total_rows as nat,
            used: self.used@.map_values(|v: Vec<StmtRange>| v@),
        }
    }
}

/// Whether a range meets one of a list.
pub open spec fn range_overlaps(ranges: Seq<StmtRange>, r: StmtRange) -> bool {
    exists|i: int|
        0 <= i < ranges.len() && (#[trigger] ranges[i]).start < r.end && r.start < ranges[i].end
}

/// Whether a range meets one of a list.
fn overlaps(ranges: &Vec<StmtRange>, range: &StmtRange) -> (r: bool)
    ensures
        r == range_overlaps(ranges@, *range),
{
    let mut i: usize = 0;
    while i < ranges.len()
        invariant
            i <= ranges.len(),
            forall|k: int|
                0 <= k < i ==> !((#[trigger] ranges@[k]).start < range.end && range.start
                    < ranges@[k].end),
        decreases ranges.len() - i,
    {
        if ranges[i].start < range.end && range.start < ranges[i].end {
            assert(ranges@[i as int].start < range.end);
            return true;
        }
        i += 1;
    }
    false
}

/// Whether `count` uses of a sequence of `len` statements save more than
/// `cost`.
pub open spec fn worthwhile(count: nat, len: nat, cost: nat) -> bool {
    count * len > cost
}

/// How many statements `count` uses of a sequence of `len` statements stand for.
fn gain(count: usize, len: usize) -> (r: u128)
    ensures
        r == count * len,
{
    assert(count * len <= 0xffff_ffff_ffff_ffff * 0xffff_ffff_ffff_ffff) by (nonlinear_arith)
        requires
            count <= 0xffff_ffff_ffff_ffff,
            len <= 0xffff_ffff_ffff_ffff,
    ;
    assert(0xffff_ffff_ffff_ffffint * 0xffff_ffff_ffff_ffff <= u128::MAX) by (nonlinear_arith);
    (count as u128) * (len as u128)
}

impl SplitState {
    /// Nothing planned for `n` blocks.
    fn new(n: usize) -> (r: Self)
        ensures
            r@ == (SplitView {
                segments: Seq::new(n as nat, |i: int| Seq::empty()),
                cores: Seq::empty(),
                loops: Seq::empty(),
                regions: Seq::empty(),
                rows: n as nat,
                used: Seq::new(n as nat, |i: int| Seq::empty()),
            }),
            r.layout.outer_block_count == n,
    {
        let mut segments: Vec<Vec<SegmentInvoke>> = Vec::new();
        let mut used: Vec<Vec<StmtRange>> = Vec::new();
        let mut i: usize = 0;
        while i < n
            invariant
                i <= n,
                segments@.len() == i,
                used@.len() == i,
                forall|k: int| 0 <= k < i ==> (#[trigger] segments@[k])@ == Seq::<SegmentInvoke>::empty(),
                forall|k: int| 0 <= k < i ==> (#[trigger] used@[k])@ == Seq::<StmtRange>::empty(),
            decreases n - i,
        {
            segments.push(Vec::new());
            used.push(Vec::new());
            i += 1;
        }
        let r = SplitState {
            segments,
            cores: Vec::new(),
            loops: Vec::new(),
            layout: UnifiedBytecodeLayout::outer(n),
            used,
        };
        proof {
            assert(r@.segments =~= Seq::new(n as nat, |k: int| Seq::empty()));
            assert(r@.used =~= Seq::new(n as nat, |k: int| Seq::empty()));
            assert(r@.cores =~= Seq::empty());
        }
        r
    }

    /// Record that `block` calls a region that stands for `range`.
    fn add_call(&mut self, block: usize, range: StmtRange, call: SegmentInvoke)
        requires
            block < old(self)@.segments.len(),
            old(self)@.used.len() == old(self)@.segments.len(),
        ensures
            final(self)@ == old(self)@.with_call(block as int, range, call),
            final(self).layout == old(self).layout,
    {
        let ghost before = self@;
        assert(self.used@.len() == before.used.len());
        assert(self.segments@.len() == before.segments.len());
        self.used[block].push(range);
        self.segments[block].push(call);
        proof {
            assert(self@.used =~= before.used.update(
                block as int,
                before.used[block as int].push(range),
            ));
            assert(self@.segments =~= before.segments.update(
                block as int,
                before.segments[block as int].push(call),
            ));
        }
    }

    /// Append a region.
    fn add_region(&mut self, kind: AppendedRegionKind, rows: usize)
        requires
            old(self)@.rows + rows <= u32::MAX,
        ensures
            final(self)@ == old(self)@.with_region(kind@, rows as nat),
            final(self).layout.outer_block_count == old(self).layout.outer_block_count,
            old(self).layout@.wf() ==> final(self).layout@.wf(),
    {
        self.layout.push_region(kind, rows);
    }
}

// ---------------------------------------------------------------------------
// Windows
// ---------------------------------------------------------------------------

/// A run of statements of a block.
#[derive(Clone, Copy, PartialEq, Eq, Debug, Structural)]
pub struct WindowOccurrence {
    pub block_id: usize,
    pub range: StmtRange,
}

/// The windows of a block of `n` statements that start at `start`, shortest
/// first.
pub open spec fn windows_at(n: nat, block_id: usize, min_len: nat, start: nat) -> Seq<
    WindowOccurrence,
> {
    Seq::new(
        (n - (start + min_len) + 1) as nat,
        |k: int|
            WindowOccurrence {
                block_id,
                range: StmtRange { start: start as usize, end: (start + min_len + k) as usize },
            },
    )
}

/// The windows that start before `starts`.
pub open spec fn windows_before(n: nat, block_id: usize, min_len: nat, starts: nat) -> Seq<
    WindowOccurrence,
>
    decreases starts,
{
    if starts == 0 {
        Seq::empty()
    } else {
        windows_before(n, block_id, min_len, (starts - 1) as nat) + windows_at(
            n,
            block_id,
            min_len,
            (starts - 1) as nat,
        )
    }
}

/// Every window of a block of `n` statements.
pub open spec fn block_windows(n: nat, block_id: usize, min_len: nat) -> Seq<WindowOccurrence> {
    if n < min_len {
        Seq::empty()
    } else {
        windows_before(n, block_id, min_len, (n - min_len + 1) as nat)
    }
}

/// Every window of the first `n` blocks.
pub open spec fn all_windows(blocks: Seq<IRBlockView>, min_len: nat, n: int) -> Seq<
    WindowOccurrence,
>
    decreases n,
{
    if n <= 0 {
        Seq::empty()
    } else {
        all_windows(blocks, min_len, n - 1) + block_windows(
            blocks[n - 1].stmts.len(),
            (n - 1) as usize,
            min_len,
        )
    }
}

/// The canonical form of a window.
pub open spec fn window_key(blocks: Seq<IRBlockView>, w: WindowOccurrence) -> Seq<StmtView> {
    canon_stmts(
        blocks[w.block_id as int].stmts.subrange(w.range.start as int, w.range.end as int),
    )
}

/// Whether a window lies within its block.
pub open spec fn window_in(blocks: Seq<IRBlockView>, w: WindowOccurrence) -> bool {
    &&& w.block_id < blocks.len()
    &&& w.range.start <= w.range.end
    &&& w.range.end <= blocks[w.block_id as int].stmts.len()
}

/// The place of the first group whose windows have the given form.
pub open spec fn find_group(
    blocks: Seq<IRBlockView>,
    groups: Seq<Seq<WindowOccurrence>>,
    key: Seq<StmtView>,
) -> int
    decreases groups.len(),
{
    if groups.len() == 0 {
        0
    } else if window_key(blocks, groups[0][0]) == key {
        0
    } else {
        1 + find_group(blocks, groups.drop_first(), key)
    }
}

/// The groups with another window, put with those of its form.
pub open spec fn with_window(
    blocks: Seq<IRBlockView>,
    groups: Seq<Seq<WindowOccurrence>>,
    w: WindowOccurrence,
) -> Seq<Seq<WindowOccurrence>> {
    let i = find_group(blocks, groups, window_key(blocks, w));
    if i < groups.len() {
        groups.update(i, groups[i].push(w))
    } else {
        groups.push(seq![w])
    }
}

/// Windows grouped by canonical form, in order of first occurrence.
pub open spec fn grouped(blocks: Seq<IRBlockView>, ws: Seq<WindowOccurrence>) -> Seq<
    Seq<WindowOccurrence>,
>
    decreases ws.len(),
{
    if ws.len() == 0 {
        Seq::empty()
    } else {
        with_window(blocks, grouped(blocks, ws.drop_last()), ws.last())
    }
}

/// The number of statements of a window.
pub open spec fn window_len(w: WindowOccurrence) -> nat {
    w.range.size()
}

/// Whether a group is worth a region of its own.
pub open spec fn is_candidate(cfg: AdaptiveSplitConfig, g: Seq<WindowOccurrence>) -> bool {
    &&& g.len() >= cfg.min_reuse_count
    &&& worthwhile(g.len(), window_len(g[0]), cfg.sub_interp_entry_cost as nat)
}

/// How many statements a group stands for.
pub open spec fn group_gain(g: Seq<WindowOccurrence>) -> nat {
    g.len() * window_len(g[0])
}

/// A list of groups by gain, largest first, with another group behind those of
/// at least its gain.
pub open spec fn with_candidate(
    s: Seq<Seq<WindowOccurrence>>,
    g: Seq<WindowOccurrence>,
) -> Seq<Seq<WindowOccurrence>>
    decreases s.len(),
{
    if s.len() == 0 {
        seq![g]
    } else if group_gain(s[0]) < group_gain(g) {
        seq![g] + s
    } else {
        seq![s[0]] + with_candidate(s.drop_first(), g)
    }
}

/// The groups of a list that are worth a region, by gain.
pub open spec fn candidates(cfg: AdaptiveSplitConfig, groups: Seq<Seq<WindowOccurrence>>) -> Seq<
    Seq<WindowOccurrence>,
>
    decreases groups.len(),
{
    if groups.len() == 0 {
        Seq::empty()
    } else {
        let rest = candidates(cfg, groups.drop_last());
        if is_candidate(cfg, groups.last()) {
            with_candidate(rest, groups.last())
        } else {
            rest
        }
    }
}

// ---------------------------------------------------------------------------
// Shared sequences
// ---------------------------------------------------------------------------

/// The windows of a list that meet no region.
pub open spec fn free_windows(used: Seq<Seq<StmtRange>>, ws: Seq<WindowOccurrence>) -> Seq<
    (usize, StmtRange),
>
    decreases ws.len(),
{
    if ws.len() == 0 {
        Seq::empty()
    } else {
        let rest = free_windows(used, ws.drop_last());
        if range_overlaps(used[ws.last().block_id as int], ws.last().range) {
            rest
        } else {
            rest.push((ws.last().block_id, ws.last().range))
        }
    }
}

/// The calls of the first `n` occurrences of the shared sequence `core`.
pub open spec fn with_core_calls(
    s: SplitView,
    members: Seq<(usize, StmtRange)>,
    core: usize,
    n: int,
) -> SplitView
    decreases n,
{
    if n <= 0 {
        s
    } else {
        with_core_calls(s, members, core, n - 1).with_call(
            members[n - 1].0 as int,
            members[n - 1].1,
            SegmentInvoke::SharedCore { region_index: core, entry_offset: 0 },
        )
    }
}

/// The occurrences of a shared sequence as a region lists them.
pub open spec fn core_members(members: Seq<(usize, StmtRange)>) -> Seq<(usize, u32, u32)> {
    members.map_values(|m: (usize, StmtRange)| (m.0, m.1.start as u32, m.1.end as u32))
}

/// The plan after a group of windows: a region for those that are free, if
/// there are enough of them and room for another region.
pub open spec fn take_group(
    cfg: AdaptiveSplitConfig,
    s: SplitView,
    g: Seq<WindowOccurrence>,
) -> SplitView {
    let members = free_windows(s.used, g);
    if s.cores.len() >= cfg.max_appended_regions || members.len() < cfg.min_reuse_count {
        s
    } else {
        let with = s.with_region(
            RegionKindView::SharedCore { members: core_members(members) },
            window_len(g[0]),
        );
        with_core_calls(
            SplitView { cores: s.cores.push(members), ..with },
            members,
            s.cores.len() as usize,
            members.len() as int,
        )
    }
}

/// The plan after the groups of a list.
pub open spec fn take_groups(
    cfg: AdaptiveSplitConfig,
    s: SplitView,
    gs: Seq<Seq<WindowOccurrence>>,
) -> SplitView
    decreases gs.len(),
{
    if gs.len() == 0 {
        s
    } else {
        take_group(cfg, take_groups(cfg, s, gs.drop_last()), gs.last())
    }
}

// ---------------------------------------------------------------------------
// Repetitions
// ---------------------------------------------------------------------------

/// The plan with a loop of `iterations` rounds over the first `body_len`
/// statements of `block`.
pub open spec fn with_loop(
    s: SplitView,
    block: usize,
    body_len: usize,
    iterations: nat,
    trip: TripCount,
) -> SplitView {
    let body = StmtRange { start: 0, end: body_len };
    let with = s.with_region(
        RegionKindView::RerollLoop {
            owner_block: block,
            body_handler_idx: 0,
            trip_count: trip,
            operand_mode: OperandMode::RegisterFile,
        },
        1,
    );
    SplitView {
        loops: s.loops.push(
            RerollLoopSpec {
                owner_block: block,
                body_range: body,
                trip_count: trip,
                operand_mode: OperandMode::RegisterFile,
                covered_range: StmtRange { start: 0, end: (body_len * iterations) as usize },
            },
        ),
        ..with
    }.with_call(
        block as int,
        body,
        SegmentInvoke::RerollLoop { region_index: s.loops.len() as usize },
    )
}

/// Whether a hinted loop over a body of `body_len` statements gets a region.
pub open spec fn hint_taken(
    cfg: AdaptiveSplitConfig,
    s: SplitView,
    h: HintedLoop,
    body_len: nat,
) -> bool {
    &&& s.loops.len() < cfg.max_appended_regions
    &&& body_len > 0
    &&& !range_overlaps(
        s.used[h.body as int],
        StmtRange { start: 0, end: body_len as usize },
    )
    &&& h.trip_count matches TripCount::Fixed(k) && k >= cfg.min_reroll_iterations && worthwhile(
        k as nat,
        body_len,
        cfg.sub_interp_entry_cost as nat,
    )
}

/// The plan after a hinted loop.
pub open spec fn take_hint(
    cfg: AdaptiveSplitConfig,
    s: SplitView,
    blocks: Seq<IRBlockView>,
    h: HintedLoop,
) -> SplitView {
    let body_len = blocks[h.body as int].stmts.len();
    if hint_taken(cfg, s, h, body_len) {
        match h.trip_count {
            TripCount::Fixed(k) => with_loop(
                s,
                h.body,
                body_len as usize,
                k as nat,
                h.trip_count,
            ),
            _ => s,
        }
    } else {
        s
    }
}

/// The plan after the hinted loops of a list.
pub open spec fn take_hints(
    cfg: AdaptiveSplitConfig,
    s: SplitView,
    blocks: Seq<IRBlockView>,
    hs: Seq<HintedLoop>,
) -> SplitView
    decreases hs.len(),
{
    if hs.len() == 0 {
        s
    } else {
        take_hint(cfg, take_hints(cfg, s, blocks, hs.drop_last()), blocks, hs.last())
    }
}

/// Whether statement `i` and the one `len` places behind it are the same, up to
/// constants.
pub open spec fn recurs(stmts: Seq<StmtView>, len: nat, i: int) -> bool {
    canon_stmt(stmts[i]) == canon_stmt(stmts[i + len])
}

/// Whether a block is `stmts.len() / len` times the same sequence of `len`
/// statements, up to constants.
pub open spec fn repeats(stmts: Seq<StmtView>, len: nat) -> bool {
    &&& len > 0
    &&& stmts.len() % len == 0
    &&& forall|i: int| 0 <= i && i + len < stmts.len() ==> #[trigger] recurs(stmts, len, i)
}

/// Whether `len` is the length of a body that a block may be folded to.
pub open spec fn body_fits(cfg: AdaptiveSplitConfig, stmts: Seq<StmtView>, len: nat) -> bool {
    &&& cfg.min_reroll_body_len <= len
    &&& len * cfg.min_reroll_iterations <= stmts.len()
    &&& repeats(stmts, len)
}

/// The longest body not above `len` that a block may be folded to.
pub open spec fn reroll_body(cfg: AdaptiveSplitConfig, stmts: Seq<StmtView>, len: nat) -> Option<nat>
    decreases len,
{
    if len == 0 {
        None
    } else if body_fits(cfg, stmts, len) {
        Some(len)
    } else {
        reroll_body(cfg, stmts, (len - 1) as nat)
    }
}

/// The plan after a search for repetitions in a block.
pub open spec fn take_block(
    cfg: AdaptiveSplitConfig,
    s: SplitView,
    blocks: Seq<IRBlockView>,
    b: int,
) -> SplitView {
    let stmts = blocks[b].stmts;
    match reroll_body(cfg, stmts, stmts.len()) {
        Some(len) => {
            let n = stmts.len() / len;
            if s.loops.len() < cfg.max_appended_regions && !range_overlaps(
                s.used[b],
                StmtRange { start: 0, end: len as usize },
            ) && worthwhile(n, len, cfg.sub_interp_entry_cost as nat) {
                with_loop(s, b as usize, len as usize, n, TripCount::Fixed(n as u32))
            } else {
                s
            }
        },
        None => s,
    }
}

/// The plan after a search for repetitions in the first `n` blocks.
pub open spec fn take_blocks(
    cfg: AdaptiveSplitConfig,
    s: SplitView,
    blocks: Seq<IRBlockView>,
    n: int,
) -> SplitView
    decreases n,
{
    if n <= 0 {
        s
    } else {
        take_block(cfg, take_blocks(cfg, s, blocks, n - 1), blocks, n - 1)
    }
}

/// Every region of a module: shared sequences first, then hinted loops, then
/// repetitions.
pub open spec fn split_view(blocks: Seq<IRBlockView>, cfg: AdaptiveSplitConfig) -> SplitView {
    let start = SplitView {
        segments: Seq::new(blocks.len(), |i: int| Seq::empty()),
        cores: Seq::empty(),
        loops: Seq::empty(),
        regions: Seq::empty(),
        rows: blocks.len(),
        used: Seq::new(blocks.len(), |i: int| Seq::empty()),
    };
    let shared = if cfg.cross_block {
        take_groups(
            cfg,
            start,
            candidates(
                cfg,
                grouped(
                    blocks,
                    all_windows(blocks, cfg.min_sequence_len as nat, blocks.len() as int),
                ),
            ),
        )
    } else {
        start
    };
    if cfg.loop_reroll {
        let hinted = if cfg.prefer_reentry_hints {
            take_hints(cfg, shared, blocks, hinted_loops(blocks))
        } else {
            shared
        };
        take_blocks(cfg, hinted, blocks, blocks.len() as int)
    } else {
        shared
    }
}

// ---------------------------------------------------------------------------
// What is left of a block
// ---------------------------------------------------------------------------

/// The statements of `block` that a call stands for.
pub open spec fn segment_range(s: SplitView, block: int, call: SegmentInvoke) -> StmtRange {
    match call {
        SegmentInvoke::SharedCore { region_index, .. } => member_range(
            s.cores[region_index as int],
            block,
        ),
        SegmentInvoke::RerollLoop { region_index } => if s.loops[region_index as int].owner_block
            == block {
            s.loops[region_index as int].covered_range
        } else {
            StmtRange { start: 0, end: 0 }
        },
    }
}

/// The first occurrence of a shared sequence in a block.
pub open spec fn member_range(members: Seq<(usize, StmtRange)>, block: int) -> StmtRange
    decreases members.len(),
{
    if members.len() == 0 {
        StmtRange { start: 0, end: 0 }
    } else if members[0].0 == block {
        members[0].1
    } else {
        member_range(members.drop_first(), block)
    }
}

/// Whether a call of `block` stands for statement `i`.
pub open spec fn covered(s: SplitView, block: int, i: int) -> bool {
    exists|k: int|
        0 <= k < s.segments[block].len() && ({
            let r = segment_range(s, block, #[trigger] s.segments[block][k]);
            r.start <= i < r.end
        })
}

/// The first statement from `i` on that no call stands for.
pub open spec fn first_uncovered(s: SplitView, block: int, i: int, n: int) -> int
    decreases n - i,
{
    if i >= n {
        n
    } else if !covered(s, block, i) {
        i
    } else {
        first_uncovered(s, block, i + 1, n)
    }
}

/// One past the last statement before `n` that no call stands for.
pub open spec fn last_uncovered(s: SplitView, block: int, n: int) -> int
    decreases n,
{
    if n <= 0 {
        0
    } else if !covered(s, block, n - 1) {
        n
    } else {
        last_uncovered(s, block, n - 1)
    }
}

/// The statements of a block before and behind its calls.
pub open spec fn block_rest(s: SplitView, block: int, n: nat) -> (StmtRange, StmtRange) {
    let end = StmtRange { start: n as usize, end: n as usize };
    if s.segments[block].len() == 0 {
        (StmtRange { start: 0, end: n as usize }, end)
    } else {
        let first = first_uncovered(s, block, 0, n as int);
        let last = last_uncovered(s, block, n as int);
        if first >= last {
            (StmtRange { start: 0, end: 0 }, end)
        } else {
            (
                StmtRange { start: 0, end: first as usize },
                StmtRange { start: last as usize, end: n as usize },
            )
        }
    }
}

impl AdaptiveSplitPlan {
    /// Whether this plan has the given regions for a module.
    pub open spec fn plans(&self, blocks: Seq<IRBlockView>, s: SplitView) -> bool {
        &&& self.layout@ == (LayoutView {
            outer_block_count: blocks.len() as usize,
            regions: s.regions,
            total_rows: s.rows as usize,
        })
        &&& core_views(self.shared_cores@) == s.cores
        &&& self.reroll_loops@ == s.loops
        &&& self.block_plans@.len() == blocks.len()
        &&& forall|b: int|
            0 <= b < blocks.len() ==> {
                let p = #[trigger] self.block_plans@[b];
                &&& p.segments@ == s.segments[b]
                &&& (p.prologue, p.epilogue) == block_rest(s, b, blocks[b].stmts.len())
            }
    }

    /// Whether this plan has no regions and no blocks.
    pub open spec fn is_nothing(&self) -> bool {
        &&& self.block_plans@.len() == 0
        &&& self.shared_cores@.len() == 0
        &&& self.reroll_loops@.len() == 0
        &&& self.layout@ == (LayoutView {
            outer_block_count: 0,
            regions: Seq::empty(),
            total_rows: 0,
        })
    }
}

// ---------------------------------------------------------------------------
// Search for shared sequences
// ---------------------------------------------------------------------------

/// The statements of every block with their constants replaced.
fn canonical_stmts<P>(blocks: &IRBlocks<P>) -> (r: Vec<Vec<IRStmt>>)
    ensures
        r@.len() == blocks@.blocks.len(),
        forall|b: int|
            0 <= b < r@.len() ==> stmt_views((#[trigger] r@[b])@) == canon_stmts(
                blocks@.blocks[b].stmts,
            ),
{
    let ghost bv = blocks@.blocks;
    let mut out: Vec<Vec<IRStmt>> = Vec::new();
    let mut b: usize = 0;
    while b < blocks.blocks.len()
        invariant
            b <= blocks.blocks.len(),
            bv == blocks@.blocks,
            out@.len() == b,
            forall|k: int|
                0 <= k < b ==> stmt_views((#[trigger] out@[k])@) == canon_stmts(bv[k].stmts),
        decreases blocks.blocks.len() - b,
    {
        let block = &blocks.blocks[b];
        let ghost sv = block@.stmts;
        let mut row: Vec<IRStmt> = Vec::new();
        let mut unused: Vec<crate::common::Constant> = Vec::new();
        let mut i: usize = 0;
        while i < block.stmts.len()
            invariant
                i <= block.stmts.len(),
                sv == node_kinds(block.stmts@),
                row@.len() == i,
                forall|k: int| 0 <= k < i ==> (#[trigger] row@[k])@ == canon_stmt(sv[k]),
            decreases block.stmts.len() - i,
        {
            assert(sv[i as int] == block.stmts@[i as int].kind@);
            row.push(canon_ir_stmt(&block.stmts[i].kind, &mut unused));
            i += 1;
        }
        proof {
            assert(bv[b as int] == block@);
            assert(stmt_views(row@) =~= canon_stmts(sv));
        }
        out.push(row);
        b += 1;
    }
    out
}

/// Append every window of a block of `n` statements.
fn index_windows(n: usize, block_id: usize, min_len: usize, out: &mut Vec<WindowOccurrence>)
    ensures
        final(out)@ == old(out)@ + block_windows(n as nat, block_id, min_len as nat),
{
    let ghost before = out@;
    if n < min_len {
        assert(before + Seq::<WindowOccurrence>::empty() =~= before);
        return ;
    }
    let last: usize = n - min_len;
    let mut start: usize = 0;
    let mut more: bool = true;
    assert(before + windows_before(n as nat, block_id, min_len as nat, 0) =~= before);
    while more
        invariant
            n >= min_len,
            last == n - min_len,
            start <= last,
            more ==> out@ == before + windows_before(
                n as nat,
                block_id,
                min_len as nat,
                start as nat,
            ),
            !more ==> out@ == before + windows_before(
                n as nat,
                block_id,
                min_len as nat,
                (last + 1) as nat,
            ),
        decreases (if more { last - start + 1 } else { 0 }),
    {
        let ghost row = out@;
        let ghost want = windows_at(n as nat, block_id, min_len as nat, start as nat);
        let count: usize = n - (start + min_len);
        let mut k: usize = 0;
        let mut inner: bool = true;
        assert(row + want.take(0) =~= row);
        while inner
            invariant
                start + min_len <= n,
                count == n - (start + min_len),
                k <= count,
                want == windows_at(n as nat, block_id, min_len as nat, start as nat),
                inner ==> out@ == row + want.take(k as int),
                !inner ==> out@ == row + want,
            decreases (if inner { count - k + 1 } else { 0 }),
        {
            let w = WindowOccurrence {
                block_id,
                range: StmtRange { start, end: start + min_len + k },
            };
            assert(w == want[k as int]);
            assert(want.take(k + 1) =~= want.take(k as int).push(w));
            out.push(w);
            assert(out@ =~= row + want.take(k + 1));
            if k == count {
                inner = false;
                assert(want.take(k + 1) =~= want);
            } else {
                k += 1;
            }
        }
        assert(out@ =~= before + windows_before(
            n as nat,
            block_id,
            min_len as nat,
            (start + 1) as nat,
        ));
        if start == last {
            more = false;
        } else {
            start += 1;
        }
    }
}

/// The windows of a block lie within it.
proof fn lemma_windows_in(blocks: Seq<IRBlockView>, min_len: nat, n: int, i: int)
    requires
        0 <= n <= blocks.len(),
        blocks.len() <= usize::MAX,
        forall|b: int| 0 <= b < blocks.len() ==> (#[trigger] blocks[b]).stmts.len() <= u32::MAX,
        0 <= i < all_windows(blocks, min_len, n).len(),
    ensures
        window_in(blocks, all_windows(blocks, min_len, n)[i]),
        window_len(all_windows(blocks, min_len, n)[i]) >= min_len,
    decreases n,
{
    if n > 0 {
        let before = all_windows(blocks, min_len, n - 1);
        if i < before.len() {
            lemma_windows_in(blocks, min_len, n - 1, i);
        } else {
            let m = blocks[n - 1].stmts.len();
            lemma_block_windows_in(
                m,
                (n - 1) as usize,
                min_len,
                (m - min_len + 1) as nat,
                i - before.len(),
            );
        }
    }
}

proof fn lemma_block_windows_in(n: nat, block_id: usize, min_len: nat, starts: nat, i: int)
    requires
        min_len <= n <= u32::MAX,
        starts <= n - min_len + 1,
        0 <= i < windows_before(n, block_id, min_len, starts).len(),
    ensures
        ({
            let w = windows_before(n, block_id, min_len, starts)[i];
            &&& w.block_id == block_id
            &&& w.range.start <= w.range.end
            &&& w.range.end <= n
            &&& window_len(w) >= min_len
        }),
    decreases starts,
{
    if starts > 0 {
        let before = windows_before(n, block_id, min_len, (starts - 1) as nat);
        if i < before.len() {
            lemma_block_windows_in(n, block_id, min_len, (starts - 1) as nat, i);
        }
    }
}

/// Whether every group has windows, all within their blocks.
spec fn groups_in(blocks: Seq<IRBlockView>, gs: Seq<Seq<WindowOccurrence>>) -> bool {
    &&& forall|g: int| 0 <= g < gs.len() ==> (#[trigger] gs[g]).len() > 0
    &&& forall|g: int, i: int|
        0 <= g < gs.len() && 0 <= i < gs[g].len() ==> window_in(blocks, #[trigger] gs[g][i])
}

/// Whether two windows have the same canonical form.
fn windows_same(
    canon: &Vec<Vec<IRStmt>>,
    a: &WindowOccurrence,
    b: &WindowOccurrence,
    blocks: Ghost<Seq<IRBlockView>>,
) -> (r: bool)
    requires
        canon@.len() == blocks@.len(),
        forall|k: int|
            0 <= k < canon@.len() ==> stmt_views((#[trigger] canon@[k])@) == canon_stmts(
                blocks@[k].stmts,
            ),
        window_in(blocks@, *a),
        window_in(blocks@, *b),
    ensures
        r == (window_key(blocks@, *a) == window_key(blocks@, *b)),
{
    let ghost ka = window_key(blocks@, *a);
    let ghost kb = window_key(blocks@, *b);
    let ghost sa = stmt_views(canon@[a.block_id as int]@);
    let ghost sb = stmt_views(canon@[b.block_id as int]@);
    proof {
        assert(sa == canon_stmts(blocks@[a.block_id as int].stmts));
        assert(sb == canon_stmts(blocks@[b.block_id as int].stmts));
        assert(sa.len() == canon@[a.block_id as int]@.len());
        assert(sb.len() == canon@[b.block_id as int]@.len());
    }
    let n: usize = a.range.end - a.range.start;
    if n != b.range.end - b.range.start {
        assert(ka.len() != kb.len());
        return false;
    }
    let mut i: usize = 0;
    while i < n
        invariant
            i <= n,
            n == a.range.end - a.range.start,
            n == b.range.end - b.range.start,
            a.range.start <= a.range.end,
            b.range.start <= b.range.end,
            a.block_id < canon@.len(),
            b.block_id < canon@.len(),
            sa == stmt_views(canon@[a.block_id as int]@),
            sb == stmt_views(canon@[b.block_id as int]@),
            a.range.end <= canon@[a.block_id as int]@.len(),
            b.range.end <= canon@[b.block_id as int]@.len(),
            ka == window_key(blocks@, *a),
            kb == window_key(blocks@, *b),
            ka.len() == n,
            kb.len() == n,
            forall|k: int| 0 <= k < n ==> #[trigger] ka[k] == sa[a.range.start + k],
            forall|k: int| 0 <= k < n ==> #[trigger] kb[k] == sb[b.range.start + k],
            forall|k: int| 0 <= k < i ==> #[trigger] ka[k] == kb[k],
        decreases n - i,
    {
        let x = &canon[a.block_id][a.range.start + i];
        let y = &canon[b.block_id][b.range.start + i];
        assert(ka[i as int] == x@);
        assert(kb[i as int] == y@);
        if !x.same(y) {
            return false;
        }
        i += 1;
    }
    assert(ka =~= kb);
    true
}

/// Groups that do not have the form are passed over.
proof fn lemma_find_group(
    blocks: Seq<IRBlockView>,
    gs: Seq<Seq<WindowOccurrence>>,
    key: Seq<StmtView>,
    i: int,
)
    requires
        0 <= i <= gs.len(),
        forall|k: int| 0 <= k < i ==> window_key(blocks, (#[trigger] gs[k])[0]) != key,
        i < gs.len() ==> window_key(blocks, gs[i][0]) == key,
    ensures
        find_group(blocks, gs, key) == i,
    decreases i,
{
    if i > 0 {
        assert(window_key(blocks, gs[0][0]) != key);
        let rest = gs.drop_first();
        assert forall|k: int| 0 <= k < i - 1 implies window_key(blocks, (#[trigger] rest[k])[0])
            != key by {
            assert(rest[k] == gs[k + 1]);
        }
        lemma_find_group(blocks, rest, key, i - 1);
    }
}

/// The windows of a list of groups.
spec fn group_views(s: Seq<Vec<WindowOccurrence>>) -> Seq<Seq<WindowOccurrence>> {
    s.map_values(|g: Vec<WindowOccurrence>| g@)
}

/// Group windows by canonical form.
fn group_windows(
    canon: &Vec<Vec<IRStmt>>,
    windows: &Vec<WindowOccurrence>,
    blocks: Ghost<Seq<IRBlockView>>,
) -> (r: Vec<Vec<WindowOccurrence>>)
    requires
        canon@.len() == blocks@.len(),
        forall|k: int|
            0 <= k < canon@.len() ==> stmt_views((#[trigger] canon@[k])@) == canon_stmts(
                blocks@[k].stmts,
            ),
        forall|i: int| 0 <= i < windows@.len() ==> window_in(blocks@, #[trigger] windows@[i]),
    ensures
        group_views(r@) == grouped(blocks@, windows@),
        groups_in(blocks@, group_views(r@)),
{
    let ghost bv = blocks@;
    let mut groups: Vec<Vec<WindowOccurrence>> = Vec::new();
    let mut i: usize = 0;
    proof {
        assert(windows@.take(0) =~= Seq::empty());
        assert(group_views(groups@) =~= Seq::empty());
    }
    while i < windows.len()
        invariant
            i <= windows.len(),
            bv == blocks@,
            canon@.len() == bv.len(),
            forall|k: int|
                0 <= k < canon@.len() ==> stmt_views((#[trigger] canon@[k])@) == canon_stmts(
                    bv[k].stmts,
                ),
            forall|k: int| 0 <= k < windows@.len() ==> window_in(bv, #[trigger] windows@[k]),
            group_views(groups@) == grouped(bv, windows@.take(i as int)),
            groups_in(bv, group_views(groups@)),
        decreases windows.len() - i,
    {
        let w = windows[i];
        let ghost gv = group_views(groups@);
        let ghost key = window_key(bv, w);
        proof {
            assert(window_in(bv, windows@[i as int]));
            assert(windows@.take(i + 1).drop_last() =~= windows@.take(i as int));
            assert(windows@.take(i + 1).last() == w);
        }
        let mut g: usize = 0;
        let mut found: bool = false;
        while g < groups.len() && !found
            invariant
                g <= groups.len(),
                bv == blocks@,
                gv == group_views(groups@),
                groups_in(bv, gv),
                canon@.len() == bv.len(),
                forall|k: int|
                    0 <= k < canon@.len() ==> stmt_views((#[trigger] canon@[k])@) == canon_stmts(
                        bv[k].stmts,
                    ),
                window_in(bv, w),
                key == window_key(bv, w),
                forall|k: int| 0 <= k < g ==> window_key(bv, (#[trigger] gv[k])[0]) != key,
                found ==> g < groups@.len() && window_key(bv, gv[g as int][0]) == key,
            decreases groups.len() - g, (if found { 0int } else { 1int }),
        {
            assert(gv[g as int] == groups@[g as int]@);
            assert(gv[g as int].len() > 0);
            assert(window_in(bv, gv[g as int][0]));
            if windows_same(canon, &groups[g][0], &w, blocks) {
                found = true;
            } else {
                g += 1;
            }
        }
        proof {
            lemma_find_group(bv, gv, key, g as int);
        }
        if found {
            groups[g].push(w);
            assert(group_views(groups@) =~= gv.update(g as int, gv[g as int].push(w)));
        } else {
            let mut fresh: Vec<WindowOccurrence> = Vec::new();
            fresh.push(w);
            assert(fresh@ =~= seq![w]);
            groups.push(fresh);
            assert(group_views(groups@) =~= gv.push(seq![w]));
        }
        proof {
            let nv = group_views(groups@);
            assert forall|x: int, y: int| 0 <= x < nv.len() && 0 <= y < nv[x].len() implies
                window_in(bv, #[trigger] nv[x][y]) by {
                if x < gv.len() && y < gv[x].len() {
                    assert(nv[x][y] == gv[x][y]);
                }
            }
        }
        i += 1;
    }
    assert(windows@.take(i as int) =~= windows@);
    groups
}

/// The number of statements of a window.
fn occurrence_len(w: &WindowOccurrence) -> (r: usize)
    ensures
        r == window_len(*w),
{
    if w.range.start < w.range.end {
        w.range.end - w.range.start
    } else {
        0
    }
}

/// Where `with_candidate` puts a group.
proof fn lemma_with_candidate(
    s: Seq<Seq<WindowOccurrence>>,
    g: Seq<WindowOccurrence>,
    i: int,
)
    requires
        0 <= i <= s.len(),
        forall|k: int| 0 <= k < i ==> group_gain(#[trigger] s[k]) >= group_gain(g),
        i < s.len() ==> group_gain(s[i]) < group_gain(g),
    ensures
        with_candidate(s, g) == s.insert(i, g),
    decreases i,
{
    if i == 0 {
        if s.len() > 0 {
            assert(s.insert(0, g) =~= seq![g] + s);
        } else {
            assert(s.insert(0, g) =~= seq![g]);
        }
    } else {
        assert(group_gain(s[0]) >= group_gain(g));
        let rest = s.drop_first();
        assert forall|k: int| 0 <= k < i - 1 implies group_gain(#[trigger] rest[k]) >= group_gain(
            g,
        ) by {
            assert(rest[k] == s[k + 1]);
        }
        lemma_with_candidate(rest, g, i - 1);
        assert(seq![s[0]] + rest.insert(i - 1, g) =~= s.insert(i, g));
    }
}

/// The groups that are worth a region, by gain.
fn pick_candidates(
    cfg: &AdaptiveSplitConfig,
    groups: Vec<Vec<WindowOccurrence>>,
    blocks: Ghost<Seq<IRBlockView>>,
) -> (r: Vec<Vec<WindowOccurrence>>)
    requires
        groups_in(blocks@, group_views(groups@)),
    ensures
        group_views(r@) == candidates(*cfg, group_views(groups@)),
        groups_in(blocks@, group_views(r@)),
{
    let ghost gv = group_views(groups@);
    let ghost bv = blocks@;
    let mut out: Vec<Vec<WindowOccurrence>> = Vec::new();
    let mut i: usize = 0;
    proof {
        assert(gv.take(0) =~= Seq::empty());
        assert(group_views(out@) =~= Seq::empty());
    }
    while i < groups.len()
        invariant
            i <= groups.len(),
            gv == group_views(groups@),
            bv == blocks@,
            groups_in(bv, gv),
            group_views(out@) == candidates(*cfg, gv.take(i as int)),
            groups_in(bv, group_views(out@)),
        decreases groups.len() - i,
    {
        let g = &groups[i];
        let ghost ov = group_views(out@);
        proof {
            assert(gv[i as int] == g@);
            assert(gv[i as int].len() > 0);
            assert(gv.take(i + 1).drop_last() =~= gv.take(i as int));
            assert(gv.take(i + 1).last() == g@);
        }
        let worth: u128 = gain(g.len(), occurrence_len(&g[0]));
        if g.len() >= cfg.min_reuse_count && worth > cfg.sub_interp_entry_cost as u128 {
            let mut k: usize = 0;
            let mut stop: bool = false;
            while k < out.len() && !stop
                invariant
                    k <= out.len(),
                    ov == group_views(out@),
                    groups_in(bv, ov),
                    worth == group_gain(g@),
                    forall|x: int| 0 <= x < k ==> group_gain(#[trigger] ov[x]) >= group_gain(g@),
                    stop ==> k < out@.len() && group_gain(ov[k as int]) < group_gain(g@),
                decreases out.len() - k, (if stop { 0int } else { 1int }),
            {
                assert(ov[k as int] == out@[k as int]@);
                assert(ov[k as int].len() > 0);
                if gain(out[k].len(), occurrence_len(&out[k][0])) < worth {
                    stop = true;
                } else {
                    k += 1;
                }
            }
            proof {
                lemma_with_candidate(ov, g@, k as int);
            }
            let copy = g.clone();
            assert(copy@ =~= g@);
            out.insert(k, copy);
            proof {
                let nv = group_views(out@);
                assert(nv =~= ov.insert(k as int, g@));
                assert forall|x: int| 0 <= x < nv.len() implies (#[trigger] nv[x]).len() > 0 by {
                    if x < k {
                        assert(nv[x] == ov[x]);
                    } else if x > k {
                        assert(nv[x] == ov[x - 1]);
                    }
                }
                assert forall|x: int, y: int| 0 <= x < nv.len() && 0 <= y < nv[x].len() implies
                    window_in(bv, #[trigger] nv[x][y]) by {
                    if x < k {
                        assert(nv[x][y] == ov[x][y]);
                    } else if x > k {
                        assert(nv[x][y] == ov[x - 1][y]);
                    } else {
                        assert(nv[x][y] == gv[i as int][y]);
                    }
                }
            }
        }
        i += 1;
    }
    assert(gv.take(i as int) =~= gv);
    out
}

// ---------------------------------------------------------------------------
// Planning
// ---------------------------------------------------------------------------

/// Whether the state has one entry for each of `n` blocks.
spec fn sized(s: SplitView, n: nat) -> bool {
    s.segments.len() == n && s.used.len() == n
}

/// Whether every call names a region of its kind.
pub open spec fn calls_valid(s: SplitView) -> bool {
    forall|b: int, k: int|
        0 <= b < s.segments.len() && 0 <= k < s.segments[b].len() ==> call_valid(
            s,
            #[trigger] s.segments[b][k],
        )
}

/// Whether a call names a region of its kind.
pub open spec fn call_valid(s: SplitView, call: SegmentInvoke) -> bool {
    match call {
        SegmentInvoke::SharedCore { region_index, .. } => region_index < s.cores.len(),
        SegmentInvoke::RerollLoop { region_index } => region_index < s.loops.len(),
    }
}

proof fn lemma_call_valid(s: SplitView, block: int, range: StmtRange, call: SegmentInvoke)
    requires
        calls_valid(s),
        call_valid(s, call),
    ensures
        calls_valid(s.with_call(block, range, call)),
{
    let t = s.with_call(block, range, call);
    assert forall|b: int, k: int|
        0 <= b < t.segments.len() && 0 <= k < t.segments[b].len() implies call_valid(
        t,
        #[trigger] t.segments[b][k],
    ) by {
        if 0 <= block < s.used.len() && block < s.segments.len() && b == block {
            if k < s.segments[b].len() {
                assert(call_valid(s, s.segments[b][k]));
            }
        } else {
            assert(call_valid(s, s.segments[b][k]));
        }
    }
}

proof fn lemma_core_calls_valid(
    s: SplitView,
    members: Seq<(usize, StmtRange)>,
    core: usize,
    n: int,
)
    requires
        0 <= n <= members.len(),
        calls_valid(s),
        core < s.cores.len(),
    ensures
        calls_valid(with_core_calls(s, members, core, n)),
    decreases n,
{
    if n > 0 {
        lemma_core_calls_valid(s, members, core, n - 1);
        lemma_core_calls(s, members, core, n - 1);
        lemma_call_valid(
            with_core_calls(s, members, core, n - 1),
            members[n - 1].0 as int,
            members[n - 1].1,
            SegmentInvoke::SharedCore { region_index: core, entry_offset: 0 },
        );
    }
}

proof fn lemma_more_regions_valid(s: SplitView, t: SplitView)
    requires
        calls_valid(s),
        t.segments == s.segments,
        s.cores.len() <= t.cores.len(),
        s.loops.len() <= t.loops.len(),
    ensures
        calls_valid(t),
{
    assert forall|b: int, k: int|
        0 <= b < t.segments.len() && 0 <= k < t.segments[b].len() implies call_valid(
        t,
        #[trigger] t.segments[b][k],
    ) by {
        assert(call_valid(s, s.segments[b][k]));
    }
}

proof fn lemma_core_calls(s: SplitView, members: Seq<(usize, StmtRange)>, core: usize, n: int)
    requires
        0 <= n <= members.len(),
    ensures
        with_core_calls(s, members, core, n).segments.len() == s.segments.len(),
        with_core_calls(s, members, core, n).used.len() == s.used.len(),
        with_core_calls(s, members, core, n).rows == s.rows,
        with_core_calls(s, members, core, n).regions == s.regions,
        with_core_calls(s, members, core, n).cores == s.cores,
        with_core_calls(s, members, core, n).loops == s.loops,
    decreases n,
{
    if n > 0 {
        lemma_core_calls(s, members, core, n - 1);
    }
}

proof fn lemma_take_group(cfg: AdaptiveSplitConfig, s: SplitView, g: Seq<WindowOccurrence>)
    ensures
        take_group(cfg, s, g).segments.len() == s.segments.len(),
        take_group(cfg, s, g).used.len() == s.used.len(),
        s.rows <= take_group(cfg, s, g).rows,
{
    let members = free_windows(s.used, g);
    let with = s.with_region(
        RegionKindView::SharedCore { members: core_members(members) },
        window_len(g[0]),
    );
    lemma_core_calls(
        SplitView { cores: s.cores.push(members), ..with },
        members,
        s.cores.len() as usize,
        members.len() as int,
    );
}

proof fn lemma_take_groups(
    cfg: AdaptiveSplitConfig,
    s: SplitView,
    gs: Seq<Seq<WindowOccurrence>>,
    i: int,
)
    requires
        0 <= i <= gs.len(),
    ensures
        take_groups(cfg, s, gs.take(i)).segments.len() == s.segments.len(),
        take_groups(cfg, s, gs.take(i)).used.len() == s.used.len(),
        take_groups(cfg, s, gs.take(i)).rows <= take_groups(cfg, s, gs).rows,
    decreases gs.len() - i,
{
    lemma_take_groups_size(cfg, s, gs.take(i));
    if i < gs.len() {
        lemma_take_groups(cfg, s, gs, i + 1);
        assert(gs.take(i + 1).drop_last() =~= gs.take(i));
        lemma_take_group(cfg, take_groups(cfg, s, gs.take(i)), gs[i]);
    } else {
        assert(gs.take(i) =~= gs);
    }
}

proof fn lemma_take_groups_size(
    cfg: AdaptiveSplitConfig,
    s: SplitView,
    gs: Seq<Seq<WindowOccurrence>>,
)
    ensures
        take_groups(cfg, s, gs).segments.len() == s.segments.len(),
        take_groups(cfg, s, gs).used.len() == s.used.len(),
        s.rows <= take_groups(cfg, s, gs).rows,
    decreases gs.len(),
{
    if gs.len() > 0 {
        lemma_take_groups_size(cfg, s, gs.drop_last());
        lemma_take_group(cfg, take_groups(cfg, s, gs.drop_last()), gs.last());
    }
}

/// The windows of a group that meet no region.
fn free_members(used: &Vec<Vec<StmtRange>>, g: &Vec<WindowOccurrence>) -> (r: Vec<
    (usize, StmtRange),
>)
    requires
        forall|i: int| 0 <= i < g@.len() ==> (#[trigger] g@[i]).block_id < used@.len(),
    ensures
        r@ == free_windows(used@.map_values(|v: Vec<StmtRange>| v@), g@),
        forall|i: int| 0 <= i < r@.len() ==> (#[trigger] r@[i]).0 < used@.len(),
{
    let ghost uv = used@.map_values(|v: Vec<StmtRange>| v@);
    let mut out: Vec<(usize, StmtRange)> = Vec::new();
    let mut i: usize = 0;
    assert(g@.take(0) =~= Seq::empty());
    while i < g.len()
        invariant
            i <= g.len(),
            uv == used@.map_values(|v: Vec<StmtRange>| v@),
            forall|k: int| 0 <= k < g@.len() ==> (#[trigger] g@[k]).block_id < used@.len(),
            out@ == free_windows(uv, g@.take(i as int)),
            forall|k: int| 0 <= k < out@.len() ==> (#[trigger] out@[k]).0 < used@.len(),
        decreases g.len() - i,
    {
        let w = g[i];
        proof {
            assert(g@[i as int].block_id < used@.len());
            assert(g@.take(i + 1).drop_last() =~= g@.take(i as int));
            assert(g@.take(i + 1).last() == w);
            assert(uv[w.block_id as int] == used@[w.block_id as int]@);
        }
        if !overlaps(&used[w.block_id], &w.range) {
            out.push((w.block_id, w.range));
        }
        i += 1;
    }
    assert(g@.take(i as int) =~= g@);
    out
}

/// The occurrences of a shared sequence as a region lists them.
fn list_members(members: &Vec<(usize, StmtRange)>) -> (r: Vec<(usize, u32, u32)>)
    ensures
        r@ == core_members(members@),
{
    let mut out: Vec<(usize, u32, u32)> = Vec::new();
    let mut i: usize = 0;
    while i < members.len()
        invariant
            i <= members.len(),
            out@.len() == i,
            forall|k: int| 0 <= k < i ==> #[trigger] out@[k] == core_members(members@)[k],
        decreases members.len() - i,
    {
        let m = members[i];
        out.push((m.0, m.1.start as u32, m.1.end as u32));
        i += 1;
    }
    assert(out@ =~= core_members(members@));
    out
}

/// A copy of the occurrences of a shared sequence.
fn copy_members(members: &Vec<(usize, StmtRange)>) -> (r: Vec<(usize, StmtRange)>)
    ensures
        r@ == members@,
{
    let mut out: Vec<(usize, StmtRange)> = Vec::new();
    let mut i: usize = 0;
    while i < members.len()
        invariant
            i <= members.len(),
            out@.len() == i,
            forall|k: int| 0 <= k < i ==> #[trigger] out@[k] == members@[k],
        decreases members.len() - i,
    {
        out.push((members[i].0, members[i].1));
        i += 1;
    }
    assert(out@ =~= members@);
    out
}

/// Give a group of windows a region if it still pays.
fn plan_group(cfg: &AdaptiveSplitConfig, state: &mut SplitState, g: &Vec<WindowOccurrence>)
    requires
        g@.len() > 0,
        forall|i: int|
            0 <= i < g@.len() ==> (#[trigger] g@[i]).block_id < old(state)@.used.len(),
        old(state)@.segments.len() == old(state)@.used.len(),
        take_group(*cfg, old(state)@, g@).rows <= u32::MAX,
        calls_valid(old(state)@),
    ensures
        final(state)@ == take_group(*cfg, old(state)@, g@),
        calls_valid(final(state)@),
        final(state).layout.outer_block_count == old(state).layout.outer_block_count,
        old(state).layout@.wf() ==> final(state).layout@.wf(),
{
    let ghost s = state@;
    assert(state.used@.len() == s.used.len());
    assert(state.cores@.len() == s.cores.len());
    if state.cores.len() >= cfg.max_appended_regions {
        return ;
    }
    let members = free_members(&state.used, g);
    if members.len() < cfg.min_reuse_count {
        return ;
    }
    let len: usize = occurrence_len(&g[0]);
    let core: usize = state.cores.len();
    let ghost with = s.with_region(
        RegionKindView::SharedCore { members: core_members(members@) },
        len as nat,
    );
    let ghost start = SplitView { cores: s.cores.push(members@), ..with };
    proof {
        lemma_core_calls(start, members@, core, members@.len() as int);
        lemma_more_regions_valid(s, start);
        lemma_core_calls_valid(start, members@, core, members@.len() as int);
    }
    state.add_region(AppendedRegionKind::SharedCore { members: list_members(&members) }, len);
    let copy = copy_members(&members);
    let ghost cores_before = state.cores@;
    state.cores.push(SharedCoreSpec { members: copy });
    proof {
        assert(core_views(state.cores@) =~= core_views(cores_before).push(members@));
        assert(state@ =~= start);
    }
    let mut i: usize = 0;
    while i < members.len()
        invariant
            i <= members.len(),
            state@ == with_core_calls(start, members@, core, i as int),
            start.used.len() == start.segments.len(),
            forall|k: int| 0 <= k < members@.len() ==> (#[trigger] members@[k]).0 < start.used.len(),
            state.layout.outer_block_count == old(state).layout.outer_block_count,
            old(state).layout@.wf() ==> state.layout@.wf(),
        decreases members.len() - i,
    {
        proof {
            lemma_core_calls(start, members@, core, i as int);
            assert(members@[i as int].0 < start.used.len());
        }
        let m = members[i];
        state.add_call(
            m.0,
            m.1,
            SegmentInvoke::SharedCore { region_index: core, entry_offset: 0 },
        );
        i += 1;
    }
}

/// Plan regions for sequences shared across blocks.
fn plan_cross_block<P>(blocks: &IRBlocks<P>, cfg: &AdaptiveSplitConfig, state: &mut SplitState)
    requires
        forall|b: int|
            0 <= b < blocks@.blocks.len() ==> (#[trigger] blocks@.blocks[b]).stmts.len()
                <= u32::MAX,
        sized(old(state)@, blocks@.blocks.len()),
        calls_valid(old(state)@),
        regions_in(blocks@.blocks, old(state)@),
        old(state)@.loops.len() == 0,
        take_groups(
            *cfg,
            old(state)@,
            candidates(
                *cfg,
                grouped(
                    blocks@.blocks,
                    all_windows(
                        blocks@.blocks,
                        cfg.min_sequence_len as nat,
                        blocks@.blocks.len() as int,
                    ),
                ),
            ),
        ).rows <= u32::MAX,
    ensures
        final(state)@ == take_groups(
            *cfg,
            old(state)@,
            candidates(
                *cfg,
                grouped(
                    blocks@.blocks,
                    all_windows(
                        blocks@.blocks,
                        cfg.min_sequence_len as nat,
                        blocks@.blocks.len() as int,
                    ),
                ),
            ),
        ),
        sized(final(state)@, blocks@.blocks.len()),
        calls_valid(final(state)@),
        regions_in(blocks@.blocks, final(state)@),
        final(state).layout.outer_block_count == old(state).layout.outer_block_count,
        old(state).layout@.wf() ==> final(state).layout@.wf(),
{
    let ghost bv = blocks@.blocks;
    let ghost min = cfg.min_sequence_len as nat;
    let mut windows: Vec<WindowOccurrence> = Vec::new();
    let mut b: usize = 0;
    while b < blocks.blocks.len()
        invariant
            b <= blocks.blocks.len(),
            bv == blocks@.blocks,
            min == cfg.min_sequence_len,
            windows@ == all_windows(bv, min, b as int),
        decreases blocks.blocks.len() - b,
    {
        assert(bv[b as int].stmts.len() == blocks.blocks@[b as int].stmts@.len());
        index_windows(blocks.blocks[b].stmts.len(), b, cfg.min_sequence_len, &mut windows);
        b += 1;
    }
    let canon = canonical_stmts(blocks);
    proof {
        assert forall|i: int| 0 <= i < windows@.len() implies window_in(
            bv,
            #[trigger] windows@[i],
        ) by {
            lemma_windows_in(bv, min, bv.len() as int, i);
        }
    }
    let groups = group_windows(&canon, &windows, Ghost(bv));
    let picked = pick_candidates(cfg, groups, Ghost(bv));
    let ghost cv = group_views(picked@);
    let ghost start = state@;
    let mut i: usize = 0;
    assert(cv.take(0) =~= Seq::empty());
    while i < picked.len()
        invariant
            i <= picked.len(),
            cv == group_views(picked@),
            groups_in(bv, cv),
            sized(start, bv.len()),
            take_groups(*cfg, start, cv).rows <= u32::MAX,
            state@ == take_groups(*cfg, start, cv.take(i as int)),
            calls_valid(state@),
            regions_in(bv, state@),
            state@.loops.len() == 0,
            state.layout.outer_block_count == old(state).layout.outer_block_count,
            old(state).layout@.wf() ==> state.layout@.wf(),
        decreases picked.len() - i,
    {
        proof {
            lemma_take_groups(*cfg, start, cv, i as int);
            lemma_take_groups(*cfg, start, cv, i + 1);
            assert(cv.take(i + 1).drop_last() =~= cv.take(i as int));
            assert(cv.take(i + 1).last() == picked@[i as int]@);
            assert(cv[i as int] == picked@[i as int]@);
            assert(cv[i as int].len() > 0);
            assert forall|k: int| 0 <= k < picked@[i as int]@.len() implies (
            #[trigger] picked@[i as int]@[k]).block_id < state@.used.len() by {
                assert(window_in(bv, cv[i as int][k]));
            }
            assert forall|k: int| 0 <= k < cv[i as int].len() implies window_in(
                bv,
                #[trigger] cv[i as int][k],
            ) by {}
            lemma_take_group_in(bv, *cfg, state@, cv[i as int]);
        }
        plan_group(cfg, state, &picked[i]);
        i += 1;
    }
    proof {
        assert(cv.take(i as int) =~= cv);
        lemma_take_groups(*cfg, start, cv, cv.len() as int);
    }
}

/// Give a loop a region.
fn add_loop(
    state: &mut SplitState,
    block: usize,
    body_len: usize,
    iterations: usize,
    trip_count: TripCount,
)
    requires
        block < old(state)@.segments.len(),
        old(state)@.used.len() == old(state)@.segments.len(),
        old(state)@.rows + 1 <= u32::MAX,
        body_len * iterations <= usize::MAX,
        calls_valid(old(state)@),
    ensures
        final(state)@ == with_loop(
            old(state)@,
            block,
            body_len,
            iterations as nat,
            trip_count,
        ),
        calls_valid(final(state)@),
        final(state).layout.outer_block_count == old(state).layout.outer_block_count,
        old(state).layout@.wf() ==> final(state).layout@.wf(),
{
    let region_index: usize = state.loops.len();
    let body = StmtRange { start: 0, end: body_len };
    state.add_region(
        AppendedRegionKind::RerollLoop {
            owner_block: block,
            body_handler_idx: 0,
            trip_count,
            operand_mode: OperandMode::RegisterFile,
        },
        1,
    );
    state.loops.push(
        RerollLoopSpec {
            owner_block: block,
            body_range: body,
            trip_count,
            operand_mode: OperandMode::RegisterFile,
            covered_range: StmtRange { start: 0, end: body_len * iterations },
        },
    );
    proof {
        lemma_more_regions_valid(old(state)@, state@);
        lemma_call_valid(
            state@,
            block as int,
            body,
            SegmentInvoke::RerollLoop { region_index },
        );
    }
    state.add_call(block, body, SegmentInvoke::RerollLoop { region_index });
}

/// Whether the covered statements of every hinted loop can be counted.
pub open spec fn hints_countable(blocks: Seq<IRBlockView>) -> bool {
    forall|i: int|
        0 <= i < hinted_loops(blocks).len() ==> ((#[trigger] hinted_loops(blocks)[i]).trip_count
            matches TripCount::Fixed(k) ==> blocks[hinted_loops(blocks)[i].body as int].stmts.len()
            * k <= usize::MAX)
}

proof fn lemma_take_hint(
    cfg: AdaptiveSplitConfig,
    s: SplitView,
    blocks: Seq<IRBlockView>,
    h: HintedLoop,
)
    ensures
        take_hint(cfg, s, blocks, h).segments.len() == s.segments.len(),
        take_hint(cfg, s, blocks, h).used.len() == s.used.len(),
        s.rows <= take_hint(cfg, s, blocks, h).rows,
{
}

proof fn lemma_take_hints(
    cfg: AdaptiveSplitConfig,
    s: SplitView,
    blocks: Seq<IRBlockView>,
    hs: Seq<HintedLoop>,
    i: int,
)
    requires
        0 <= i <= hs.len(),
    ensures
        take_hints(cfg, s, blocks, hs.take(i)).segments.len() == s.segments.len(),
        take_hints(cfg, s, blocks, hs.take(i)).used.len() == s.used.len(),
        s.rows <= take_hints(cfg, s, blocks, hs.take(i)).rows,
        take_hints(cfg, s, blocks, hs.take(i)).rows <= take_hints(cfg, s, blocks, hs).rows,
    decreases hs.len() - i,
{
    lemma_take_hints_size(cfg, s, blocks, hs.take(i));
    if i < hs.len() {
        lemma_take_hints(cfg, s, blocks, hs, i + 1);
        assert(hs.take(i + 1).drop_last() =~= hs.take(i));
        lemma_take_hint(cfg, take_hints(cfg, s, blocks, hs.take(i)), blocks, hs[i]);
    } else {
        assert(hs.take(i) =~= hs);
    }
}

proof fn lemma_take_hints_size(
    cfg: AdaptiveSplitConfig,
    s: SplitView,
    blocks: Seq<IRBlockView>,
    hs: Seq<HintedLoop>,
)
    ensures
        take_hints(cfg, s, blocks, hs).segments.len() == s.segments.len(),
        take_hints(cfg, s, blocks, hs).used.len() == s.used.len(),
        s.rows <= take_hints(cfg, s, blocks, hs).rows,
    decreases hs.len(),
{
    if hs.len() > 0 {
        lemma_take_hints_size(cfg, s, blocks, hs.drop_last());
        lemma_take_hint(cfg, take_hints(cfg, s, blocks, hs.drop_last()), blocks, hs.last());
    }
}

/// A hinted loop closes at a block of the module.
proof fn lemma_hinted_body(blocks: Seq<IRBlockView>, n: int, i: int)
    requires
        0 <= n <= blocks.len(),
        blocks.len() <= u32::MAX,
        0 <= i < crate::virt::cfg_hints::loops_before(blocks, n).len(),
    ensures
        crate::virt::cfg_hints::loops_before(blocks, n)[i].body < n,
    decreases n,
{
    if n > 0 {
        let before = crate::virt::cfg_hints::loops_before(blocks, n - 1);
        if i < before.len() {
            lemma_hinted_body(blocks, n - 1, i);
        } else {
            lemma_arm_bodies(
                blocks,
                n - 1,
                crate::virt::regs::arms(blocks[n - 1].terminator),
                i - before.len(),
            );
        }
    }
}

proof fn lemma_arm_bodies(
    blocks: Seq<IRBlockView>,
    from: int,
    list: Seq<crate::ir::BranchView>,
    i: int,
)
    requires
        0 <= from < u32::MAX,
        0 <= i < crate::virt::cfg_hints::arms_loops(blocks, from, list).len(),
    ensures
        crate::virt::cfg_hints::arms_loops(blocks, from, list)[i].body == from,
    decreases list.len(),
{
    if list.len() > 0 {
        let before = crate::virt::cfg_hints::arms_loops(blocks, from, list.drop_last());
        if i < before.len() {
            lemma_arm_bodies(blocks, from, list.drop_last(), i);
        }
    }
}

/// Plan regions for hinted loops.
fn plan_cfg_loops_from_hints<P>(
    blocks: &IRBlocks<P>,
    cfg: &AdaptiveSplitConfig,
    state: &mut SplitState,
)
    requires
        blocks@.blocks.len() <= u32::MAX,
        hints_countable(blocks@.blocks),
        sized(old(state)@, blocks@.blocks.len()),
        calls_valid(old(state)@),
        take_hints(*cfg, old(state)@, blocks@.blocks, hinted_loops(blocks@.blocks)).rows
            <= u32::MAX,
    ensures
        final(state)@ == take_hints(
            *cfg,
            old(state)@,
            blocks@.blocks,
            hinted_loops(blocks@.blocks),
        ),
        sized(final(state)@, blocks@.blocks.len()),
        calls_valid(final(state)@),
        final(state).layout.outer_block_count == old(state).layout.outer_block_count,
        old(state).layout@.wf() ==> final(state).layout@.wf(),
{
    let ghost bv = blocks@.blocks;
    let ghost start = state@;
    let hints = collect_hinted_loops(blocks);
    let ghost hv = hints@;
    let mut i: usize = 0;
    assert(hv.take(0) =~= Seq::empty());
    while i < hints.len()
        invariant
            i <= hints.len(),
            bv == blocks@.blocks,
            bv.len() <= u32::MAX,
            hv == hints@,
            hv == hinted_loops(bv),
            hints_countable(bv),
            sized(start, bv.len()),
            take_hints(*cfg, start, bv, hv).rows <= u32::MAX,
            state@ == take_hints(*cfg, start, bv, hv.take(i as int)),
            calls_valid(state@),
            state.layout.outer_block_count == old(state).layout.outer_block_count,
            old(state).layout@.wf() ==> state.layout@.wf(),
        decreases hints.len() - i,
    {
        let h = hints[i];
        let ghost s = state@;
        proof {
            lemma_take_hints(*cfg, start, bv, hv, i as int);
            lemma_take_hints(*cfg, start, bv, hv, i + 1);
            lemma_hinted_body(bv, bv.len() as int, i as int);
            assert(hv.take(i + 1).drop_last() =~= hv.take(i as int));
            assert(hv.take(i + 1).last() == h);
            assert(hinted_loops(bv)[i as int] == h);
            assert(state.used@.len() == s.used.len());
            assert(state.loops@.len() == s.loops.len());
            assert(bv[h.body as int].stmts.len() == blocks.blocks@[h.body as int].stmts@.len());
            assert(s.used[h.body as int] == state.used@[h.body as int]@);
        }
        let body_len: usize = blocks.blocks[h.body].stmts.len();
        let body = StmtRange { start: 0, end: body_len };
        if let TripCount::Fixed(k) = h.trip_count {
            let worth: u128 = gain(k as usize, body_len);
            if state.loops.len() < cfg.max_appended_regions && body_len > 0 && !overlaps(
                &state.used[h.body],
                &body,
            ) && k as usize >= cfg.min_reroll_iterations && worth
                > cfg.sub_interp_entry_cost as u128 {
                proof {
                    assert(hint_taken(*cfg, s, h, body_len as nat));
                    assert(body_len * (k as usize) == body_len * k) by (nonlinear_arith);
                }
                add_loop(state, h.body, body_len, k as usize, h.trip_count);
            }
        }
        i += 1;
    }
    proof {
        assert(hv.take(i as int) =~= hv);
        lemma_take_hints(*cfg, start, bv, hv, hv.len() as int);
    }
}

/// Bodies that do not fit are passed over.
proof fn lemma_reroll_skip(cfg: AdaptiveSplitConfig, stmts: Seq<StmtView>, lo: nat, hi: nat)
    requires
        lo <= hi,
        forall|l: nat| lo < l <= hi ==> !#[trigger] body_fits(cfg, stmts, l),
    ensures
        reroll_body(cfg, stmts, hi) == reroll_body(cfg, stmts, lo),
    decreases hi,
{
    if lo < hi {
        assert(!body_fits(cfg, stmts, hi));
        lemma_reroll_skip(cfg, stmts, lo, (hi - 1) as nat);
    }
}

/// The body that is found fits.
proof fn lemma_reroll_fits(cfg: AdaptiveSplitConfig, stmts: Seq<StmtView>, hi: nat)
    ensures
        match reroll_body(cfg, stmts, hi) {
            Some(l) => 0 < l <= hi && body_fits(cfg, stmts, l),
            None => true,
        },
    decreases hi,
{
    if hi > 0 {
        lemma_reroll_fits(cfg, stmts, (hi - 1) as nat);
    }
}

/// Whether a block is a repetition of its first `len` statements.
fn block_repeats(canon: &Vec<IRStmt>, len: usize, stmts: Ghost<Seq<StmtView>>) -> (r: bool)
    requires
        len > 0,
        stmt_views(canon@) == canon_stmts(stmts@),
    ensures
        r == repeats(stmts@, len as nat),
{
    let ghost sv = stmts@;
    let ghost cv = stmt_views(canon@);
    let n: usize = canon.len();
    assert(cv.len() == sv.len());
    if n % len != 0 {
        return false;
    }
    if n < len {
        return true;
    }
    let mut i: usize = 0;
    while i < n - len
        invariant
            n == canon@.len(),
            sv == stmts@,
            len <= n,
            0 < len,
            i <= n - len,
            cv == stmt_views(canon@),
            cv == canon_stmts(sv),
            cv.len() == sv.len(),
            forall|k: int| 0 <= k < i ==> #[trigger] recurs(sv, len as nat, k),
        decreases n - len - i,
    {
        proof {
            assert(cv[i as int] == canon@[i as int]@);
            assert(cv[i + len] == canon@[i + len]@);
            assert(cv[i as int] == canon_stmt(sv[i as int]));
            assert(cv[i + len] == canon_stmt(sv[i + len]));
        }
        if !canon[i].same(&canon[i + len]) {
            assert(!recurs(sv, len as nat, i as int));
            return false;
        }
        i += 1;
    }
    true
}

/// The longest body that a block may be folded to.
fn find_reroll_body(
    canon: &Vec<IRStmt>,
    cfg: &AdaptiveSplitConfig,
    stmts: Ghost<Seq<StmtView>>,
) -> (r: Option<usize>)
    requires
        stmt_views(canon@) == canon_stmts(stmts@),
        cfg.min_reroll_iterations > 0,
        cfg.min_reroll_body_len > 0,
    ensures
        match r {
            Some(l) => reroll_body(*cfg, stmts@, stmts@.len()) == Some(l as nat),
            None => reroll_body(*cfg, stmts@, stmts@.len()) is None,
        },
{
    let ghost sv = stmts@;
    let n: usize = canon.len();
    assert(stmt_views(canon@).len() == sv.len());
    let mut len: usize = n / cfg.min_reroll_iterations;
    let ghost iters = cfg.min_reroll_iterations as int;
    proof {
        assert forall|l: nat| len < l <= sv.len() implies !#[trigger] body_fits(*cfg, sv, l) by {
            assert(l * iters > n) by (nonlinear_arith)
                requires
                    iters > 0,
                    l > n as int / iters,
            ;
        }
        assert(len <= n) by (nonlinear_arith)
            requires
                len == n as int / iters,
                iters > 0,
        ;
        lemma_reroll_skip(*cfg, sv, len as nat, sv.len());
        assert(len * iters <= n) by (nonlinear_arith)
            requires
                len == n as int / iters,
                iters > 0,
        ;
    }
    while len >= cfg.min_reroll_body_len
        invariant
            sv == stmts@,
            n == sv.len(),
            n == canon@.len(),
            stmt_views(canon@) == canon_stmts(sv),
            iters == cfg.min_reroll_iterations,
            iters > 0,
            cfg.min_reroll_body_len > 0,
            len * iters <= n,
            reroll_body(*cfg, sv, sv.len()) == reroll_body(*cfg, sv, len as nat),
        decreases len,
    {
        if block_repeats(canon, len, Ghost(sv)) {
            assert(body_fits(*cfg, sv, len as nat));
            assert(reroll_body(*cfg, sv, len as nat) == Some(len as nat));
            return Some(len);
        }
        assert((len - 1) * iters <= n) by (nonlinear_arith)
            requires
                len * iters <= n,
                iters > 0,
        ;
        len -= 1;
    }
    proof {
        assert forall|l: nat| 0 < l <= len implies !#[trigger] body_fits(*cfg, sv, l) by {}
        lemma_reroll_skip(*cfg, sv, 0, len as nat);
    }
    None
}

proof fn lemma_take_blocks(
    cfg: AdaptiveSplitConfig,
    s: SplitView,
    blocks: Seq<IRBlockView>,
    i: int,
    n: int,
)
    requires
        0 <= i <= n,
    ensures
        take_blocks(cfg, s, blocks, i).segments.len() == s.segments.len(),
        take_blocks(cfg, s, blocks, i).used.len() == s.used.len(),
        s.rows <= take_blocks(cfg, s, blocks, i).rows,
        take_blocks(cfg, s, blocks, i).rows <= take_blocks(cfg, s, blocks, n).rows,
    decreases n,
{
    if i == n {
        if i > 0 {
            lemma_take_blocks(cfg, s, blocks, i - 1, n - 1);
        }
    } else {
        lemma_take_blocks(cfg, s, blocks, i, n - 1);
    }
}

/// Plan regions for repetitions within blocks.
fn plan_reroll_loops<P>(blocks: &IRBlocks<P>, cfg: &AdaptiveSplitConfig, state: &mut SplitState)
    requires
        cfg.min_reroll_iterations > 0,
        cfg.min_reroll_body_len > 0,
        sized(old(state)@, blocks@.blocks.len()),
        calls_valid(old(state)@),
        take_blocks(*cfg, old(state)@, blocks@.blocks, blocks@.blocks.len() as int).rows
            <= u32::MAX,
    ensures
        final(state)@ == take_blocks(
            *cfg,
            old(state)@,
            blocks@.blocks,
            blocks@.blocks.len() as int,
        ),
        sized(final(state)@, blocks@.blocks.len()),
        calls_valid(final(state)@),
        final(state).layout.outer_block_count == old(state).layout.outer_block_count,
        old(state).layout@.wf() ==> final(state).layout@.wf(),
{
    let ghost bv = blocks@.blocks;
    let ghost start = state@;
    let canon = canonical_stmts(blocks);
    let mut b: usize = 0;
    while b < blocks.blocks.len()
        invariant
            b <= blocks.blocks.len(),
            bv == blocks@.blocks,
            cfg.min_reroll_iterations > 0,
            cfg.min_reroll_body_len > 0,
            sized(start, bv.len()),
            canon@.len() == bv.len(),
            forall|k: int|
                0 <= k < canon@.len() ==> stmt_views((#[trigger] canon@[k])@) == canon_stmts(
                    bv[k].stmts,
                ),
            take_blocks(*cfg, start, bv, bv.len() as int).rows <= u32::MAX,
            state@ == take_blocks(*cfg, start, bv, b as int),
            calls_valid(state@),
            state.layout.outer_block_count == old(state).layout.outer_block_count,
            old(state).layout@.wf() ==> state.layout@.wf(),
        decreases blocks.blocks.len() - b,
    {
        let ghost s = state@;
        let ghost sv = bv[b as int].stmts;
        proof {
            lemma_take_blocks(*cfg, start, bv, b as int, bv.len() as int);
            lemma_take_blocks(*cfg, start, bv, b + 1, bv.len() as int);
            assert(state.used@.len() == s.used.len());
            assert(state.loops@.len() == s.loops.len());
            assert(s.used[b as int] == state.used@[b as int]@);
            assert(stmt_views(canon@[b as int]@).len() == canon@[b as int]@.len());
            lemma_reroll_fits(*cfg, sv, sv.len());
        }
        let n: usize = canon[b].len();
        if let Some(len) = find_reroll_body(&canon[b], cfg, Ghost(sv)) {
            let iterations: usize = n / len;
            let body = StmtRange { start: 0, end: len };
            let worth: u128 = gain(iterations, len);
            proof {
                assert(len * (n as int / len as int) <= n) by (nonlinear_arith)
                    requires
                        len > 0,
                ;
                assert(iterations * len == len * iterations) by (nonlinear_arith);
            }
            if state.loops.len() < cfg.max_appended_regions && !overlaps(&state.used[b], &body)
                && worth > cfg.sub_interp_entry_cost as u128 {
                add_loop(state, b, len, iterations, TripCount::Fixed(iterations as u32));
            }
        }
        b += 1;
    }
    proof {
        lemma_take_blocks(*cfg, start, bv, bv.len() as int, bv.len() as int);
    }
}

/// The statements of `block` that a call stands for.
pub(crate) fn segment_stmt_range(
    block_id: usize,
    seg: &SegmentInvoke,
    shared_cores: &Vec<SharedCoreSpec>,
    reroll_loops: &Vec<RerollLoopSpec>,
    state: Ghost<SplitView>,
) -> (r: StmtRange)
    requires
        state@.cores == core_views(shared_cores@),
        state@.loops == reroll_loops@,
        call_valid(state@, *seg),
    ensures
        r == segment_range(state@, block_id as int, *seg),
{
    match seg {
        SegmentInvoke::SharedCore { region_index, .. } => {
            let members = &shared_cores[*region_index].members;
            let ghost mv = members@;
            assert(core_views(shared_cores@)[*region_index as int] == mv);
            let mut i: usize = 0;
            assert(mv.skip(0) =~= mv);
            while i < members.len()
                invariant
                    i <= members.len(),
                    mv == members@,
                    seg matches SegmentInvoke::SharedCore { region_index: x, .. } && state@.cores[
                        *x as int
                    ] == mv,
                    member_range(mv, block_id as int) == member_range(
                        mv.skip(i as int),
                        block_id as int,
                    ),
                decreases members.len() - i,
            {
                assert(mv.skip(i as int)[0] == mv[i as int]);
                assert(mv.skip(i as int).drop_first() =~= mv.skip(i + 1));
                if members[i].0 == block_id {
                    return members[i].1;
                }
                i += 1;
            }
            StmtRange { start: 0, end: 0 }
        },
        SegmentInvoke::RerollLoop { region_index } => {
            let spec = reroll_loops[*region_index];
            if spec.owner_block == block_id {
                spec.covered_range
            } else {
                StmtRange { start: 0, end: 0 }
            }
        },
    }
}

/// Which statements of a block calls stand for.
fn covered_stmts(
    block_id: usize,
    n: usize,
    segments: &Vec<SegmentInvoke>,
    shared_cores: &Vec<SharedCoreSpec>,
    reroll_loops: &Vec<RerollLoopSpec>,
    state: Ghost<SplitView>,
) -> (r: Vec<bool>)
    requires
        state@.cores == core_views(shared_cores@),
        state@.loops == reroll_loops@,
        block_id < state@.segments.len(),
        segments@ == state@.segments[block_id as int],
        calls_valid(state@),
    ensures
        r@.len() == n,
        forall|i: int| 0 <= i < n ==> #[trigger] r@[i] == covered(state@, block_id as int, i),
{
    let ghost s = state@;
    let ghost b = block_id as int;
    let mut out: Vec<bool> = Vec::new();
    let mut i: usize = 0;
    while i < n
        invariant
            i <= n,
            s == state@,
            b == block_id,
            s.cores == core_views(shared_cores@),
            s.loops == reroll_loops@,
            block_id < s.segments.len(),
            segments@ == s.segments[b],
            calls_valid(s),
            out@.len() == i,
            forall|k: int| 0 <= k < i ==> #[trigger] out@[k] == covered(s, b, k),
        decreases n - i,
    {
        let mut hit: bool = false;
        let mut k: usize = 0;
        while k < segments.len()
            invariant
                k <= segments.len(),
                s == state@,
                b == block_id,
                s.cores == core_views(shared_cores@),
                s.loops == reroll_loops@,
                block_id < s.segments.len(),
                segments@ == s.segments[b],
                calls_valid(s),
                hit == exists|x: int|
                    0 <= x < k && ({
                        let r = segment_range(s, b, #[trigger] s.segments[b][x]);
                        r.start <= i < r.end
                    }),
            decreases segments.len() - k,
        {
            proof {
                assert(call_valid(s, s.segments[b][k as int]));
            }
            let r = segment_stmt_range(
                block_id,
                &segments[k],
                shared_cores,
                reroll_loops,
                state,
            );
            if r.start <= i && i < r.end {
                hit = true;
                assert(segment_range(s, b, s.segments[b][k as int]) == r);
            }
            k += 1;
        }
        out.push(hit);
        i += 1;
    }
    out
}

/// The statements of a block before and behind its calls.
fn rest_of_block(
    block_id: usize,
    n: usize,
    segments: &Vec<SegmentInvoke>,
    shared_cores: &Vec<SharedCoreSpec>,
    reroll_loops: &Vec<RerollLoopSpec>,
    state: Ghost<SplitView>,
) -> (r: (StmtRange, StmtRange))
    requires
        state@.cores == core_views(shared_cores@),
        state@.loops == reroll_loops@,
        block_id < state@.segments.len(),
        segments@ == state@.segments[block_id as int],
        calls_valid(state@),
    ensures
        r == block_rest(state@, block_id as int, n as nat),
{
    let ghost s = state@;
    let ghost b = block_id as int;
    let end = StmtRange { start: n, end: n };
    if segments.len() == 0 {
        return (StmtRange { start: 0, end: n }, end);
    }
    let hit = covered_stmts(block_id, n, segments, shared_cores, reroll_loops, state);
    let mut first: usize = 0;
    while first < n && hit[first]
        invariant
            first <= n,
            hit@.len() == n,
            forall|i: int| 0 <= i < n ==> #[trigger] hit@[i] == covered(s, b, i),
            first_uncovered(s, b, 0, n as int) == first_uncovered(s, b, first as int, n as int),
        decreases n - first,
    {
        first += 1;
    }
    let mut last: usize = n;
    while last > 0 && hit[last - 1]
        invariant
            last <= n,
            hit@.len() == n,
            forall|i: int| 0 <= i < n ==> #[trigger] hit@[i] == covered(s, b, i),
            last_uncovered(s, b, n as int) == last_uncovered(s, b, last as int),
        decreases last,
    {
        last -= 1;
    }
    if first >= last {
        (StmtRange { start: 0, end: 0 }, end)
    } else {
        (StmtRange { start: 0, end: first }, StmtRange { start: last, end: n })
    }
}

/// Whether a region is one of the loop `l`, which repeats statements of a block
/// of the module.
pub open spec fn loop_in(blocks: Seq<IRBlockView>, l: RerollLoopSpec, r: RegionMetaView) -> bool {
    &&& r.kind matches RegionKindView::RerollLoop { owner_block, .. } && owner_block
        == l.owner_block
    &&& r.pc_end == r.pc_start + 1
    &&& l.owner_block < blocks.len()
    &&& l.body_range.start <= l.body_range.end
    &&& l.body_range.end <= blocks[l.owner_block as int].stmts.len()
}

/// Whether an occurrence of a shared sequence lies within its block.
pub open spec fn member_in(blocks: Seq<IRBlockView>, m: (usize, StmtRange)) -> bool {
    &&& m.0 < blocks.len()
    &&& m.1.start <= m.1.end
    &&& m.1.end <= blocks[m.0 as int].stmts.len()
}

/// Whether the regions are those of the shared sequences and of the loops, in
/// this order, all of statements of the module.
pub open spec fn regions_in(blocks: Seq<IRBlockView>, s: SplitView) -> bool {
    &&& s.regions.len() == s.cores.len() + s.loops.len()
    &&& forall|i: int|
        0 <= i < s.cores.len() ==> (#[trigger] s.regions[i]).kind == (
        RegionKindView::SharedCore { members: core_members(s.cores[i]) })
    &&& forall|i: int, k: int|
        0 <= i < s.cores.len() && 0 <= k < s.cores[i].len() ==> member_in(
            blocks,
            #[trigger] s.cores[i][k],
        )
    &&& forall|j: int|
        0 <= j < s.loops.len() ==> loop_in(
            blocks,
            #[trigger] s.loops[j],
            s.regions[s.cores.len() + j],
        )
}

proof fn lemma_free_windows_in(
    blocks: Seq<IRBlockView>,
    used: Seq<Seq<StmtRange>>,
    ws: Seq<WindowOccurrence>,
)
    requires
        forall|i: int| 0 <= i < ws.len() ==> window_in(blocks, #[trigger] ws[i]),
    ensures
        forall|k: int|
            0 <= k < free_windows(used, ws).len() ==> member_in(
                blocks,
                #[trigger] free_windows(used, ws)[k],
            ),
    decreases ws.len(),
{
    if ws.len() > 0 {
        let rest = ws.drop_last();
        assert forall|i: int| 0 <= i < rest.len() implies window_in(blocks, #[trigger] rest[i]) by {
            assert(rest[i] == ws[i]);
        }
        lemma_free_windows_in(blocks, used, rest);
        assert(window_in(blocks, ws[ws.len() - 1]));
        let before = free_windows(used, rest);
        let all = free_windows(used, ws);
        assert forall|k: int| 0 <= k < all.len() implies member_in(blocks, #[trigger] all[k]) by {
            if k < before.len() {
                assert(all[k] == before[k]);
            }
        }
    }
}

/// The regions after a group of windows.
proof fn lemma_take_group_in(
    blocks: Seq<IRBlockView>,
    cfg: AdaptiveSplitConfig,
    s: SplitView,
    g: Seq<WindowOccurrence>,
)
    requires
        regions_in(blocks, s),
        s.loops.len() == 0,
        forall|i: int| 0 <= i < g.len() ==> window_in(blocks, #[trigger] g[i]),
    ensures
        regions_in(blocks, take_group(cfg, s, g)),
        take_group(cfg, s, g).loops.len() == 0,
{
    let members = free_windows(s.used, g);
    lemma_free_windows_in(blocks, s.used, g);
    let with = s.with_region(
        RegionKindView::SharedCore { members: core_members(members) },
        window_len(g[0]),
    );
    let start = SplitView { cores: s.cores.push(members), ..with };
    lemma_core_calls(start, members, s.cores.len() as usize, members.len() as int);
    let t = take_group(cfg, s, g);
    if !(s.cores.len() >= cfg.max_appended_regions || members.len() < cfg.min_reuse_count) {
        assert forall|i: int| 0 <= i < t.cores.len() implies (#[trigger] t.regions[i]).kind == (
        RegionKindView::SharedCore { members: core_members(t.cores[i]) }) by {
            if i < s.cores.len() {
                assert(t.regions[i] == s.regions[i]);
            }
        }
        assert forall|i: int, k: int| 0 <= i < t.cores.len() && 0 <= k < t.cores[i].len() implies
            member_in(blocks, #[trigger] t.cores[i][k]) by {
            if i < s.cores.len() {
                assert(t.cores[i][k] == s.cores[i][k]);
            }
        }
    }
}

/// The regions after a loop over the first statements of a block.
proof fn lemma_with_loop_in(
    blocks: Seq<IRBlockView>,
    s: SplitView,
    block: usize,
    body_len: usize,
    iterations: nat,
    trip: TripCount,
)
    requires
        regions_in(blocks, s),
        block < blocks.len(),
        body_len <= blocks[block as int].stmts.len(),
        s.rows + 1 <= u32::MAX,
    ensures
        regions_in(blocks, with_loop(s, block, body_len, iterations, trip)),
{
    let t = with_loop(s, block, body_len, iterations, trip);
    assert(t.cores == s.cores);
    assert(t.regions.len() == s.regions.len() + 1);
    assert forall|i: int| 0 <= i < t.cores.len() implies (#[trigger] t.regions[i]).kind == (
    RegionKindView::SharedCore { members: core_members(t.cores[i]) }) by {
        assert(t.regions[i] == s.regions[i]);
    }
    assert forall|j: int| 0 <= j < t.loops.len() implies loop_in(
        blocks,
        #[trigger] t.loops[j],
        t.regions[t.cores.len() + j],
    ) by {
        if j < s.loops.len() {
            assert(t.loops[j] == s.loops[j]);
            assert(t.regions[s.cores.len() + j] == s.regions[s.cores.len() + j]);
        }
    }
}

/// The regions after the hinted loops of a list.
proof fn lemma_take_hints_in(
    blocks: Seq<IRBlockView>,
    cfg: AdaptiveSplitConfig,
    s: SplitView,
    hs: Seq<HintedLoop>,
)
    requires
        regions_in(blocks, s),
        forall|i: int| 0 <= i < hs.len() ==> (#[trigger] hs[i]).body < blocks.len(),
        forall|b: int| 0 <= b < blocks.len() ==> (#[trigger] blocks[b]).stmts.len() <= u32::MAX,
        take_hints(cfg, s, blocks, hs).rows <= u32::MAX,
    ensures
        regions_in(blocks, take_hints(cfg, s, blocks, hs)),
    decreases hs.len(),
{
    if hs.len() > 0 {
        let rest = hs.drop_last();
        let h = hs[hs.len() - 1];
        let before = take_hints(cfg, s, blocks, rest);
        lemma_take_hint(cfg, before, blocks, h);
        assert forall|i: int| 0 <= i < rest.len() implies (#[trigger] rest[i]).body
            < blocks.len() by {
            assert(rest[i] == hs[i]);
        }
        lemma_take_hints_in(blocks, cfg, s, rest);
        let n = blocks[h.body as int].stmts.len();
        if hint_taken(cfg, before, h, n) {
            if let TripCount::Fixed(k) = h.trip_count {
                lemma_with_loop_in(
                    blocks,
                    before,
                    h.body,
                    n as usize,
                    k as nat,
                    h.trip_count,
                );
            }
        }
    }
}

/// The regions after a search for repetitions.
proof fn lemma_take_blocks_in(
    blocks: Seq<IRBlockView>,
    cfg: AdaptiveSplitConfig,
    s: SplitView,
    n: int,
)
    requires
        regions_in(blocks, s),
        0 <= n <= blocks.len() <= u32::MAX,
        forall|b: int| 0 <= b < blocks.len() ==> (#[trigger] blocks[b]).stmts.len() <= u32::MAX,
        take_blocks(cfg, s, blocks, n).rows <= u32::MAX,
    ensures
        regions_in(blocks, take_blocks(cfg, s, blocks, n)),
    decreases n,
{
    if n > 0 {
        let before = take_blocks(cfg, s, blocks, n - 1);
        lemma_take_blocks(cfg, s, blocks, n - 1, n);
        lemma_take_blocks_in(blocks, cfg, s, n - 1);
        let stmts = blocks[n - 1].stmts;
        lemma_reroll_fits(cfg, stmts, stmts.len());
        if let Some(len) = reroll_body(cfg, stmts, stmts.len()) {
            let k = stmts.len() / len;
            if before.loops.len() < cfg.max_appended_regions && !range_overlaps(
                before.used[n - 1],
                StmtRange { start: 0, end: len as usize },
            ) && worthwhile(k, len, cfg.sub_interp_entry_cost as nat) {
                lemma_with_loop_in(
                    blocks,
                    before,
                    (n - 1) as usize,
                    len as usize,
                    k,
                    TripCount::Fixed(k as u32),
                );
            }
        }
    }
}

/// Whether a module can be planned for: rows and statements can be counted, and
/// the search for repetitions has bounds to go by.
pub open spec fn split_ready(blocks: Seq<IRBlockView>, cfg: AdaptiveSplitConfig) -> bool {
    &&& blocks.len() <= u32::MAX
    &&& forall|b: int| 0 <= b < blocks.len() ==> (#[trigger] blocks[b]).stmts.len() <= u32::MAX
    &&& cfg.loop_reroll ==> cfg.min_reroll_iterations > 0 && cfg.min_reroll_body_len > 0
        && hints_countable(blocks)
    &&& split_view(blocks, cfg).rows <= u32::MAX
}

/// Plan the regions of a module.
pub fn plan_adaptive_split<P>(blocks: &IRBlocks<P>, cfg: &AdaptiveSplitConfig) -> (r:
    AdaptiveSplitPlan)
    requires
        cfg.enabled ==> split_ready(blocks@.blocks, *cfg),
    ensures
        !cfg.enabled ==> r.is_nothing(),
        cfg.enabled ==> r.plans(blocks@.blocks, split_view(blocks@.blocks, *cfg)),
        cfg.enabled ==> calls_valid(split_view(blocks@.blocks, *cfg)),
        cfg.enabled ==> regions_in(blocks@.blocks, split_view(blocks@.blocks, *cfg)),
        cfg.enabled ==> split_view(blocks@.blocks, *cfg).segments.len() == blocks@.blocks.len(),
        r.layout@.wf(),
{
    let ghost bv = blocks@.blocks;
    if !cfg.enabled {
        return AdaptiveSplitPlan {
            block_plans: Vec::new(),
            layout: UnifiedBytecodeLayout::outer(0),
            shared_cores: Vec::new(),
            reroll_loops: Vec::new(),
        };
    }
    let n: usize = blocks.blocks.len();
    let mut state = SplitState::new(n);
    let ghost start = state@;
    let ghost groups = candidates(
        *cfg,
        grouped(bv, all_windows(bv, cfg.min_sequence_len as nat, bv.len() as int)),
    );
    let ghost shared = if cfg.cross_block {
        take_groups(*cfg, start, groups)
    } else {
        start
    };
    let ghost hinted = if cfg.prefer_reentry_hints {
        take_hints(*cfg, shared, bv, hinted_loops(bv))
    } else {
        shared
    };
    proof {
        if cfg.loop_reroll {
            lemma_take_blocks(*cfg, hinted, bv, 0, bv.len() as int);
            lemma_take_hints_size(*cfg, shared, bv, hinted_loops(bv));
        }
        assert(split_view(bv, *cfg) == if cfg.loop_reroll {
            take_blocks(*cfg, hinted, bv, bv.len() as int)
        } else {
            shared
        });
        assert(shared.rows <= split_view(bv, *cfg).rows);
    }
    assert(state.layout@.wf());
    if cfg.cross_block {
        plan_cross_block(blocks, cfg, &mut state);
    }
    assert(state@ == shared);
    proof {
        if cfg.loop_reroll {
            if cfg.prefer_reentry_hints {
                assert forall|i: int| 0 <= i < hinted_loops(bv).len() implies (
                #[trigger] hinted_loops(bv)[i]).body < bv.len() by {
                    lemma_hinted_body(bv, bv.len() as int, i);
                }
                lemma_take_hints_in(bv, *cfg, shared, hinted_loops(bv));
            }
            lemma_take_blocks_in(bv, *cfg, hinted, bv.len() as int);
        }
    }
    if cfg.loop_reroll {
        if cfg.prefer_reentry_hints {
            plan_cfg_loops_from_hints(blocks, cfg, &mut state);
        }
        assert(state@ == hinted);
        plan_reroll_loops(blocks, cfg, &mut state);
    }
    let ghost s = state@;
    assert(s == split_view(bv, *cfg));
    let mut block_plans: Vec<BlockCompositePlan> = Vec::new();
    let mut b: usize = 0;
    assert(state.segments@.len() == s.segments.len());
    while b < n
        invariant
            b <= n,
            n == blocks.blocks@.len(),
            bv == blocks@.blocks,
            s == state@,
            sized(s, bv.len()),
            calls_valid(s),
            s.cores == core_views(state.cores@),
            s.loops == state.loops@,
            state.segments@.len() == n,
            forall|k: int| 0 <= k < n ==> (#[trigger] state.segments@[k])@ == s.segments[k],
            block_plans@.len() == b,
            forall|k: int|
                0 <= k < b ==> {
                    let p = #[trigger] block_plans@[k];
                    &&& p.segments@ == s.segments[k]
                    &&& (p.prologue, p.epilogue) == block_rest(s, k, bv[k].stmts.len())
                },
        decreases n - b,
    {
        let n_stmts: usize = blocks.blocks[b].stmts.len();
        assert(bv[b as int].stmts.len() == n_stmts);
        assert(state.segments@[b as int]@ == s.segments[b as int]);
        let (prologue, epilogue) = rest_of_block(
            b,
            n_stmts,
            &state.segments[b],
            &state.cores,
            &state.loops,
            Ghost(s),
        );
        let segments = state.segments[b].clone();
        assert(segments@ =~= state.segments@[b as int]@);
        block_plans.push(BlockCompositePlan { prologue, segments, epilogue });
        b += 1;
    }
    AdaptiveSplitPlan {
        block_plans,
        layout: state.layout,
        shared_cores: state.cores,
        reroll_loops: state.loops,
    }
}

} // verus!
