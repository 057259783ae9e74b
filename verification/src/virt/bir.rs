//! Virtualisation of boolean modules.
//!
//! Only jump targets are lifted. A dispatcher reads the bits of the handler
//! index and tests one handler after the other; the state and the bits of the
//! current row are passed along.

use vstd::arithmetic::power2::{lemma2_to64, lemma_pow2_unfold, pow2};
use vstd::prelude::*;

use crate::boolar::{
    bir_block_views, bir_pre_init_views, clone_bir_pre_init, BIrBlock, BIrBlockView, BIrBlocks,
    BIrBlocksView, BIrPreInitSegment, BIrPreInitView, BIrStmt, BIrStmtView, BIrTarget,
    BIrTargetView, BIrTermView, BIrTerminator, LaneId,
};
use crate::common::{nth_bit, Node, StorageAccess, StorageId, StorageTable};
use crate::ir::{IRBlockId, IRBlockTargetId, IRVarId};
use crate::virt::bytecode::{BytecodeRowKind, EntryView, VirtBytecode};
use crate::virt::canon::{
    bir_immediates, bir_key, bir_stmt_views, canonicalize_bir_block, lifted_bir_targets,
    lifted_dest, target_kinds, BirHandlerKey, BlockImmediates, HandlerKey, ImmediatesView,
};
use crate::virt::config::{DedupPolicy, DispatchMode, VirtualizeConfig};
use crate::virt::cse::{deduplicate_bir_oracle_calls_in_block, identity_map, merged_bir_block};
use crate::virt::ctx::{canon_keys, distinct, key_views, law_distinct, DedupTable, VirtOutput};
use crate::virt::ir::{combine_access, combined_access};
use crate::virt::remap::{
    remap_bir_stmt, remap_v, remap_vs, renamed_bir_stmt, renamed_bit, renamed_bit_list,
};

verus! {

// ---------------------------------------------------------------------------
// Bits
// ---------------------------------------------------------------------------

/// The number of bits that tell `n` values apart.
pub open spec fn bits_for(n: nat) -> nat
    decreases n,
{
    if n <= 1 {
        0
    } else {
        1 + bits_for(((n + 1) / 2) as nat)
    }
}

/// `bits_for(n)` is the least number of bits that suffices for `n` values.
pub proof fn law_bits_least(n: nat)
    ensures
        n <= pow2(bits_for(n)),
        bits_for(n) > 0 ==> pow2((bits_for(n) - 1) as nat) < n,
    decreases n,
{
    lemma2_to64();
    if n > 1 {
        let m = ((n + 1) / 2) as nat;
        law_bits_least(m);
        lemma_pow2_unfold(bits_for(n));
        if bits_for(n) > 1 {
            lemma_pow2_unfold((bits_for(n) - 1) as nat);
        }
    }
}

/// Numbers below `n` whose first `bits_for(n)` bits agree are equal.
pub proof fn law_bits_determine(n: nat, i: nat, j: nat)
    requires
        i < n,
        j < n,
        forall|k: nat| k < bits_for(n) ==> #[trigger] nth_bit(i, k) == nth_bit(j, k),
    ensures
        i == j,
    decreases n,
{
    if n > 1 {
        let m = ((n + 1) / 2) as nat;
        assert(nth_bit(i, 0) == nth_bit(j, 0));
        assert forall|k: nat| k < bits_for(m) implies #[trigger] nth_bit(i / 2, k) == nth_bit(
            j / 2,
            k,
        ) by {
            assert(nth_bit(i, (k + 1) as nat) == nth_bit(j, (k + 1) as nat));
        }
        law_bits_determine(m, i / 2, j / 2);
    }
}

/// The number of bits that tell `n` values apart.
pub fn bits_needed(n: usize) -> (r: usize)
    ensures
        r == bits_for(n as nat),
        r <= n,
{
    let mut m: usize = n;
    let mut k: usize = 0;
    while m > 1
        invariant
            bits_for(n as nat) == k + bits_for(m as nat),
            m <= n,
            m > 0 ==> k + m <= n,
            n > 0 ==> m > 0,
        decreases m,
    {
        m = m / 2 + m % 2;
        k += 1;
    }
    k
}

/// Bit `k` of a number.
fn bit_at(i: u32, k: usize) -> (r: bool)
    ensures
        r == nth_bit(i as nat, k as nat),
{
    let mut rest: u32 = i;
    let mut left: usize = k;
    while left > 0
        invariant
            nth_bit(i as nat, k as nat) == nth_bit(rest as nat, left as nat),
        decreases left,
    {
        rest = rest / 2;
        left -= 1;
    }
    rest % 2 == 1
}

// ---------------------------------------------------------------------------
// Blocks of the output
// ---------------------------------------------------------------------------

/// What the blocks of a virtualised boolean module refer to.
pub struct BirFrame {
    /// The number of bits of state.
    pub params: u32,
    /// The number of bits of a row.
    pub pc_bits: nat,
    /// The number of bits of a handler index.
    pub handler_bits: nat,
    pub n_handlers: nat,
    /// The first storage of the table.
    pub base: StorageId,
}

/// The block of the dispatcher.
pub const BIR_DISPATCHER_BID: u32 = 1;

impl BirFrame {
    /// The number of parameters of the dispatcher and of handlers.
    pub open spec fn full(self) -> nat {
        (self.params + self.pc_bits) as nat
    }

    /// The bits of the current row.
    pub open spec fn pc_addr(self) -> Seq<IRVarId> {
        Seq::new(self.pc_bits, |k: int| IRVarId((self.params + k) as u32))
    }

    /// The state and the current row.
    pub open spec fn state_pc(self) -> Seq<IRVarId> {
        identity_map(self.full())
    }

    /// A read of a bit of the current row.
    pub open spec fn read(self, storage: int) -> BIrStmtView {
        BIrStmtView::StorageRead {
            storage: StorageId(storage as u32),
            lane: LaneId(0),
            addr: self.pc_addr(),
        }
    }

    /// The reads of the handler index.
    pub open spec fn index_reads(self) -> Seq<BIrStmtView> {
        Seq::new(self.handler_bits, |k: int| self.read(self.base.0 + k))
    }

    /// The number of blocks of the dispatcher behind its first.
    pub open spec fn interior(self) -> nat {
        if self.n_handlers > 2 {
            (self.n_handlers - 2) as nat
        } else {
            0
        }
    }

    /// The block of handler `h`.
    pub open spec fn handler_bid(self, h: int) -> u32 {
        (2 + self.interior() + h) as u32
    }
}

/// A jump to a block.
pub open spec fn bir_jump(block: u32, args: Seq<IRVarId>) -> BIrTargetView {
    BIrTargetView { block: IRBlockTargetId::Block(IRBlockId(block)), args }
}

/// The setup block: enters row 0 with the state.
pub open spec fn bir_setup_block(f: BirFrame) -> BIrBlockView {
    BIrBlockView {
        params: f.params,
        stmts: seq![BIrStmtView::Zero],
        terminator: BIrTermView::Jmp(
            bir_jump(
                BIR_DISPATCHER_BID,
                identity_map(f.params as nat) + Seq::new(f.pc_bits, |k: int| IRVarId(f.params)),
            ),
        ),
    }
}

/// Statements that test the handler index, and the variable that holds the
/// outcome.
#[verifier::ext_equal]
pub struct BirTest {
    pub stmts: Seq<BIrStmtView>,
    pub acc: IRVarId,
}

/// The test whether the first `n` bits of the handler index are those of `i`.
pub open spec fn is_handler(f: BirFrame, i: nat, n: nat) -> BirTest
    decreases n,
{
    let bit = IRVarId((f.full() + n - 1) as u32);
    let at = f.full() + f.handler_bits;
    if n <= 1 {
        if nth_bit(i, 0) {
            BirTest { stmts: Seq::empty(), acc: bit }
        } else {
            BirTest { stmts: seq![BIrStmtView::Not(bit)], acc: IRVarId(at as u32) }
        }
    } else {
        let before = is_handler(f, i, (n - 1) as nat);
        let m = before.stmts.len();
        if nth_bit(i, (n - 1) as nat) {
            BirTest {
                stmts: before.stmts.push(BIrStmtView::And(before.acc, bit)),
                acc: IRVarId((at + m) as u32),
            }
        } else {
            BirTest {
                stmts: before.stmts.push(BIrStmtView::Not(bit)).push(
                    BIrStmtView::And(before.acc, IRVarId((at + m) as u32)),
                ),
                acc: IRVarId((at + m + 1) as u32),
            }
        }
    }
}

/// The block of the dispatcher that tests for handler `k`.
pub open spec fn dispatch_node(f: BirFrame, k: int) -> BIrBlockView {
    let t = is_handler(f, k as nat, f.handler_bits);
    let other = if k + 2 == f.n_handlers {
        f.handler_bid(k + 1)
    } else {
        (2 + k) as u32
    };
    BIrBlockView {
        params: f.full() as u32,
        stmts: f.index_reads() + t.stmts,
        terminator: BIrTermView::CondJmp {
            val: t.acc,
            then_target: bir_jump(f.handler_bid(k), f.state_pc()),
            else_target: bir_jump(other, f.state_pc()),
        },
    }
}

/// The blocks of the dispatcher.
pub open spec fn dispatcher_nodes(f: BirFrame) -> Seq<BIrBlockView> {
    if f.n_handlers <= 1 {
        seq![
            BIrBlockView {
                params: f.full() as u32,
                stmts: f.index_reads(),
                terminator: BIrTermView::Jmp(bir_jump(f.handler_bid(0), f.state_pc())),
            },
        ]
    } else {
        Seq::new((f.n_handlers - 1) as nat, |k: int| dispatch_node(f, k))
    }
}

/// The number of targets of a key.
pub open spec fn n_targets(key: BIrBlockView) -> nat {
    lifted_bir_targets(key.terminator).len()
}

/// The number of targets of the keys of a list.
pub open spec fn all_targets(keys: Seq<BIrBlockView>) -> nat
    decreases keys.len(),
{
    if keys.len() == 0 {
        0
    } else {
        all_targets(keys.drop_last()) + n_targets(keys.last())
    }
}

/// The first storage of the target bits of handler `h`.
pub open spec fn first_slot(f: BirFrame, keys: Seq<BIrBlockView>, h: int) -> nat {
    f.base.0 as nat + f.handler_bits + all_targets(keys.take(h)) * f.pc_bits
}

/// The variables that hold the bits of target `j`.
pub open spec fn target_bits(f: BirFrame, j: nat) -> Seq<IRVarId> {
    Seq::new(f.pc_bits, |k: int| IRVarId((f.full() + j * f.pc_bits + k) as u32))
}

/// The variables that hold those of a key before its statement `n`; its
/// statements stand behind `at` variables.
pub open spec fn handler_vars(f: BirFrame, at: nat, n: nat) -> Seq<IRVarId> {
    Seq::new(
        (f.params + n) as nat,
        |j: int|
            if j < f.params {
                IRVarId(j as u32)
            } else {
                IRVarId((at + (j - f.params)) as u32)
            },
    )
}

/// A target of a handler: back to the dispatcher with the state and the bits of
/// target `j`, or out of the module. Of the arguments as many are passed as
/// there are bits of state; missing ones stay as they are.
pub open spec fn rewritten_target(
    f: BirFrame,
    t: BIrTargetView,
    vars: Seq<IRVarId>,
    j: nat,
) -> BIrTargetView {
    let args = renamed_bit_list(t.args, vars);
    match t.block {
        IRBlockTargetId::Block(_) => bir_jump(
            BIR_DISPATCHER_BID,
            Seq::new(
                f.params as nat,
                |i: int|
                    if i < args.len() {
                        args[i]
                    } else {
                        IRVarId(i as u32)
                    },
            ) + target_bits(f, j),
        ),
        _ => BIrTargetView { block: t.block, args },
    }
}

/// The terminator of a handler.
pub open spec fn rewritten_term(f: BirFrame, t: BIrTermView, vars: Seq<IRVarId>) -> BIrTermView {
    match t {
        BIrTermView::Jmp(target) => BIrTermView::Jmp(rewritten_target(f, target, vars, 0)),
        BIrTermView::CondJmp { val, then_target, else_target } => BIrTermView::CondJmp {
            val: renamed_bit(val, vars),
            then_target: rewritten_target(f, then_target, vars, 0),
            else_target: rewritten_target(
                f,
                else_target,
                vars,
                lifted_dest(then_target.block).len(),
            ),
        },
    }
}

/// The handler of a key: reads its targets, runs its statements, and goes back
/// to the dispatcher.
pub open spec fn bir_handler(f: BirFrame, key: BIrBlockView, slot: nat) -> BIrBlockView {
    let n_reads = n_targets(key) * f.pc_bits;
    let at = f.full() + n_reads;
    BIrBlockView {
        params: f.full() as u32,
        stmts: Seq::new(n_reads, |i: int| f.read(slot + i)) + Seq::new(
            key.stmts.len(),
            |i: int| renamed_bir_stmt(key.stmts[i], handler_vars(f, at, i as nat)),
        ),
        terminator: rewritten_term(
            f,
            key.terminator,
            handler_vars(f, at, key.stmts.len()),
        ),
    }
}

/// The blocks of a virtualised boolean module.
pub open spec fn bir_module(f: BirFrame, keys: Seq<BIrBlockView>) -> Seq<BIrBlockView> {
    seq![bir_setup_block(f)] + dispatcher_nodes(f) + Seq::new(
        keys.len(),
        |h: int| bir_handler(f, keys[h], first_slot(f, keys, h)),
    )
}

// ---------------------------------------------------------------------------
// Initial storage
// ---------------------------------------------------------------------------

/// A lane of bits: one for each row.
pub open spec fn bir_lane(storage: int, data: Seq<bool>) -> BIrPreInitView {
    BIrPreInitView { storage: StorageId(storage as u32), lane: LaneId(0), offset: 0, data }
}

/// Bit `k` of target `j` in the rows of handler `h`. Other rows hold 0.
pub open spec fn target_lane(
    rows: Seq<u32>,
    targets: Seq<Seq<IRBlockId>>,
    h: int,
    j: int,
    k: int,
) -> Seq<bool> {
    Seq::new(
        rows.len(),
        |pc: int| rows[pc] == h && nth_bit(targets[pc][j].0 as nat, k as nat),
    )
}

/// The lanes of the first `n` targets of handler `h`.
pub open spec fn slot_lanes(
    f: BirFrame,
    keys: Seq<BIrBlockView>,
    rows: Seq<u32>,
    targets: Seq<Seq<IRBlockId>>,
    h: int,
    n: nat,
) -> Seq<BIrPreInitView>
    decreases n,
{
    if n == 0 {
        Seq::empty()
    } else {
        slot_lanes(f, keys, rows, targets, h, (n - 1) as nat) + Seq::new(
            f.pc_bits,
            |k: int|
                bir_lane(
                    first_slot(f, keys, h) + (n - 1) * f.pc_bits + k,
                    target_lane(rows, targets, h, n - 1, k),
                ),
        )
    }
}

/// The lanes of the handler indices and of the targets of the first `n`
/// handlers.
pub open spec fn bir_lanes(
    f: BirFrame,
    keys: Seq<BIrBlockView>,
    rows: Seq<u32>,
    targets: Seq<Seq<IRBlockId>>,
    n: int,
) -> Seq<BIrPreInitView>
    decreases n,
{
    if n <= 0 {
        Seq::new(
            f.handler_bits,
            |k: int|
                bir_lane(
                    f.base.0 + k,
                    rows.map_values(|h: u32| nth_bit(h as nat, k as nat)),
                ),
        )
    } else {
        bir_lanes(f, keys, rows, targets, n - 1) + slot_lanes(
            f,
            keys,
            rows,
            targets,
            n - 1,
            n_targets(keys[n - 1]),
        )
    }
}

/// Whether two segments share a cell.
pub open spec fn bir_segments_overlap(a: BIrPreInitView, b: BIrPreInitView) -> bool {
    &&& a.storage == b.storage
    &&& a.lane == b.lane
    &&& a.offset < b.offset + b.data.len()
    &&& b.offset < a.offset + a.data.len()
}

/// Whether no segment of one list shares a cell with one of the other.
pub open spec fn bir_segments_apart(a: Seq<BIrPreInitView>, b: Seq<BIrPreInitView>) -> bool {
    forall|i: int, j: int|
        0 <= i < a.len() && 0 <= j < b.len() ==> !bir_segments_overlap(
            #[trigger] a[i],
            #[trigger] b[j],
        )
}

// ---------------------------------------------------------------------------
// The plan of a module
// ---------------------------------------------------------------------------

/// What a virtualisation of a boolean module works with.
pub struct BirPlan {
    /// The blocks with repeated oracle calls merged.
    pub blocks: Seq<BIrBlockView>,
    /// The keys of the handlers.
    pub keys: Seq<BIrBlockView>,
    pub frame: BirFrame,
}

/// The blocks with repeated oracle calls merged.
pub open spec fn merged_bir_blocks(blocks: Seq<BIrBlockView>) -> Seq<BIrBlockView> {
    blocks.map_values(|b: BIrBlockView| merged_bir_block(b))
}

/// The keys of a list of blocks.
pub open spec fn bir_block_keys(blocks: Seq<BIrBlockView>) -> Seq<BIrBlockView> {
    blocks.map_values(|b: BIrBlockView| bir_key(b))
}

/// The values lifted out of each block of a list.
pub open spec fn bir_block_immediates(blocks: Seq<BIrBlockView>) -> Seq<ImmediatesView> {
    blocks.map_values(|b: BIrBlockView| bir_immediates(b))
}

/// What a virtualisation works with.
pub open spec fn bir_plan(blocks: Seq<BIrBlockView>, base: StorageId) -> BirPlan {
    let merged = merged_bir_blocks(blocks);
    let keys = distinct(bir_block_keys(merged));
    BirPlan {
        blocks: merged,
        keys,
        frame: BirFrame {
            params: blocks[0].params,
            pc_bits: bits_for(blocks.len()),
            handler_bits: bits_for(keys.len()),
            n_handlers: keys.len(),
            base,
        },
    }
}

/// The handler of each block.
pub open spec fn bir_rows(p: BirPlan) -> Seq<u32> {
    p.blocks.map_values(|b: BIrBlockView| p.keys.index_of_first(bir_key(b)).unwrap() as u32)
}

/// The targets of each block.
pub open spec fn bir_targets(p: BirPlan) -> Seq<Seq<IRBlockId>> {
    p.blocks.map_values(|b: BIrBlockView| lifted_bir_targets(b.terminator))
}

/// The initial storage of the module.
pub open spec fn bir_storage(p: BirPlan) -> Seq<BIrPreInitView> {
    bir_lanes(p.frame, p.keys, bir_rows(p), bir_targets(p), p.keys.len() as int)
}

/// What the layout of the module implies for a storage: the table is not
/// written.
pub open spec fn bir_generated_access(s: StorageId, segments: Seq<BIrPreInitView>, base: StorageId) -> Option<
    StorageAccess,
> {
    if s == base || exists|i: int|
        0 <= i < segments.len() && (#[trigger] segments[i]).storage == s {
        Some(StorageAccess::ReadOnly)
    } else {
        None
    }
}

/// Whether a terminator has no dynamic destination.
pub open spec fn no_dyn(t: BIrTermView) -> bool {
    match t {
        BIrTermView::Jmp(target) => !(target.block is Dyn),
        BIrTermView::CondJmp { then_target, else_target, .. } => !(then_target.block is Dyn) && !(
        else_target.block is Dyn),
    }
}

/// The storage that a statement writes, if it writes one.
pub open spec fn bir_written(s: BIrStmtView) -> Option<StorageId> {
    match s {
        BIrStmtView::StorageWrite { storage, .. } => Some(storage),
        BIrStmtView::ActionStoreBit { storage, .. } => Some(storage),
        _ => None,
    }
}

/// Whether a block writes nothing that the table occupies.
pub open spec fn leaves_table(b: BIrBlockView, segments: Seq<BIrPreInitView>, base: StorageId) -> bool {
    forall|i: int|
        0 <= i < b.stmts.len() ==> match bir_written(#[trigger] b.stmts[i]) {
            Some(s) => bir_generated_access(s, segments, base) is None,
            None => true,
        }
}

/// Whether a boolean module can be virtualised: its blocks take the same number
/// of bits, none has a dynamic destination or writes to the table, and every
/// identifier fits its number.
pub open spec fn bir_ready(m: BIrBlocksView, p: BirPlan) -> bool {
    let f = p.frame;
    &&& 0 < m.blocks.len() <= u32::MAX
    &&& forall|i: int|
        0 <= i < m.blocks.len() ==> (#[trigger] m.blocks[i]).params == m.blocks[0].params
            && m.blocks[i].var_space() <= u32::MAX && no_dyn(m.blocks[i].terminator)
    &&& forall|h: int|
        0 <= h < p.keys.len() ==> f.full() + n_targets(#[trigger] p.keys[h]) * f.pc_bits
            + p.keys[h].stmts.len() <= u32::MAX
    &&& f.full() + 3 * f.handler_bits <= u32::MAX
    &&& 2 + f.interior() + p.keys.len() <= u32::MAX
    &&& f.base.0 + f.handler_bits + all_targets(p.keys) * f.pc_bits <= u32::MAX
    &&& bir_segments_apart(m.pre_init, bir_storage(p))
    &&& forall|i: int|
        0 <= i < p.blocks.len() ==> leaves_table(#[trigger] p.blocks[i], bir_storage(p), f.base)
}

// ---------------------------------------------------------------------------
// Blocks under construction
// ---------------------------------------------------------------------------

/// A boolean block under construction.
struct BirBlockUnfinished {
    params: u32,
    stmts: Vec<BIrStmt>,
    terminator: BIrTerminator,
}

impl View for BirBlockUnfinished {
    type V = BIrBlockView;

    closed spec fn view(&self) -> BIrBlockView {
        BIrBlockView {
            params: self.params,
            stmts: bir_stmt_views(self.stmts@),
            terminator: self.terminator@,
        }
    }
}

/// Whether every statement has the provenance `prov` and no side.
pub open spec fn bir_controlled<P: Clone>(stmts: Seq<Node<BIrStmt, P>>, prov: P) -> bool {
    forall|i: int|
        0 <= i < stmts.len() ==> cloned(prov, (#[trigger] stmts[i]).prov) && stmts[i].side is None
}

/// The same for every block of a list.
pub open spec fn bir_all_controlled<P: Clone>(blocks: Seq<BIrBlock<P>>, prov: P) -> bool {
    forall|i: int| 0 <= i < blocks.len() ==> bir_controlled((#[trigger] blocks[i]).stmts@, prov)
}

impl BirBlockUnfinished {
    /// A block without statements.
    fn new(params: u32) -> (r: Self)
        ensures
            r@.params == params,
            r@.stmts == Seq::<BIrStmtView>::empty(),
    {
        let r = BirBlockUnfinished {
            params,
            stmts: Vec::new(),
            terminator: BIrTerminator::Jmp(
                BIrTarget { block: IRBlockTargetId::Return, args: Vec::new() },
            ),
        };
        assert(r@.stmts =~= Seq::empty());
        r
    }

    /// Append a statement and return the variable that it defines.
    fn push(&mut self, s: BIrStmt) -> (id: IRVarId)
        requires
            old(self)@.var_space() <= u32::MAX,
        ensures
            final(self)@ == (BIrBlockView { stmts: old(self)@.stmts.push(s@), ..old(self)@ }),
            id.0 == old(self)@.var_space(),
    {
        assert(bir_stmt_views(self.stmts@).len() == self.stmts@.len());
        let id = IRVarId(self.params + self.stmts.len() as u32);
        let ghost before = self.stmts@;
        self.stmts.push(s);
        assert(bir_stmt_views(self.stmts@) =~= bir_stmt_views(before).push(s@));
        id
    }

    /// The finished block. Every statement gets the provenance `ctrl_prov`.
    fn into_bir_block<P: Clone>(self, terminator: BIrTerminator, ctrl_prov: &P) -> (r: BIrBlock<P>)
        ensures
            r@ == (BIrBlockView { terminator: terminator@, ..self@ }),
            bir_controlled(r.stmts@, *ctrl_prov),
    {
        let ghost all = self.stmts@;
        let mut stmts: Vec<Node<BIrStmt, P>> = Vec::new();
        let mut i: usize = 0;
        while i < self.stmts.len()
            invariant
                i <= self.stmts.len(),
                all == self.stmts@,
                stmts@.len() == i,
                forall|k: int|
                    0 <= k < i ==> (#[trigger] stmts@[k]).kind@ == all[k]@ && cloned(
                        *ctrl_prov,
                        stmts@[k].prov,
                    ) && stmts@[k].side is None,
            decreases self.stmts.len() - i,
        {
            stmts.push(Node::new(self.stmts[i].clone(), ctrl_prov.clone(), None));
            i += 1;
        }
        let r = BIrBlock { params: self.params, stmts, terminator };
        assert(r@.stmts =~= bir_stmt_views(all));
        r
    }
}

/// What emission of a module reads.
struct BirEnv {
    params: u32,
    pc_bits: usize,
    handler_bits: usize,
    n_handlers: usize,
    base: StorageId,
}

impl BirEnv {
    /// What the blocks of the module refer to.
    spec fn frame(&self) -> BirFrame {
        BirFrame {
            params: self.params,
            pc_bits: self.pc_bits as nat,
            handler_bits: self.handler_bits as nat,
            n_handlers: self.n_handlers as nat,
            base: self.base,
        }
    }

    /// Whether every identifier fits its number.
    spec fn ready(&self) -> bool {
        &&& self.frame().full() + 3 * self.handler_bits <= u32::MAX
        &&& 2 + self.frame().interior() + self.n_handlers <= u32::MAX
        &&& self.base.0 + self.handler_bits <= u32::MAX
    }

    /// The number of parameters of the dispatcher and of handlers.
    fn full(&self) -> (r: u32)
        requires
            self.frame().full() <= u32::MAX,
        ensures
            r == self.frame().full(),
    {
        self.params + self.pc_bits as u32
    }

    /// The bits of the current row.
    fn pc_addr(&self) -> (r: Vec<IRVarId>)
        requires
            self.frame().full() <= u32::MAX,
        ensures
            r@ == self.frame().pc_addr(),
    {
        let mut out: Vec<IRVarId> = Vec::new();
        let mut k: usize = 0;
        while k < self.pc_bits
            invariant
                k <= self.pc_bits,
                self.params + self.pc_bits <= u32::MAX,
                out@.len() == k,
                forall|j: int| 0 <= j < k ==> #[trigger] out@[j] == self.frame().pc_addr()[j],
            decreases self.pc_bits - k,
        {
            out.push(IRVarId(self.params + k as u32));
            k += 1;
        }
        assert(out@ =~= self.frame().pc_addr());
        out
    }

    /// A read of a bit of the current row.
    fn read(&self, storage: u32) -> (r: BIrStmt)
        requires
            self.frame().full() <= u32::MAX,
        ensures
            r@ == self.frame().read(storage as int),
    {
        BIrStmt::StorageRead { storage: StorageId(storage), lane: LaneId(0), addr: self.pc_addr() }
    }

    /// The block of handler `h`.
    fn handler_bid(&self, h: usize) -> (r: u32)
        requires
            self.ready(),
            h < self.n_handlers,
        ensures
            r == self.frame().handler_bid(h as int),
    {
        let interior: u32 = if self.n_handlers > 2 {
            (self.n_handlers - 2) as u32
        } else {
            0
        };
        2 + interior + h as u32
    }

    /// A jump to a block with the state and the current row.
    fn pass_on(&self, block: u32) -> (r: BIrTarget)
        requires
            self.frame().full() <= u32::MAX,
        ensures
            r@ == bir_jump(block, self.frame().state_pc()),
    {
        BIrTarget {
            block: IRBlockTargetId::Block(IRBlockId(block)),
            args: first_vars(self.full()),
        }
    }
}

/// The first variables of a block.
fn first_vars(n: u32) -> (r: Vec<IRVarId>)
    ensures
        r@ == identity_map(n as nat),
{
    let mut out: Vec<IRVarId> = Vec::new();
    let mut k: u32 = 0;
    while k < n
        invariant
            k <= n,
            out@ == identity_map(k as nat),
        decreases n - k,
    {
        out.push(IRVarId(k));
        assert(out@ =~= identity_map((k + 1) as nat));
        k += 1;
    }
    out
}

// ---------------------------------------------------------------------------
// Emission
// ---------------------------------------------------------------------------

/// Emit the setup block.
fn emit_setup_block<P: Clone>(env: &BirEnv, ctrl_prov: &P) -> (r: BIrBlock<P>)
    ensures
        r@ == bir_setup_block(env.frame()),
        bir_controlled(r.stmts@, *ctrl_prov),
{
    let ghost f = env.frame();
    let mut b = BirBlockUnfinished::new(env.params);
    let zero: IRVarId = b.push(BIrStmt::Zero);
    assert(b@.stmts =~= seq![BIrStmtView::Zero]);
    let mut args = first_vars(env.params);
    let ghost state = args@;
    let mut k: usize = 0;
    assert(args@ =~= state + Seq::new(0, |j: int| zero));
    while k < env.pc_bits
        invariant
            k <= env.pc_bits,
            args@ == state + Seq::new(k as nat, |j: int| zero),
        decreases env.pc_bits - k,
    {
        args.push(zero);
        assert(args@ =~= state + Seq::new((k + 1) as nat, |j: int| zero));
        k += 1;
    }
    let terminator = BIrTerminator::Jmp(
        BIrTarget { block: IRBlockTargetId::Block(IRBlockId(BIR_DISPATCHER_BID)), args },
    );
    assert(args@ =~= identity_map(f.params as nat) + Seq::new(
        f.pc_bits,
        |j: int| IRVarId(f.params),
    ));
    b.into_bir_block(terminator, ctrl_prov)
}

/// A test takes at most two statements for each bit.
pub proof fn lemma_is_handler_len(f: BirFrame, i: nat, n: nat)
    ensures
        is_handler(f, i, n).stmts.len() <= 2 * n + 1,
        n >= 1 ==> is_handler(f, i, n).stmts.len() <= 2 * n - 1,
    decreases n,
{
    if n > 1 {
        lemma_is_handler_len(f, i, (n - 1) as nat);
    }
}

/// The block with the reads of the handler index.
fn start_node(env: &BirEnv) -> (b: BirBlockUnfinished)
    requires
        env.ready(),
    ensures
        b@.params == env.frame().full(),
        b@.stmts == env.frame().index_reads(),
{
    let ghost f = env.frame();
    let mut b = BirBlockUnfinished::new(env.full());
    let mut k: usize = 0;
    while k < env.handler_bits
        invariant
            k <= env.handler_bits,
            env.ready(),
            f == env.frame(),
            b@.params == f.full(),
            b@.stmts == f.index_reads().take(k as int),
        decreases env.handler_bits - k,
    {
        b.push(env.read(env.base.0 + k as u32));
        assert(b@.stmts =~= f.index_reads().take(k + 1));
        k += 1;
    }
    assert(f.index_reads().take(k as int) =~= f.index_reads());
    b
}

/// Append the test for a handler.
fn emit_is_handler(b: &mut BirBlockUnfinished, env: &BirEnv, i: u32) -> (acc: IRVarId)
    requires
        env.ready(),
        env.handler_bits > 0,
        old(b)@.params == env.frame().full(),
        old(b)@.stmts == env.frame().index_reads(),
    ensures
        final(b)@.params == old(b)@.params,
        final(b)@.stmts == old(b)@.stmts + is_handler(
            env.frame(),
            i as nat,
            env.handler_bits as nat,
        ).stmts,
        acc == is_handler(env.frame(), i as nat, env.handler_bits as nat).acc,
{
    let ghost f = env.frame();
    let ghost reads = b@.stmts;
    let full: u32 = env.full();
    let first = IRVarId(full);
    let mut acc: IRVarId = if bit_at(i, 0) {
        first
    } else {
        b.push(BIrStmt::Not(first))
    };
    proof {
        assert(b@.stmts =~= reads + is_handler(f, i as nat, 1).stmts);
    }
    let mut j: usize = 1;
    while j < env.handler_bits
        invariant
            1 <= j <= env.handler_bits,
            env.ready(),
            f == env.frame(),
            full == f.full(),
            reads == f.index_reads(),
            b@.params == f.full(),
            b@.stmts == reads + is_handler(f, i as nat, j as nat).stmts,
            acc == is_handler(f, i as nat, j as nat).acc,
        decreases env.handler_bits - j,
    {
        proof {
            lemma_is_handler_len(f, i as nat, j as nat);
        }
        let ghost before = is_handler(f, i as nat, j as nat);
        let bit = IRVarId(full + j as u32);
        if bit_at(i, j) {
            acc = b.push(BIrStmt::And(acc, bit));
        } else {
            let not: IRVarId = b.push(BIrStmt::Not(bit));
            acc = b.push(BIrStmt::And(acc, not));
        }
        proof {
            assert(b@.stmts =~= reads + is_handler(f, i as nat, (j + 1) as nat).stmts);
        }
        j += 1;
    }
    acc
}

/// Emit the blocks of the dispatcher.
fn emit_dispatcher_blocks<P: Clone>(env: &BirEnv, ctrl_prov: &P) -> (r: Vec<BIrBlock<P>>)
    requires
        env.ready(),
        env.n_handlers > 0,
        env.handler_bits == bits_for(env.n_handlers as nat),
    ensures
        bir_block_views(r@) == dispatcher_nodes(env.frame()),
        bir_all_controlled(r@, *ctrl_prov),
{
    let ghost f = env.frame();
    let mut out: Vec<BIrBlock<P>> = Vec::new();
    if env.n_handlers == 1 {
        let b = start_node(env);
        let terminator = BIrTerminator::Jmp(env.pass_on(env.handler_bid(0)));
        out.push(b.into_bir_block(terminator, ctrl_prov));
        assert(bir_block_views(out@) =~= dispatcher_nodes(f));
        return out;
    }
    let mut k: usize = 0;
    while k < env.n_handlers - 1
        invariant
            k <= env.n_handlers - 1,
            env.n_handlers >= 2,
            env.ready(),
            env.handler_bits == bits_for(env.n_handlers as nat),
            f == env.frame(),
            out@.len() == k,
            forall|j: int| 0 <= j < k ==> (#[trigger] out@[j])@ == dispatch_node(f, j),
            bir_all_controlled(out@, *ctrl_prov),
        decreases env.n_handlers - k,
    {
        let mut b = start_node(env);
        let val: IRVarId = emit_is_handler(&mut b, env, k as u32);
        let other: u32 = if k + 2 == env.n_handlers {
            env.handler_bid(k + 1)
        } else {
            2 + k as u32
        };
        let terminator = BIrTerminator::CondJmp {
            val,
            then_target: env.pass_on(env.handler_bid(k)),
            else_target: env.pass_on(other),
        };
        let node = b.into_bir_block(terminator, ctrl_prov);
        assert(node@ == dispatch_node(f, k as int));
        out.push(node);
        k += 1;
    }
    assert(bir_block_views(out@) =~= dispatcher_nodes(f));
    out
}

/// The variables that hold the bits of target `j`.
fn read_bits(env: &BirEnv, j: usize, n: Ghost<nat>) -> (r: Vec<IRVarId>)
    requires
        env.frame().full() + n@ * env.pc_bits <= u32::MAX,
        j < n@,
    ensures
        r@ == target_bits(env.frame(), j as nat),
{
    let ghost f = env.frame();
    let mut out: Vec<IRVarId> = Vec::new();
    proof {
        assert(j * env.pc_bits + env.pc_bits <= n@ * env.pc_bits) by (nonlinear_arith)
            requires
                j + 1 <= n@,
        ;
        assert(0 <= j * env.pc_bits) by (nonlinear_arith);
        assert(0 <= n@ * env.pc_bits) by (nonlinear_arith);
    }
    let full: u32 = env.full();
    let start: u32 = full + (j * env.pc_bits) as u32;
    let mut k: usize = 0;
    while k < env.pc_bits
        invariant
            k <= env.pc_bits,
            f == env.frame(),
            start == f.full() + j * env.pc_bits,
            start + env.pc_bits <= u32::MAX,
            out@.len() == k,
            forall|i: int| 0 <= i < k ==> #[trigger] out@[i] == target_bits(f, j as nat)[i],
        decreases env.pc_bits - k,
    {
        out.push(IRVarId(start + k as u32));
        k += 1;
    }
    assert(out@ =~= target_bits(f, j as nat));
    out
}

/// A target of a handler.
fn rewrite_bir_target(
    env: &BirEnv,
    t: &BIrTarget,
    vars: &Vec<IRVarId>,
    j: usize,
    n: Ghost<nat>,
) -> (r: BIrTarget)
    requires
        env.frame().full() + n@ * env.pc_bits <= u32::MAX,
        t@.block is Block ==> j < n@,
    ensures
        r@ == rewritten_target(env.frame(), t@, vars@, j as nat),
{
    let ghost f = env.frame();
    let args = remap_vs(&t.args, vars);
    match t.block {
        IRBlockTargetId::Block(_) => {
            let mut state: Vec<IRVarId> = Vec::new();
            let mut i: u32 = 0;
            let ghost want = Seq::new(
                f.params as nat,
                |i: int|
                    if i < args@.len() {
                        args@[i]
                    } else {
                        IRVarId(i as u32)
                    },
            );
            while i < env.params
                invariant
                    i <= env.params,
                    f == env.frame(),
                    want == Seq::new(
                        f.params as nat,
                        |i: int|
                            if i < args@.len() {
                                args@[i]
                            } else {
                                IRVarId(i as u32)
                            },
                    ),
                    state@ == want.take(i as int),
                decreases env.params - i,
            {
                if (i as usize) < args.len() {
                    state.push(args[i as usize]);
                } else {
                    state.push(IRVarId(i));
                }
                assert(state@ =~= want.take(i + 1));
                i += 1;
            }
            assert(want.take(i as int) =~= want);
            let mut bits = read_bits(env, j, n);
            state.append(&mut bits);
            BIrTarget {
                block: IRBlockTargetId::Block(IRBlockId(BIR_DISPATCHER_BID)),
                args: state,
            }
        },
        _ => BIrTarget { block: t.block, args },
    }
}

/// The terminator of a handler.
fn rewrite_bir_terminator(
    env: &BirEnv,
    term: &BIrTerminator,
    vars: &Vec<IRVarId>,
) -> (r: BIrTerminator)
    requires
        env.frame().full() + lifted_bir_targets(term@).len() * env.pc_bits <= u32::MAX,
    ensures
        r@ == rewritten_term(env.frame(), term@, vars@),
{
    let ghost n = lifted_bir_targets(term@).len();
    match term {
        BIrTerminator::Jmp(t) => BIrTerminator::Jmp(
            rewrite_bir_target(env, t, vars, 0, Ghost(n)),
        ),
        BIrTerminator::CondJmp { val, then_target, else_target } => {
            let cursor: usize = match then_target.block {
                IRBlockTargetId::Block(_) => 1,
                _ => 0,
            };
            BIrTerminator::CondJmp {
                val: remap_v(*val, vars),
                then_target: rewrite_bir_target(env, then_target, vars, 0, Ghost(n)),
                else_target: rewrite_bir_target(env, else_target, vars, cursor, Ghost(n)),
            }
        },
    }
}

/// The number of targets of a terminator.
fn count_targets(term: &BIrTerminator) -> (r: usize)
    ensures
        r == lifted_bir_targets(term@).len(),
{
    match term {
        BIrTerminator::Jmp(t) => match t.block {
            IRBlockTargetId::Block(_) => 1,
            _ => 0,
        },
        BIrTerminator::CondJmp { then_target, else_target, .. } => {
            let a: usize = match then_target.block {
                IRBlockTargetId::Block(_) => 1,
                _ => 0,
            };
            let b: usize = match else_target.block {
                IRBlockTargetId::Block(_) => 1,
                _ => 0,
            };
            a + b
        },
    }
}

/// Emit the handler of a key whose target bits start at storage `slot`.
fn emit_handler_block<P: Clone>(
    env: &BirEnv,
    key: &BirHandlerKey,
    slot: u32,
    ctrl_prov: &P,
) -> (r: BIrBlock<P>)
    requires
        env.frame().full() + n_targets(key@) * env.pc_bits + key@.stmts.len() <= u32::MAX,
        slot + n_targets(key@) * env.pc_bits <= u32::MAX,
    ensures
        r@ == bir_handler(env.frame(), key@, slot as nat),
        bir_controlled(r.stmts@, *ctrl_prov),
{
    let ghost f = env.frame();
    let ghost k = key@;
    let count: usize = count_targets(&key.terminator);
    proof {
        assert(n_targets(k) == count);
        assert(0 <= count * env.pc_bits) by (nonlinear_arith);
    }
    let full: u32 = env.full();
    let mut b = BirBlockUnfinished::new(full);
    let n_reads: usize = count * env.pc_bits;
    let ghost reads = Seq::new(n_reads as nat, |i: int| f.read(slot + i));
    let mut i: usize = 0;
    assert(b@.stmts =~= reads.take(0));
    while i < n_reads
        invariant
            i <= n_reads,
            f == env.frame(),
            f.full() + n_reads <= u32::MAX,
            slot + n_reads <= u32::MAX,
            reads == Seq::new(n_reads as nat, |i: int| f.read(slot + i)),
            b@.params == f.full(),
            b@.stmts == reads.take(i as int),
        decreases n_reads - i,
    {
        b.push(env.read(slot + i as u32));
        assert(b@.stmts =~= reads.take(i + 1));
        i += 1;
    }
    assert(reads.take(i as int) =~= reads);
    let ghost at = f.full() + n_reads as nat;
    let mut vars = first_vars(env.params);
    assert(vars@ =~= handler_vars(f, at, 0));
    let ghost body = Seq::new(
        k.stmts.len(),
        |i: int| renamed_bir_stmt(k.stmts[i], handler_vars(f, at, i as nat)),
    );
    let mut s: usize = 0;
    assert(b@.stmts =~= reads + body.take(0));
    while s < key.stmts.len()
        invariant
            s <= key.stmts.len(),
            f == env.frame(),
            k == key@,
            reads.len() == n_reads,
            at == f.full() + n_reads as nat,
            f.full() + n_reads + key.stmts@.len() <= u32::MAX,
            body == Seq::new(
                k.stmts.len(),
                |i: int| renamed_bir_stmt(k.stmts[i], handler_vars(f, at, i as nat)),
            ),
            b@.params == f.full(),
            b@.stmts == reads + body.take(s as int),
            vars@ == handler_vars(f, at, s as nat),
        decreases key.stmts.len() - s,
    {
        assert(k.stmts[s as int] == key.stmts@[s as int]@);
        let new_var: IRVarId = b.push(remap_bir_stmt(&key.stmts[s], &vars));
        assert(body.take(s + 1) =~= body.take(s as int).push(body[s as int]));
        assert(b@.stmts =~= reads + body.take(s + 1));
        vars.push(new_var);
        assert(vars@ =~= handler_vars(f, at, (s + 1) as nat));
        s += 1;
    }
    assert(body.take(s as int) =~= body);
    let terminator = rewrite_bir_terminator(env, &key.terminator, &vars);
    let r = b.into_bir_block(terminator, ctrl_prov);
    assert(r@ =~= bir_handler(f, k, slot as nat));
    r
}

// ---------------------------------------------------------------------------
// Initial storage
// ---------------------------------------------------------------------------

/// The number of targets of the first keys of a list.
proof fn lemma_all_targets(keys: Seq<BIrBlockView>, h: int)
    requires
        0 <= h <= keys.len(),
    ensures
        all_targets(keys.take(h)) <= all_targets(keys),
        h < keys.len() ==> all_targets(keys.take(h + 1)) == all_targets(keys.take(h)) + n_targets(
            keys[h],
        ),
    decreases keys.len() - h,
{
    if h < keys.len() {
        lemma_all_targets(keys, h + 1);
        assert(keys.take(h + 1).drop_last() =~= keys.take(h));
        assert(keys.take(h + 1).last() == keys[h]);
    } else {
        assert(keys.take(h) =~= keys);
    }
}

/// The target bits of a handler lie behind those of the handlers before it.
proof fn lemma_first_slot(f: BirFrame, keys: Seq<BIrBlockView>, h: int)
    requires
        0 <= h < keys.len(),
    ensures
        first_slot(f, keys, h + 1) == first_slot(f, keys, h) + n_targets(keys[h]) * f.pc_bits,
        first_slot(f, keys, h) + n_targets(keys[h]) * f.pc_bits <= f.base.0 + f.handler_bits
            + all_targets(keys) * f.pc_bits,
        first_slot(f, keys, h) >= f.base.0 + f.handler_bits,
{
    lemma_all_targets(keys, h);
    lemma_all_targets(keys, h + 1);
    let a = all_targets(keys.take(h));
    let b = n_targets(keys[h]);
    let c = all_targets(keys);
    assert((a + b) * f.pc_bits == a * f.pc_bits + b * f.pc_bits) by (nonlinear_arith);
    assert((a + b) * f.pc_bits <= c * f.pc_bits) by (nonlinear_arith)
        requires
            a + b <= c,
    ;
    assert(0 <= a * f.pc_bits) by (nonlinear_arith);
}

/// The handler of each row of a table.
spec fn bir_table_rows(d: DedupTable<BirHandlerKey>) -> Seq<u32> {
    d.per_block@.map_values(|p: (u32, BlockImmediates)| p.0)
}

/// The targets of each row of a table.
spec fn bir_table_targets(d: DedupTable<BirHandlerKey>) -> Seq<Seq<IRBlockId>> {
    d.per_block@.map_values(|p: (u32, BlockImmediates)| p.1.targets@)
}

/// Whether a table has, for each row, a handler with as many targets.
spec fn bir_table_fits(d: DedupTable<BirHandlerKey>) -> bool {
    forall|i: int|
        0 <= i < d.per_block@.len() ==> (#[trigger] d.per_block@[i]).0 < d.handler_keys@.len()
            && d.per_block@[i].1.targets@.len() == n_targets(
            d.handler_keys@[d.per_block@[i].0 as int]@,
        )
}

/// A lane of the handler index.
fn index_lane(dedup: &DedupTable<BirHandlerKey>, storage: u32, k: usize) -> (r: BIrPreInitSegment)
    ensures
        r@ == bir_lane(
            storage as int,
            bir_table_rows(*dedup).map_values(|h: u32| nth_bit(h as nat, k as nat)),
        ),
{
    let ghost rows = bir_table_rows(*dedup);
    let mut data: Vec<bool> = Vec::new();
    let mut pc: usize = 0;
    while pc < dedup.per_block.len()
        invariant
            pc <= dedup.per_block.len(),
            rows == bir_table_rows(*dedup),
            data@.len() == pc,
            forall|i: int| 0 <= i < pc ==> #[trigger] data@[i] == nth_bit(rows[i] as nat, k as nat),
        decreases dedup.per_block.len() - pc,
    {
        data.push(bit_at(dedup.per_block[pc].0, k));
        pc += 1;
    }
    assert(data@ =~= rows.map_values(|h: u32| nth_bit(h as nat, k as nat)));
    BIrPreInitSegment { storage: StorageId(storage), lane: LaneId(0), offset: 0, data }
}

/// A lane of a target.
fn one_target_lane(
    dedup: &DedupTable<BirHandlerKey>,
    storage: u32,
    h: usize,
    j: usize,
    k: usize,
) -> (r: BIrPreInitSegment)
    requires
        bir_table_fits(*dedup),
        h < dedup.handler_keys@.len(),
        j < n_targets(dedup.handler_keys@[h as int]@),
    ensures
        r@ == bir_lane(
            storage as int,
            target_lane(
                bir_table_rows(*dedup),
                bir_table_targets(*dedup),
                h as int,
                j as int,
                k as int,
            ),
        ),
{
    let ghost rows = bir_table_rows(*dedup);
    let ghost targets = bir_table_targets(*dedup);
    let ghost want = target_lane(rows, targets, h as int, j as int, k as int);
    let mut data: Vec<bool> = Vec::new();
    let mut pc: usize = 0;
    while pc < dedup.per_block.len()
        invariant
            pc <= dedup.per_block.len(),
            bir_table_fits(*dedup),
            h < dedup.handler_keys@.len(),
            j < n_targets(dedup.handler_keys@[h as int]@),
            rows == bir_table_rows(*dedup),
            targets == bir_table_targets(*dedup),
            want == target_lane(rows, targets, h as int, j as int, k as int),
            data@.len() == pc,
            forall|i: int| 0 <= i < pc ==> #[trigger] data@[i] == want[i],
        decreases dedup.per_block.len() - pc,
    {
        proof {
            assert(rows[pc as int] == dedup.per_block@[pc as int].0);
            assert(targets[pc as int] == dedup.per_block@[pc as int].1.targets@);
        }
        if dedup.per_block[pc].0 as usize == h {
            data.push(bit_at(dedup.per_block[pc].1.targets[j].0, k));
        } else {
            data.push(false);
        }
        pc += 1;
    }
    assert(data@ =~= want);
    BIrPreInitSegment { storage: StorageId(storage), lane: LaneId(0), offset: 0, data }
}

/// Append the lanes of the targets of handler `h`.
fn push_slot_lanes(
    env: &BirEnv,
    dedup: &DedupTable<BirHandlerKey>,
    h: usize,
    slot: u32,
    out: &mut Vec<BIrPreInitSegment>,
)
    requires
        bir_table_fits(*dedup),
        h < dedup.handler_keys@.len(),
        slot == first_slot(env.frame(), key_views(dedup.handler_keys@), h as int),
        slot + n_targets(dedup.handler_keys@[h as int]@) * env.pc_bits <= u32::MAX,
    ensures
        bir_pre_init_views(final(out)@) == bir_pre_init_views(old(out)@) + slot_lanes(
            env.frame(),
            key_views(dedup.handler_keys@),
            bir_table_rows(*dedup),
            bir_table_targets(*dedup),
            h as int,
            n_targets(dedup.handler_keys@[h as int]@),
        ),
{
    let ghost f = env.frame();
    let ghost keys = key_views(dedup.handler_keys@);
    let ghost rows = bir_table_rows(*dedup);
    let ghost targets = bir_table_targets(*dedup);
    let ghost start = bir_pre_init_views(out@);
    let n: usize = count_targets(&dedup.handler_keys[h].terminator);
    assert(n_targets(dedup.handler_keys@[h as int]@) == n);
    let mut j: usize = 0;
    assert(start + slot_lanes(f, keys, rows, targets, h as int, 0) =~= start);
    while j < n
        invariant
            j <= n,
            n == n_targets(dedup.handler_keys@[h as int]@),
            f == env.frame(),
            keys == key_views(dedup.handler_keys@),
            rows == bir_table_rows(*dedup),
            targets == bir_table_targets(*dedup),
            bir_table_fits(*dedup),
            h < dedup.handler_keys@.len(),
            slot == first_slot(f, keys, h as int),
            slot + n * env.pc_bits <= u32::MAX,
            bir_pre_init_views(out@) == start + slot_lanes(
                f,
                keys,
                rows,
                targets,
                h as int,
                j as nat,
            ),
        decreases n - j,
    {
        proof {
            assert(j * env.pc_bits + env.pc_bits <= n * env.pc_bits) by (nonlinear_arith)
                requires
                    j + 1 <= n,
            ;
            assert(0 <= j * env.pc_bits) by (nonlinear_arith);
        }
        let first: u32 = slot + (j * env.pc_bits) as u32;
        let ghost row = bir_pre_init_views(out@);
        let ghost want = Seq::new(
            f.pc_bits,
            |k: int|
                bir_lane(
                    first_slot(f, keys, h as int) + j * f.pc_bits + k,
                    target_lane(rows, targets, h as int, j as int, k),
                ),
        );
        let mut k: usize = 0;
        assert(row + want.take(0) =~= row);
        while k < env.pc_bits
            invariant
                k <= env.pc_bits,
                j < n,
                n == n_targets(dedup.handler_keys@[h as int]@),
                f == env.frame(),
                keys == key_views(dedup.handler_keys@),
                rows == bir_table_rows(*dedup),
                targets == bir_table_targets(*dedup),
                bir_table_fits(*dedup),
                h < dedup.handler_keys@.len(),
                first == first_slot(f, keys, h as int) + j * f.pc_bits,
                first + env.pc_bits <= u32::MAX,
                want == Seq::new(
                    f.pc_bits,
                    |k: int|
                        bir_lane(
                            first_slot(f, keys, h as int) + j * f.pc_bits + k,
                            target_lane(rows, targets, h as int, j as int, k),
                        ),
                ),
                bir_pre_init_views(out@) == row + want.take(k as int),
            decreases env.pc_bits - k,
        {
            let l = one_target_lane(dedup, first + k as u32, h, j, k);
            let ghost before = out@;
            assert(l@ == want[k as int]);
            assert(want.take(k + 1) =~= want.take(k as int).push(want[k as int]));
            out.push(l);
            assert(bir_pre_init_views(out@) =~= bir_pre_init_views(before).push(l@));
            assert(bir_pre_init_views(out@) =~= row + want.take(k + 1));
            k += 1;
        }
        assert(want.take(k as int) =~= want);
        assert(bir_pre_init_views(out@) =~= start + slot_lanes(
            f,
            keys,
            rows,
            targets,
            h as int,
            (j + 1) as nat,
        ));
        j += 1;
    }
}

/// The initial storage of a boolean module.
fn build_bir_storage_init(env: &BirEnv, dedup: &DedupTable<BirHandlerKey>) -> (r: Vec<
    BIrPreInitSegment,
>)
    requires
        bir_table_fits(*dedup),
        env.base.0 + env.handler_bits + all_targets(key_views(dedup.handler_keys@)) * env.pc_bits
            <= u32::MAX,
    ensures
        bir_pre_init_views(r@) == bir_lanes(
            env.frame(),
            key_views(dedup.handler_keys@),
            bir_table_rows(*dedup),
            bir_table_targets(*dedup),
            dedup.handler_keys@.len() as int,
        ),
{
    let ghost f = env.frame();
    let ghost keys = key_views(dedup.handler_keys@);
    let ghost rows = bir_table_rows(*dedup);
    let ghost targets = bir_table_targets(*dedup);
    let ghost index = bir_lanes(f, keys, rows, targets, 0);
    let mut out: Vec<BIrPreInitSegment> = Vec::new();
    let mut k: usize = 0;
    assert(0 <= all_targets(keys) * env.pc_bits) by (nonlinear_arith);
    assert(bir_pre_init_views(out@) =~= index.take(0));
    while k < env.handler_bits
        invariant
            k <= env.handler_bits,
            f == env.frame(),
            rows == bir_table_rows(*dedup),
            index == bir_lanes(f, keys, rows, targets, 0),
            env.base.0 + env.handler_bits <= u32::MAX,
            bir_pre_init_views(out@) == index.take(k as int),
        decreases env.handler_bits - k,
    {
        let l = index_lane(dedup, env.base.0 + k as u32, k);
        let ghost before = out@;
        assert(l@ == index[k as int]);
        out.push(l);
        assert(bir_pre_init_views(out@) =~= bir_pre_init_views(before).push(l@));
        assert(index.take(k + 1) =~= index.take(k as int).push(index[k as int]));
        k += 1;
    }
    assert(index.take(k as int) =~= index);
    let mut slot: u32 = env.base.0 + env.handler_bits as u32;
    let mut h: usize = 0;
    proof {
        assert(keys.take(0) =~= Seq::empty());
        assert(all_targets(keys.take(0)) * env.pc_bits == 0) by (nonlinear_arith)
            requires
                all_targets(keys.take(0)) == 0,
        ;
    }
    while h < dedup.handler_keys.len()
        invariant
            h <= dedup.handler_keys.len(),
            f == env.frame(),
            keys == key_views(dedup.handler_keys@),
            rows == bir_table_rows(*dedup),
            targets == bir_table_targets(*dedup),
            bir_table_fits(*dedup),
            env.base.0 + env.handler_bits + all_targets(keys) * env.pc_bits <= u32::MAX,
            slot == first_slot(f, keys, h as int),
            bir_pre_init_views(out@) == bir_lanes(f, keys, rows, targets, h as int),
        decreases dedup.handler_keys.len() - h,
    {
        proof {
            lemma_first_slot(f, keys, h as int);
            assert(keys[h as int] == dedup.handler_keys@[h as int]@);
        }
        push_slot_lanes(env, dedup, h, slot, &mut out);
        let n: usize = count_targets(&dedup.handler_keys[h].terminator);
        proof {
            assert(n == n_targets(keys[h as int]));
            assert(0 <= n * env.pc_bits) by (nonlinear_arith);
        }
        slot = slot + (n * env.pc_bits) as u32;
        h += 1;
    }
    out
}

/// Whether every segment of the table is behind those of the input.
fn merge_bir_pre_init(input: &Vec<BIrPreInitSegment>, virt: Vec<BIrPreInitSegment>) -> (r: Vec<
    BIrPreInitSegment,
>)
    requires
        bir_segments_apart(bir_pre_init_views(input@), bir_pre_init_views(virt@)),
    ensures
        bir_pre_init_views(r@) == bir_pre_init_views(input@) + bir_pre_init_views(virt@),
{
    let mut out = clone_bir_pre_init(input);
    let ghost a = out@;
    let ghost b = virt@;
    let mut tail = virt;
    out.append(&mut tail);
    assert(bir_pre_init_views(out@) =~= bir_pre_init_views(a) + bir_pre_init_views(b));
    out
}

/// The declarations for a virtualised boolean module.
fn storage_access_for_bir(
    pre_init: &Vec<BIrPreInitSegment>,
    bytecode_storage: StorageId,
    caller: &StorageTable,
) -> (r: StorageTable)
    ensures
        forall|s: StorageId| #[trigger]
            r.declared(s) == combined_access(
                bir_generated_access(s, bir_pre_init_views(pre_init@), bytecode_storage),
                caller.declared(s),
            ),
{
    let ghost segs = bir_pre_init_views(pre_init@);
    let mut table = StorageTable::new();
    table.set(bytecode_storage, StorageAccess::ReadOnly);
    let mut i: usize = 0;
    while i < pre_init.len()
        invariant
            i <= pre_init.len(),
            segs == bir_pre_init_views(pre_init@),
            forall|s: StorageId| #[trigger]
                table.declared(s) == bir_generated_access(
                    s,
                    segs.take(i as int),
                    bytecode_storage,
                ),
        decreases pre_init.len() - i,
    {
        let ghost before = table;
        table.set(pre_init[i].storage, StorageAccess::ReadOnly);
        proof {
            let a = segs.take(i as int);
            let b = segs.take(i + 1);
            assert(segs[i as int].storage == pre_init@[i as int].storage);
            assert forall|s: StorageId| #[trigger]
                table.declared(s) == bir_generated_access(s, b, bytecode_storage) by {
                assert(before.declared(s) == bir_generated_access(s, a, bytecode_storage));
                if exists|k: int| 0 <= k < a.len() && (#[trigger] a[k]).storage == s {
                    let k = choose|k: int| 0 <= k < a.len() && (#[trigger] a[k]).storage == s;
                    assert(b[k].storage == s);
                }
                if s == segs[i as int].storage {
                    assert(b[i as int].storage == s);
                }
                if exists|k: int| 0 <= k < b.len() && (#[trigger] b[k]).storage == s {
                    let k = choose|k: int| 0 <= k < b.len() && (#[trigger] b[k]).storage == s;
                    if k < i {
                        assert(a[k].storage == s);
                    }
                }
            }
        }
        i += 1;
    }
    assert(segs.take(i as int) =~= segs);
    let ghost generated = table;
    combine_access(&mut table, caller);
    proof {
        assert forall|s: StorageId| #[trigger]
            table.declared(s) == combined_access(
                bir_generated_access(s, segs, bytecode_storage),
                caller.declared(s),
            ) by {
            assert(generated.declared(s) == bir_generated_access(s, segs, bytecode_storage));
        }
    }
    table
}

// ---------------------------------------------------------------------------
// Virtualisation
// ---------------------------------------------------------------------------

/// The first statement of a list of boolean blocks.
pub open spec fn first_bir_node<P>(blocks: Seq<BIrBlock<P>>) -> Option<Node<BIrStmt, P>>
    decreases blocks.len(),
{
    if blocks.len() == 0 {
        None
    } else if blocks[0].stmts@.len() > 0 {
        Some(blocks[0].stmts@[0])
    } else {
        first_bir_node(blocks.drop_first())
    }
}

/// Whether emitted statements of a module may have the provenance `prov`: a
/// copy of that of the first statement of the input, or the default.
pub open spec fn bir_control_prov<P: Clone + Default>(blocks: Seq<BIrBlock<P>>, prov: P) -> bool {
    match first_bir_node(blocks) {
        Some(n) => cloned(n.prov, prov),
        None => call_ensures(P::default, (), prov),
    }
}

/// The provenance of emitted statements.
fn pick_control_prov<P: Clone + Default>(blocks: &Vec<BIrBlock<P>>) -> (r: P)
    ensures
        bir_control_prov(blocks@, r),
{
    let mut i: usize = 0;
    assert(blocks@.skip(0) =~= blocks@);
    while i < blocks.len()
        invariant
            i <= blocks.len(),
            first_bir_node(blocks@) == first_bir_node(blocks@.skip(i as int)),
        decreases blocks.len() - i,
    {
        assert(blocks@.skip(i as int)[0] == blocks@[i as int]);
        assert(blocks@.skip(i as int).drop_first() =~= blocks@.skip(i + 1));
        if blocks[i].stmts.len() > 0 {
            return blocks[i].stmts[0].prov.clone();
        }
        i += 1;
    }
    P::default()
}

/// Whether `r` is the virtualisation of the boolean module `blocks`.
pub open spec fn virtualizes_bir<P: Clone + Default>(
    blocks: BIrBlocks<P>,
    p: BirPlan,
    caller: StorageTable,
    r: VirtOutput<BIrBlocks<P>>,
) -> bool {
    &&& r.blocks@ == (BIrBlocksView {
        blocks: bir_module(p.frame, p.keys),
        pre_init: blocks@.pre_init + bir_storage(p),
    })
    &&& exists|prov: P| #[trigger]
        bir_control_prov(blocks.blocks@, prov) && bir_all_controlled(r.blocks.blocks@, prov)
    &&& forall|s: StorageId| #[trigger]
        r.storage_access.declared(s) == combined_access(
            bir_generated_access(s, bir_storage(p), p.frame.base),
            caller.declared(s),
        )
    &&& r.bytecode matches Some(table) && bir_bytecode_of(p, table)
    &&& r.n_handlers == p.keys.len()
    &&& r.blocks_in == blocks@.blocks.len()
    &&& r.n_appended_regions == 0
    &&& r.key_params@.len() == 0
}

/// Whether `table` is the bytecode table of a plan: row `i` names the handler
/// of block `i` and its targets.
pub open spec fn bir_bytecode_of(p: BirPlan, table: VirtBytecode) -> bool {
    &&& table.n_handlers == p.keys.len()
    &&& table.outer_block_count == p.blocks.len()
    &&& table@.handler_schemas == p.keys.map_values(
        |k: BIrBlockView| target_kinds(n_targets(k)),
    )
    &&& table@.regions.len() == 0
    &&& table@.entries.len() == p.blocks.len()
    &&& forall|i: int|
        0 <= i < p.blocks.len() ==> #[trigger] table@.entries[i] == (EntryView {
            handler_idx: bir_rows(p)[i],
            consts: Seq::empty(),
            targets: lifted_bir_targets(p.blocks[i].terminator),
            row_kind: BytecodeRowKind::Outer,
        })
}

/// Merge repeated oracle calls in every block and group the blocks by key.
fn dedup_bir<P: Clone>(blocks: &BIrBlocks<P>) -> (r: DedupTable<BirHandlerKey>)
    requires
        blocks@.blocks.len() <= u32::MAX,
        forall|i: int|
            0 <= i < blocks@.blocks.len() ==> (#[trigger] blocks@.blocks[i]).var_space()
                <= u32::MAX,
    ensures
        r.groups(
            bir_block_keys(merged_bir_blocks(blocks@.blocks)),
            bir_block_immediates(merged_bir_blocks(blocks@.blocks)),
        ),
{
    let ghost bv = blocks@.blocks;
    let ghost mv = merged_bir_blocks(bv);
    let mut canon: Vec<(BirHandlerKey, BlockImmediates)> = Vec::new();
    let mut i: usize = 0;
    while i < blocks.blocks.len()
        invariant
            i <= blocks.blocks.len(),
            bv == blocks@.blocks,
            mv == merged_bir_blocks(bv),
            forall|k: int| 0 <= k < bv.len() ==> (#[trigger] bv[k]).var_space() <= u32::MAX,
            canon@.len() == i,
            forall|k: int|
                0 <= k < i ==> (#[trigger] canon@[k]).0@ == bir_key(mv[k]) && canon@[k].1@
                    == bir_immediates(mv[k]),
        decreases blocks.blocks.len() - i,
    {
        assert(bv[i as int] == blocks.blocks@[i as int]@);
        assert(bv[i as int].var_space() <= u32::MAX);
        let merged = deduplicate_bir_oracle_calls_in_block(&blocks.blocks[i]);
        canon.push(canonicalize_bir_block(&merged));
        i += 1;
    }
    proof {
        assert(canon_keys(canon@) =~= bir_block_keys(mv));
        assert(canon@.map_values(|c: (BirHandlerKey, BlockImmediates)| c.1@)
            =~= bir_block_immediates(mv));
    }
    DedupTable::build(canon)
}

/// The rows of grouped blocks.
proof fn lemma_bir_rows(d: DedupTable<BirHandlerKey>, p: BirPlan)
    requires
        p.keys == distinct(bir_block_keys(p.blocks)),
        d.groups(bir_block_keys(p.blocks), bir_block_immediates(p.blocks)),
    ensures
        key_views(d.handler_keys@) == p.keys,
        bir_table_rows(d) == bir_rows(p),
        bir_table_targets(d) == bir_targets(p),
        bir_table_fits(d),
        d.per_block@.len() == p.blocks.len(),
        d.bytecode().handler_schemas == p.keys.map_values(
            |k: BIrBlockView| target_kinds(n_targets(k)),
        ),
        forall|i: int|
            0 <= i < p.blocks.len() ==> #[trigger] d.bytecode().entries[i] == (EntryView {
                handler_idx: bir_rows(p)[i],
                consts: Seq::empty(),
                targets: lifted_bir_targets(p.blocks[i].terminator),
                row_kind: BytecodeRowKind::Outer,
            }),
{
    let bk = bir_block_keys(p.blocks);
    law_distinct(bk);
    let keys = key_views(d.handler_keys@);
    assert forall|i: int| 0 <= i < p.blocks.len() implies {
        &&& #[trigger] bir_table_rows(d)[i] == bir_rows(p)[i]
        &&& bir_table_targets(d)[i] == bir_targets(p)[i]
        &&& d.per_block@[i].0 < d.handler_keys@.len()
        &&& d.per_block@[i].1@ == bir_immediates(p.blocks[i])
        &&& d.per_block@[i].1.targets@.len() == n_targets(
            d.handler_keys@[d.per_block@[i].0 as int]@,
        )
    } by {
        let key = bir_key(p.blocks[i]);
        let h = d.per_block@[i].0;
        assert(bk[i] == key);
        assert(p.keys[h as int] == key);
        assert(p.keys.contains(key));
        p.keys.index_of_first_ensures(key);
        assert(d.per_block@[i].1@ == bir_block_immediates(p.blocks)[i]);
        assert(keys[h as int] == d.handler_keys@[h as int]@);
        lemma_key_targets(p.blocks[i]);
    }
    assert(bir_table_rows(d) =~= bir_rows(p));
    assert(bir_table_targets(d) =~= bir_targets(p));
    assert forall|i: int| 0 <= i < d.per_block@.len() implies (#[trigger] d.per_block@[i]).0
        < d.handler_keys@.len() && d.per_block@[i].1.targets@.len() == n_targets(
        d.handler_keys@[d.per_block@[i].0 as int]@,
    ) by {
        assert(bir_table_rows(d)[i] == bir_rows(p)[i]);
    }
    assert forall|i: int| 0 <= i < p.blocks.len() implies #[trigger] d.bytecode().entries[i] == (
    EntryView {
        handler_idx: bir_rows(p)[i],
        consts: Seq::empty(),
        targets: lifted_bir_targets(p.blocks[i].terminator),
        row_kind: BytecodeRowKind::Outer,
    }) by {
        assert(bir_table_rows(d)[i] == bir_rows(p)[i]);
        assert(d.per_block@[i].1@ == bir_immediates(p.blocks[i]));
    }
    assert forall|h: int| 0 <= h < d.handler_keys@.len() implies #[trigger]
        d.bytecode().handler_schemas[h] == target_kinds(n_targets(keys[h])) by {
        assert(d.handler_keys@[h].schema() == target_kinds(n_targets(d.handler_keys@[h]@)));
    }
    assert(d.bytecode().handler_schemas =~= p.keys.map_values(
        |k: BIrBlockView| target_kinds(n_targets(k)),
    ));
}

/// A key has as many targets as its block.
proof fn lemma_key_targets(b: BIrBlockView)
    ensures
        n_targets(bir_key(b)) == lifted_bir_targets(b.terminator).len(),
{
}

/// Virtualise a boolean module.
pub fn virtualize_bir<P: Clone + Default>(blocks: &BIrBlocks<P>, cfg: &VirtualizeConfig) -> (r:
    VirtOutput<BIrBlocks<P>>)
    requires
        cfg.dedup == DedupPolicy::ConstantsAndTargets,
        cfg.dispatch == DispatchMode::Public,
        bir_ready(blocks@, bir_plan(blocks@.blocks, cfg.bytecode_storage)),
    ensures
        virtualizes_bir(
            *blocks,
            bir_plan(blocks@.blocks, cfg.bytecode_storage),
            cfg.storage_access,
            r,
        ),
{
    let ghost p = bir_plan(blocks@.blocks, cfg.bytecode_storage);
    let ghost bv = blocks@.blocks;
    proof {
        assert forall|i: int| 0 <= i < bv.len() implies (#[trigger] bv[i]).var_space()
            <= u32::MAX by {}
        assert(blocks.blocks@.len() == bv.len());
        assert(bv[0] == blocks.blocks@[0]@);
        law_distinct(bir_block_keys(p.blocks));
    }
    let dedup = dedup_bir(blocks);
    proof {
        lemma_bir_rows(dedup, p);
        assert(key_views(dedup.handler_keys@).len() == dedup.handler_keys@.len());
        assert(bir_block_keys(p.blocks)[0] == bir_key(p.blocks[0]));
    }
    let n_handlers: usize = dedup.n_handlers();
    let env = BirEnv {
        params: blocks.blocks[0].params,
        pc_bits: bits_needed(blocks.blocks.len()),
        handler_bits: bits_needed(n_handlers),
        n_handlers,
        base: cfg.bytecode_storage,
    };
    let ghost f = p.frame;
    proof {
        assert(env.frame() == f);
        assert(0 <= all_targets(p.keys) * f.pc_bits) by (nonlinear_arith);
        assert(n_handlers > 0);
    }
    let prov: P = pick_control_prov(&blocks.blocks);
    let mut out: Vec<BIrBlock<P>> = Vec::new();
    out.push(emit_setup_block(&env, &prov));
    let mut nodes = emit_dispatcher_blocks(&env, &prov);
    let ghost nv = nodes@;
    let ghost o1 = out@;
    out.append(&mut nodes);
    let ghost head = seq![bir_setup_block(f)] + dispatcher_nodes(f);
    proof {
        assert(bir_block_views(out@) =~= head);
        assert forall|i: int| 0 <= i < out@.len() implies bir_controlled(
            (#[trigger] out@[i]).stmts@,
            prov,
        ) by {
            if i >= 1 {
                assert(out@[i] == nv[i - 1]);
            }
        }
        assert(p.keys.take(0) =~= Seq::empty());
        assert(all_targets(p.keys.take(0)) * f.pc_bits == 0) by (nonlinear_arith)
            requires
                all_targets(p.keys.take(0)) == 0,
        ;
    }
    let mut slot: u32 = env.base.0 + env.handler_bits as u32;
    let mut h: usize = 0;
    let ghost tail = Seq::new(
        p.keys.len(),
        |h: int| bir_handler(f, p.keys[h], first_slot(f, p.keys, h)),
    );
    assert(head + tail.take(0) =~= head);
    while h < dedup.handler_keys.len()
        invariant
            h <= dedup.handler_keys.len(),
            f == p.frame,
            env.frame() == f,
            p.keys == key_views(dedup.handler_keys@),
            bir_ready(blocks@, p),
            slot == first_slot(f, p.keys, h as int),
            tail == Seq::new(
                p.keys.len(),
                |h: int| bir_handler(f, p.keys[h], first_slot(f, p.keys, h)),
            ),
            bir_block_views(out@) == head + tail.take(h as int),
            bir_all_controlled(out@, prov),
        decreases dedup.handler_keys.len() - h,
    {
        proof {
            lemma_first_slot(f, p.keys, h as int);
            assert(p.keys[h as int] == dedup.handler_keys@[h as int]@);
            assert(f.full() + n_targets(p.keys[h as int]) * f.pc_bits
                + p.keys[h as int].stmts.len() <= u32::MAX);
        }
        let block = emit_handler_block(&env, &dedup.handler_keys[h], slot, &prov);
        let n: usize = count_targets(&dedup.handler_keys[h].terminator);
        proof {
            assert(n == n_targets(p.keys[h as int]));
            assert(0 <= n * env.pc_bits) by (nonlinear_arith);
            assert(tail.take(h + 1) =~= tail.take(h as int).push(tail[h as int]));
        }
        slot = slot + (n * env.pc_bits) as u32;
        let ghost before = out@;
        out.push(block);
        assert(bir_block_views(out@) =~= bir_block_views(before).push(block@));
        assert(bir_block_views(out@) =~= head + tail.take(h + 1));
        h += 1;
    }
    assert(tail.take(h as int) =~= tail);
    let lanes = build_bir_storage_init(&env, &dedup);
    let storage_access = storage_access_for_bir(&lanes, cfg.bytecode_storage, &cfg.storage_access);
    let pre_init = merge_bir_pre_init(&blocks.pre_init, lanes);
    let bytecode = dedup.to_bytecode();
    let out_blocks = BIrBlocks { blocks: out, pre_init };
    proof {
        assert(bir_control_prov(blocks.blocks@, prov) && bir_all_controlled(
            out_blocks.blocks@,
            prov,
        ));
    }
    VirtOutput {
        blocks: out_blocks,
        storage_access,
        bytecode: Some(bytecode),
        n_handlers,
        blocks_in: blocks.blocks.len(),
        n_appended_regions: 0,
        key_params: Vec::new(),
    }
}

} // verus!
