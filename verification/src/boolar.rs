//! The boolean SSA block IR: every variable is one bit.

use vstd::prelude::*;

use crate::common::{
    map_prov_nodes, prov_mapped, turned, Node, ProvenanceHandler, SideId, StorageId,
};
use crate::ir::{vars_eq, IRBlockTargetId, IRVarId};

verus! {

/// A lane of a storage space: one bit plane.
#[derive(Clone, Copy, PartialEq, Eq, PartialOrd, Ord, Hash, Debug, Structural)]
pub struct LaneId(pub u32);

/// A boolean statement.
#[derive(PartialEq, Eq, PartialOrd, Ord, Hash, Debug)]
#[allow(inconsistent_fields)]
pub enum BIrStmt<Var = IRVarId, Stor = StorageId> {
    /// The constant 0.
    Zero,
    /// The constant 1.
    One,
    /// Conjunction.
    And(Var, Var),
    /// Disjunction.
    Or(Var, Var),
    /// Exclusive or.
    Xor(Var, Var),
    /// Negation.
    Not(Var),
    /// Call an oracle; the result is a handle of `num_bits` output bits.
    OracleCall { name: String, args: Vec<Var>, num_bits: usize },
    /// One output bit of an oracle, without a handle.
    OracleBit { name: String, args: Vec<Var>, bit: usize, occurrence: u64 },
    /// One output bit of an oracle call.
    OracleProjectedBit { call: Var, bit: usize },
    /// Call an action if `guard` holds, else take the fallback bits; the result is a handle.
    ActionCall { name: String, guard: Var, args: Vec<Var>, fallback: Vec<Var>, num_bits: usize },
    /// One output bit of an action call.
    ActionBit { call: Var, bit: usize },
    /// Store one output bit of an action, or the fallback.
    ActionStoreBit { name: String, guard: Var, args: Vec<Var>, fallback: Var, storage: Stor, lane: LaneId, addr: Vec<Var>, bit: usize, occurrence: u64 },
    /// A fresh random bit.
    Rng { name: String },
    /// A replayable random bit.
    RngBit { name: String, bit: usize, occurrence: u64 },
    /// Read the cell at `addr`, least significant bit first.
    StorageRead { storage: Stor, lane: LaneId, addr: Vec<Var> },
    /// Write `src` to the cell at `addr`.
    StorageWrite { storage: Stor, lane: LaneId, src: Var, addr: Vec<Var> },
}

/// What a [`BIrStmt`] denotes.
#[verifier::ext_equal]
#[allow(inconsistent_fields)]
pub enum BIrStmtView<Var = IRVarId, Stor = StorageId> {
    Zero,
    One,
    And(Var, Var),
    Or(Var, Var),
    Xor(Var, Var),
    Not(Var),
    OracleCall { name: Seq<char>, args: Seq<Var>, num_bits: usize },
    OracleBit { name: Seq<char>, args: Seq<Var>, bit: usize, occurrence: u64 },
    OracleProjectedBit { call: Var, bit: usize },
    ActionCall { name: Seq<char>, guard: Var, args: Seq<Var>, fallback: Seq<Var>, num_bits: usize },
    ActionBit { call: Var, bit: usize },
    ActionStoreBit { name: Seq<char>, guard: Var, args: Seq<Var>, fallback: Var, storage: Stor, lane: LaneId, addr: Seq<Var>, bit: usize, occurrence: u64 },
    Rng { name: Seq<char> },
    RngBit { name: Seq<char>, bit: usize, occurrence: u64 },
    StorageRead { storage: Stor, lane: LaneId, addr: Seq<Var> },
    StorageWrite { storage: Stor, lane: LaneId, src: Var, addr: Seq<Var> },
}

impl<Var, Stor> View for BIrStmt<Var, Stor> {
    type V = BIrStmtView<Var, Stor>;

    open spec fn view(&self) -> BIrStmtView<Var, Stor> {
        match *self {
            BIrStmt::Zero => BIrStmtView::Zero,
            BIrStmt::One => BIrStmtView::One,
            BIrStmt::And(a0, a1) => BIrStmtView::And(a0, a1),
            BIrStmt::Or(a0, a1) => BIrStmtView::Or(a0, a1),
            BIrStmt::Xor(a0, a1) => BIrStmtView::Xor(a0, a1),
            BIrStmt::Not(a0) => BIrStmtView::Not(a0),
            BIrStmt::OracleCall { name, args, num_bits } => BIrStmtView::OracleCall { name: name@, args: args@, num_bits },
            BIrStmt::OracleBit { name, args, bit, occurrence } => BIrStmtView::OracleBit { name: name@, args: args@, bit, occurrence },
            BIrStmt::OracleProjectedBit { call, bit } => BIrStmtView::OracleProjectedBit { call, bit },
            BIrStmt::ActionCall { name, guard, args, fallback, num_bits } => BIrStmtView::ActionCall { name: name@, guard, args: args@, fallback: fallback@, num_bits },
            BIrStmt::ActionBit { call, bit } => BIrStmtView::ActionBit { call, bit },
            BIrStmt::ActionStoreBit { name, guard, args, fallback, storage, lane, addr, bit, occurrence } => BIrStmtView::ActionStoreBit { name: name@, guard, args: args@, fallback, storage, lane, addr: addr@, bit, occurrence },
            BIrStmt::Rng { name } => BIrStmtView::Rng { name: name@ },
            BIrStmt::RngBit { name, bit, occurrence } => BIrStmtView::RngBit { name: name@, bit, occurrence },
            BIrStmt::StorageRead { storage, lane, addr } => BIrStmtView::StorageRead { storage, lane, addr: addr@ },
            BIrStmt::StorageWrite { storage, lane, src, addr } => BIrStmtView::StorageWrite { storage, lane, src, addr: addr@ },
        }
    }
}

impl Clone for BIrStmt {
    fn clone(&self) -> (r: Self)
        ensures
            r@ == self@,
    {
        match self {
            BIrStmt::Zero => BIrStmt::Zero,
            BIrStmt::One => BIrStmt::One,
            BIrStmt::And(a0, a1) => BIrStmt::And(*a0, *a1),
            BIrStmt::Or(a0, a1) => BIrStmt::Or(*a0, *a1),
            BIrStmt::Xor(a0, a1) => BIrStmt::Xor(*a0, *a1),
            BIrStmt::Not(a0) => BIrStmt::Not(*a0),
            BIrStmt::OracleCall { name, args, num_bits } => BIrStmt::OracleCall { name: name.clone(), args: args.clone(), num_bits: *num_bits },
            BIrStmt::OracleBit { name, args, bit, occurrence } => BIrStmt::OracleBit { name: name.clone(), args: args.clone(), bit: *bit, occurrence: *occurrence },
            BIrStmt::OracleProjectedBit { call, bit } => BIrStmt::OracleProjectedBit { call: *call, bit: *bit },
            BIrStmt::ActionCall { name, guard, args, fallback, num_bits } => BIrStmt::ActionCall { name: name.clone(), guard: *guard, args: args.clone(), fallback: fallback.clone(), num_bits: *num_bits },
            BIrStmt::ActionBit { call, bit } => BIrStmt::ActionBit { call: *call, bit: *bit },
            BIrStmt::ActionStoreBit { name, guard, args, fallback, storage, lane, addr, bit, occurrence } => BIrStmt::ActionStoreBit { name: name.clone(), guard: *guard, args: args.clone(), fallback: *fallback, storage: *storage, lane: *lane, addr: addr.clone(), bit: *bit, occurrence: *occurrence },
            BIrStmt::Rng { name } => BIrStmt::Rng { name: name.clone() },
            BIrStmt::RngBit { name, bit, occurrence } => BIrStmt::RngBit { name: name.clone(), bit: *bit, occurrence: *occurrence },
            BIrStmt::StorageRead { storage, lane, addr } => BIrStmt::StorageRead { storage: *storage, lane: *lane, addr: addr.clone() },
            BIrStmt::StorageWrite { storage, lane, src, addr } => BIrStmt::StorageWrite { storage: *storage, lane: *lane, src: *src, addr: addr.clone() },
        }
    }
}

impl BIrStmt {
    /// Whether two statements are the same.
    pub fn same(&self, other: &BIrStmt) -> (r: bool)
        ensures
            r == (self@ == other@),
    {
        match (self, other) {
            (BIrStmt::Zero, BIrStmt::Zero) => true,
            (BIrStmt::One, BIrStmt::One) => true,
            (BIrStmt::And(a01, a11), BIrStmt::And(a02, a12)) => *a01 == *a02 && *a11 == *a12,
            (BIrStmt::Or(a01, a11), BIrStmt::Or(a02, a12)) => *a01 == *a02 && *a11 == *a12,
            (BIrStmt::Xor(a01, a11), BIrStmt::Xor(a02, a12)) => *a01 == *a02 && *a11 == *a12,
            (BIrStmt::Not(a01), BIrStmt::Not(a02)) => *a01 == *a02,
            (BIrStmt::OracleCall { name: name1, args: args1, num_bits: num_bits1 }, BIrStmt::OracleCall { name: name2, args: args2, num_bits: num_bits2 }) => *name1 == *name2 && vars_eq(args1, args2) && *num_bits1 == *num_bits2,
            (BIrStmt::OracleBit { name: name1, args: args1, bit: bit1, occurrence: occurrence1 }, BIrStmt::OracleBit { name: name2, args: args2, bit: bit2, occurrence: occurrence2 }) => *name1 == *name2 && vars_eq(args1, args2) && *bit1 == *bit2 && *occurrence1 == *occurrence2,
            (BIrStmt::OracleProjectedBit { call: call1, bit: bit1 }, BIrStmt::OracleProjectedBit { call: call2, bit: bit2 }) => *call1 == *call2 && *bit1 == *bit2,
            (BIrStmt::ActionCall { name: name1, guard: guard1, args: args1, fallback: fallback1, num_bits: num_bits1 }, BIrStmt::ActionCall { name: name2, guard: guard2, args: args2, fallback: fallback2, num_bits: num_bits2 }) => *name1 == *name2 && *guard1 == *guard2 && vars_eq(args1, args2) && vars_eq(fallback1, fallback2) && *num_bits1 == *num_bits2,
            (BIrStmt::ActionBit { call: call1, bit: bit1 }, BIrStmt::ActionBit { call: call2, bit: bit2 }) => *call1 == *call2 && *bit1 == *bit2,
            (BIrStmt::ActionStoreBit { name: name1, guard: guard1, args: args1, fallback: fallback1, storage: storage1, lane: lane1, addr: addr1, bit: bit1, occurrence: occurrence1 }, BIrStmt::ActionStoreBit { name: name2, guard: guard2, args: args2, fallback: fallback2, storage: storage2, lane: lane2, addr: addr2, bit: bit2, occurrence: occurrence2 }) => *name1 == *name2 && *guard1 == *guard2 && vars_eq(args1, args2) && *fallback1 == *fallback2 && *storage1 == *storage2 && *lane1 == *lane2 && vars_eq(addr1, addr2) && *bit1 == *bit2 && *occurrence1 == *occurrence2,
            (BIrStmt::Rng { name: name1 }, BIrStmt::Rng { name: name2 }) => *name1 == *name2,
            (BIrStmt::RngBit { name: name1, bit: bit1, occurrence: occurrence1 }, BIrStmt::RngBit { name: name2, bit: bit2, occurrence: occurrence2 }) => *name1 == *name2 && *bit1 == *bit2 && *occurrence1 == *occurrence2,
            (BIrStmt::StorageRead { storage: storage1, lane: lane1, addr: addr1 }, BIrStmt::StorageRead { storage: storage2, lane: lane2, addr: addr2 }) => *storage1 == *storage2 && *lane1 == *lane2 && vars_eq(addr1, addr2),
            (BIrStmt::StorageWrite { storage: storage1, lane: lane1, src: src1, addr: addr1 }, BIrStmt::StorageWrite { storage: storage2, lane: lane2, src: src2, addr: addr2 }) => *storage1 == *storage2 && *lane1 == *lane2 && *src1 == *src2 && vars_eq(addr1, addr2),
            _ => false,
        }
    }
}

/// A boolean jump destination with its arguments.
#[derive(PartialEq, Eq, PartialOrd, Ord, Hash, Debug)]
pub struct BIrTarget<Var = IRVarId> {
    pub block: IRBlockTargetId<Var>,
    pub args: Vec<Var>,
}

/// What a [`BIrTarget`] denotes.
#[verifier::ext_equal]
pub struct BIrTargetView<Var = IRVarId> {
    pub block: IRBlockTargetId<Var>,
    pub args: Seq<Var>,
}

impl<Var> View for BIrTarget<Var> {
    type V = BIrTargetView<Var>;

    open spec fn view(&self) -> BIrTargetView<Var> {
        BIrTargetView { block: self.block, args: self.args@ }
    }
}

impl Clone for BIrTarget {
    fn clone(&self) -> (r: Self)
        ensures
            r@ == self@,
    {
        BIrTarget { block: self.block, args: self.args.clone() }
    }
}

impl BIrTarget {
    /// Whether two targets are the same.
    pub fn same(&self, other: &BIrTarget) -> (r: bool)
        ensures
            r == (self@ == other@),
    {
        self.block.same(&other.block) && vars_eq(&self.args, &other.args)
    }
}

/// How a boolean block ends.
#[derive(PartialEq, Eq, PartialOrd, Ord, Hash, Debug)]
pub enum BIrTerminator<Var = IRVarId> {
    Jmp(BIrTarget<Var>),
    CondJmp { val: Var, then_target: BIrTarget<Var>, else_target: BIrTarget<Var> },
}

/// What a [`BIrTerminator`] denotes.
#[verifier::ext_equal]
pub enum BIrTermView<Var = IRVarId> {
    Jmp(BIrTargetView<Var>),
    CondJmp { val: Var, then_target: BIrTargetView<Var>, else_target: BIrTargetView<Var> },
}

impl<Var> View for BIrTerminator<Var> {
    type V = BIrTermView<Var>;

    open spec fn view(&self) -> BIrTermView<Var> {
        match *self {
            BIrTerminator::Jmp(t) => BIrTermView::Jmp(t@),
            BIrTerminator::CondJmp { val, then_target, else_target } => BIrTermView::CondJmp {
                val,
                then_target: then_target@,
                else_target: else_target@,
            },
        }
    }
}

impl Clone for BIrTerminator {
    fn clone(&self) -> (r: Self)
        ensures
            r@ == self@,
    {
        match self {
            BIrTerminator::Jmp(t) => BIrTerminator::Jmp(t.clone()),
            BIrTerminator::CondJmp { val, then_target, else_target } => BIrTerminator::CondJmp {
                val: *val,
                then_target: then_target.clone(),
                else_target: else_target.clone(),
            },
        }
    }
}

impl BIrTerminator {
    /// Whether two terminators are the same.
    pub fn same(&self, other: &BIrTerminator) -> (r: bool)
        ensures
            r == (self@ == other@),
    {
        match (self, other) {
            (BIrTerminator::Jmp(a), BIrTerminator::Jmp(b)) => a.same(b),
            (
                BIrTerminator::CondJmp { val: v1, then_target: t1, else_target: e1 },
                BIrTerminator::CondJmp { val: v2, then_target: t2, else_target: e2 },
            ) => *v1 == *v2 && t1.same(t2) && e1.same(e2),
            _ => false,
        }
    }
}

/// A run of cells of one lane with known initial contents.
#[derive(PartialEq, Eq, PartialOrd, Ord, Hash, Debug)]
pub struct BIrPreInitSegment {
    pub storage: StorageId,
    pub lane: LaneId,
    pub offset: u64,
    pub data: Vec<bool>,
}

/// What a [`BIrPreInitSegment`] denotes.
#[verifier::ext_equal]
pub struct BIrPreInitView {
    pub storage: StorageId,
    pub lane: LaneId,
    pub offset: u64,
    pub data: Seq<bool>,
}

impl View for BIrPreInitSegment {
    type V = BIrPreInitView;

    open spec fn view(&self) -> BIrPreInitView {
        BIrPreInitView {
            storage: self.storage,
            lane: self.lane,
            offset: self.offset,
            data: self.data@,
        }
    }
}

impl Clone for BIrPreInitSegment {
    fn clone(&self) -> (r: Self)
        ensures
            r@ == self@,
    {
        BIrPreInitSegment {
            storage: self.storage,
            lane: self.lane,
            offset: self.offset,
            data: self.data.clone(),
        }
    }
}

/// The views of a list of segments.
pub open spec fn bir_pre_init_views(s: Seq<BIrPreInitSegment>) -> Seq<BIrPreInitView> {
    s.map_values(|d: BIrPreInitSegment| d@)
}

/// A copy of a list of segments.
pub fn clone_bir_pre_init(s: &Vec<BIrPreInitSegment>) -> (r: Vec<BIrPreInitSegment>)
    ensures
        bir_pre_init_views(r@) == bir_pre_init_views(s@),
{
    let mut out: Vec<BIrPreInitSegment> = Vec::new();
    let mut i: usize = 0;
    while i < s.len()
        invariant
            i <= s.len(),
            out@.len() == i,
            forall|j: int| 0 <= j < i ==> (#[trigger] out@[j])@ == s@[j]@,
        decreases s.len() - i,
    {
        out.push(s[i].clone());
        i += 1;
    }
    assert(bir_pre_init_views(out@) =~= bir_pre_init_views(s@));
    out
}

/// A boolean block: a number of parameter bits, statements, and how it ends.
#[derive(PartialEq, Eq, PartialOrd, Ord, Hash, Debug)]
pub struct BIrBlock<P = ()> {
    pub params: u32,
    pub stmts: Vec<Node<BIrStmt, P>>,
    pub terminator: BIrTerminator,
}

/// What a [`BIrBlock`] denotes, its annotations left aside.
#[verifier::ext_equal]
pub struct BIrBlockView {
    pub params: u32,
    pub stmts: Seq<BIrStmtView>,
    pub terminator: BIrTermView,
}

/// The statements of a list of nodes.
pub open spec fn bir_node_kinds<P>(s: Seq<Node<BIrStmt, P>>) -> Seq<BIrStmtView> {
    s.map_values(|n: Node<BIrStmt, P>| n.kind@)
}

impl<P> View for BIrBlock<P> {
    type V = BIrBlockView;

    open spec fn view(&self) -> BIrBlockView {
        BIrBlockView {
            params: self.params,
            stmts: bir_node_kinds(self.stmts@),
            terminator: self.terminator@,
        }
    }
}

impl BIrBlockView {
    /// The number of variables of the block.
    pub open spec fn var_space(self) -> nat {
        self.params as nat + self.stmts.len()
    }
}

/// A boolean module. Block 0 is the entry.
#[derive(PartialEq, Eq, PartialOrd, Ord, Hash, Debug)]
pub struct BIrBlocks<P = ()> {
    pub blocks: Vec<BIrBlock<P>>,
    pub pre_init: Vec<BIrPreInitSegment>,
}

/// What a [`BIrBlocks`] denotes, its annotations left aside.
#[verifier::ext_equal]
pub struct BIrBlocksView {
    pub blocks: Seq<BIrBlockView>,
    pub pre_init: Seq<BIrPreInitView>,
}

/// The views of a list of boolean blocks.
pub open spec fn bir_block_views<P>(s: Seq<BIrBlock<P>>) -> Seq<BIrBlockView> {
    s.map_values(|b: BIrBlock<P>| b@)
}

impl<P> View for BIrBlocks<P> {
    type V = BIrBlocksView;

    open spec fn view(&self) -> BIrBlocksView {
        BIrBlocksView {
            blocks: bir_block_views(self.blocks@),
            pre_init: bir_pre_init_views(self.pre_init@),
        }
    }
}

/// Whether a boolean block only returns.
pub open spec fn bir_returns_only(t: BIrTermView) -> bool {
    t matches BIrTermView::Jmp(target) && target.block is Return
}

/// Whether `to` is `from` with every provenance annotation translated by
/// `handler` and nothing else changed.
pub open spec fn bir_block_prov_mapped<P, H: ProvenanceHandler<P>>(
    handler: &H,
    from: BIrBlock<P>,
    to: BIrBlock<H::Output>,
) -> bool {
    &&& to.params == from.params
    &&& to.terminator == from.terminator
    &&& to.stmts@.len() == from.stmts@.len()
    &&& forall|i: int|
        0 <= i < to.stmts@.len() ==> prov_mapped(handler, from.stmts@[i], #[trigger] to.stmts@[i])
}

impl<P> BIrBlocks<P> {
    /// Whether the module has exactly one block.
    pub fn is_movfuscated(&self) -> (r: bool)
        ensures
            r == (self@.blocks.len() == 1),
    {
        self.blocks.len() == 1
    }

    /// Whether the module is one block that only returns.
    pub fn is_circuit(&self) -> (r: bool)
        ensures
            r == (self@.blocks.len() == 1 && bir_returns_only(self@.blocks[0].terminator)),
    {
        self.is_movfuscated() && match &self.blocks[0].terminator {
            BIrTerminator::Jmp(target) => match target.block {
                IRBlockTargetId::Return => true,
                _ => false,
            },
            _ => false,
        }
    }

    /// The module with every provenance annotation translated by `handler`, which
    /// is asked for one statement after the other, from the first to the last.
    pub fn map_prov_with_handler<H: ProvenanceHandler<P>>(
        self,
        handler: &H,
    ) -> (r: BIrBlocks<H::Output>)
        requires
            forall|p: &P| call_requires(H::map, (handler, p)),
        ensures
            r.pre_init == self.pre_init,
            r.blocks@.len() == self.blocks@.len(),
            forall|i: int|
                0 <= i < r.blocks@.len() ==> bir_block_prov_mapped(
                    handler,
                    self.blocks@[i],
                    #[trigger] r.blocks@[i],
                ),
    {
        let ghost all = self.blocks@;
        let mut rest = turned(self.blocks);
        let mut blocks: Vec<BIrBlock<H::Output>> = Vec::new();
        while rest.len() > 0
            invariant
                forall|p: &P| call_requires(H::map, (handler, p)),
                rest@.len() + blocks@.len() == all.len(),
                forall|i: int|
                    0 <= i < rest@.len() ==> #[trigger] rest@[i] == all[all.len() - 1 - i],
                forall|i: int|
                    0 <= i < blocks@.len() ==> bir_block_prov_mapped(
                        handler,
                        all[i],
                        #[trigger] blocks@[i],
                    ),
            decreases rest@.len(),
        {
            assert(rest@[rest@.len() - 1] == all[blocks@.len() as int]);
            let block = rest.pop().unwrap();
            assert(block == all[blocks@.len() as int]);
            blocks.push(block.map_prov_with_handler(handler));
        }
        BIrBlocks { blocks, pre_init: self.pre_init }
    }
}

impl<P> BIrBlock<P> {
    /// Append a statement without a side.
    pub fn push_stmt(&mut self, stmt: BIrStmt, prov: P)
        ensures
            final(self).params == old(self).params,
            final(self).terminator == old(self).terminator,
            final(self).stmts@ == old(self).stmts@.push(Node { kind: stmt, prov, side: None }),
    {
        self.push_stmt_with_side(stmt, prov, None);
    }

    /// Append a statement.
    pub fn push_stmt_with_side(&mut self, stmt: BIrStmt, prov: P, side: Option<SideId>)
        ensures
            final(self).params == old(self).params,
            final(self).terminator == old(self).terminator,
            final(self).stmts@ == old(self).stmts@.push(Node { kind: stmt, prov, side }),
    {
        self.stmts.push(Node::new(stmt, prov, side));
    }

    /// The block with every provenance annotation translated by `handler`.
    pub fn map_prov_with_handler<H: ProvenanceHandler<P>>(
        self,
        handler: &H,
    ) -> (r: BIrBlock<H::Output>)
        requires
            forall|p: &P| call_requires(H::map, (handler, p)),
        ensures
            bir_block_prov_mapped(handler, self, r),
    {
        BIrBlock {
            params: self.params,
            stmts: map_prov_nodes(self.stmts, handler),
            terminator: self.terminator,
        }
    }
}

} // verus!
