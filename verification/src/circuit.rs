//! Circuits: programs of one block that only returns, with that shape built
//! into the type.

use vstd::prelude::*;

use crate::boolar::{
    bir_node_kinds, bir_pre_init_views, bir_returns_only, clone_bir_pre_init, BIrBlock,
    BIrBlockView, BIrBlocks, BIrBlocksView, BIrPreInitSegment, BIrPreInitView, BIrStmt,
    BIrStmtView, BIrTarget, BIrTargetView, BIrTermView, BIrTerminator,
};
use crate::common::{map_prov_nodes, prov_mapped, Node, ProvenanceHandler, SideId};
use crate::fmt::{dec, push_dec};
use crate::ir::{
    branch_to, node_kinds, returns_only, IRBlock, IRBlockTargetId, IRBlockView, IRBlocks,
    IRBlocksView, IRBranchTarget, IRStmt, IRTerminator, IRTypeId, IRVarId, StmtView, TermView,
};

verus! {

/// Why a program could not be fused into a circuit.
#[derive(Clone, Copy, PartialEq, Eq, Debug, Structural)]
pub enum CircuitFusionError {
    /// The program does not have exactly one block.
    NotSingleBlock { found: usize },
    /// The block does something other than return.
    NotReturnTerminator,
    /// The program has declarations or initial storage, which the circuit
    /// cannot carry.
    ModuleLevelStateUnsupported,
    /// An output is not a variable of the block.
    OutputVarOutOfRange { var: u32, var_space: u32 },
}

impl CircuitFusionError {
    /// The text of the error.
    pub open spec fn text(self) -> Seq<char> {
        match self {
            CircuitFusionError::NotSingleBlock { found } =>
            "circuit fusion requires exactly one block, found "@ + dec(found as nat),
            CircuitFusionError::NotReturnTerminator =>
            "circuit fusion requires a `Jmp { dest: Return }` terminator"@,
            CircuitFusionError::ModuleLevelStateUnsupported =>
            "VCircuit fusion rejects oracle/action/RNG declarations and pre-init segments"@,
            CircuitFusionError::OutputVarOutOfRange { var, var_space } => "output var "@ + dec(
                var as nat,
            ) + " out of range (var space size "@ + dec(var_space as nat) + ")"@,
        }
    }

    /// The text of the error.
    pub fn message(&self) -> (r: String)
        ensures
            r@ == self.text(),
    {
        let mut s = String::new();
        match self {
            CircuitFusionError::NotSingleBlock { found } => {
                s.push_str("circuit fusion requires exactly one block, found ");
                push_dec(&mut s, *found as u128);
            },
            CircuitFusionError::NotReturnTerminator => {
                s.push_str("circuit fusion requires a `Jmp { dest: Return }` terminator");
            },
            CircuitFusionError::ModuleLevelStateUnsupported => {
                s.push_str(
                    "VCircuit fusion rejects oracle/action/RNG declarations and pre-init segments",
                );
            },
            CircuitFusionError::OutputVarOutOfRange { var, var_space } => {
                s.push_str("output var ");
                push_dec(&mut s, *var as u128);
                s.push_str(" out of range (var space size ");
                push_dec(&mut s, *var_space as u128);
                s.push_str(")");
            },
        }
        assert(s@ =~= self.text());
        s
    }
}

/// The first output that is not below `var_space`.
pub open spec fn output_error(outputs: Seq<IRVarId>, var_space: u32) -> Option<CircuitFusionError>
    decreases outputs.len(),
{
    if outputs.len() == 0 {
        None
    } else if outputs[0].0 >= var_space {
        Some(CircuitFusionError::OutputVarOutOfRange { var: outputs[0].0, var_space })
    } else {
        output_error(outputs.drop_first(), var_space)
    }
}

/// Check that every output is below `var_space`.
fn check_outputs(outputs: &Vec<IRVarId>, var_space: u32) -> (r: Result<(), CircuitFusionError>)
    ensures
        match r {
            Ok(_) => output_error(outputs@, var_space) is None,
            Err(e) => output_error(outputs@, var_space) == Some(e),
        },
{
    let mut i: usize = 0;
    assert(outputs@.skip(0) =~= outputs@);
    while i < outputs.len()
        invariant
            i <= outputs.len(),
            output_error(outputs@, var_space) == output_error(outputs@.skip(i as int), var_space),
        decreases outputs.len() - i,
    {
        assert(outputs@.skip(i as int)[0] == outputs@[i as int]);
        assert(outputs@.skip(i as int).drop_first() =~= outputs@.skip(i + 1));
        if outputs[i].0 >= var_space {
            return Err(CircuitFusionError::OutputVarOutOfRange { var: outputs[i].0, var_space });
        }
        i += 1;
    }
    Ok(())
}

/// Outputs are in range exactly if each of them is.
pub proof fn lemma_output_error_none(outputs: Seq<IRVarId>, var_space: u32)
    ensures
        output_error(outputs, var_space) is None <==> forall|i: int|
            0 <= i < outputs.len() ==> (#[trigger] outputs[i]).0 < var_space,
    decreases outputs.len(),
{
    if outputs.len() > 0 {
        let rest = outputs.drop_first();
        lemma_output_error_none(rest, var_space);
        if output_error(outputs, var_space) is None {
            assert forall|i: int| 0 <= i < outputs.len() implies (#[trigger] outputs[i]).0
                < var_space by {
                if i > 0 {
                    assert(outputs[i] == rest[i - 1]);
                }
            }
        } else if forall|i: int| 0 <= i < outputs.len() ==> (#[trigger] outputs[i]).0 < var_space {
            assert(outputs[0].0 < var_space);
            assert forall|i: int| 0 <= i < rest.len() implies (#[trigger] rest[i]).0
                < var_space by {
                assert(rest[i] == outputs[i + 1]);
            }
        }
    }
}

/// Whether `to` is a copy of the typed node `from`.
pub open spec fn node_copied<P: Clone>(from: Node<IRStmt, P>, to: Node<IRStmt, P>) -> bool {
    to.kind@ == from.kind@ && to.side == from.side && cloned(from.prov, to.prov)
}

/// Whether `to` is a copy of the boolean node `from`.
pub open spec fn bir_node_copied<P: Clone>(from: Node<BIrStmt, P>, to: Node<BIrStmt, P>) -> bool {
    to.kind@ == from.kind@ && to.side == from.side && cloned(from.prov, to.prov)
}

/// A copy of a list of typed nodes.
pub fn clone_nodes<P: Clone>(nodes: &Vec<Node<IRStmt, P>>) -> (r: Vec<Node<IRStmt, P>>)
    ensures
        r@.len() == nodes@.len(),
        forall|i: int| 0 <= i < r@.len() ==> node_copied(nodes@[i], #[trigger] r@[i]),
        node_kinds(r@) == node_kinds(nodes@),
{
    let mut out: Vec<Node<IRStmt, P>> = Vec::new();
    let mut i: usize = 0;
    while i < nodes.len()
        invariant
            i <= nodes.len(),
            out@.len() == i,
            forall|j: int| 0 <= j < i ==> node_copied(nodes@[j], #[trigger] out@[j]),
        decreases nodes.len() - i,
    {
        out.push(Node::new(nodes[i].kind.clone(), nodes[i].prov.clone(), nodes[i].side));
        i += 1;
    }
    assert(node_kinds(out@) =~= node_kinds(nodes@));
    out
}

/// A copy of a list of boolean nodes.
pub fn clone_bir_nodes<P: Clone>(nodes: &Vec<Node<BIrStmt, P>>) -> (r: Vec<Node<BIrStmt, P>>)
    ensures
        r@.len() == nodes@.len(),
        forall|i: int| 0 <= i < r@.len() ==> bir_node_copied(nodes@[i], #[trigger] r@[i]),
        bir_node_kinds(r@) == bir_node_kinds(nodes@),
{
    let mut out: Vec<Node<BIrStmt, P>> = Vec::new();
    let mut i: usize = 0;
    while i < nodes.len()
        invariant
            i <= nodes.len(),
            out@.len() == i,
            forall|j: int| 0 <= j < i ==> bir_node_copied(nodes@[j], #[trigger] out@[j]),
        decreases nodes.len() - i,
    {
        out.push(Node::new(nodes[i].kind.clone(), nodes[i].prov.clone(), nodes[i].side));
        i += 1;
    }
    assert(bir_node_kinds(out@) =~= bir_node_kinds(nodes@));
    out
}

// ---------------------------------------------------------------------------
// Typed circuits
// ---------------------------------------------------------------------------

/// A typed circuit: inputs, statements, and the variables it returns.
#[derive(PartialEq, Eq, PartialOrd, Ord, Hash, Debug)]
pub struct VCircuit<P = ()> {
    pub params: Vec<IRTypeId>,
    pub stmts: Vec<Node<IRStmt, P>>,
    pub outputs: Vec<IRVarId>,
}

/// Why a typed program cannot be fused, if it cannot: declarations and initial
/// storage first, then the number of blocks, how the block ends, and its
/// outputs.
pub open spec fn v_fusion_error(m: IRBlocksView) -> Option<CircuitFusionError> {
    if m.oracles.len() > 0 || m.actions.len() > 0 || m.rngs.len() > 0 || m.pre_init.len() > 0 {
        Some(CircuitFusionError::ModuleLevelStateUnsupported)
    } else if m.blocks.len() != 1 {
        Some(CircuitFusionError::NotSingleBlock { found: m.blocks.len() as usize })
    } else if !returns_only(m.blocks[0].terminator) {
        Some(CircuitFusionError::NotReturnTerminator)
    } else {
        output_error(
            m.blocks[0].terminator->target.args,
            m.blocks[0].var_space() as u32,
        )
    }
}

impl<P: Clone> VCircuit<P> {
    /// A circuit with the given inputs and nothing else.
    pub fn new(params: Vec<IRTypeId>) -> (r: Self)
        ensures
            r.params == params,
            r.stmts@.len() == 0,
            r.outputs@.len() == 0,
    {
        VCircuit { params, stmts: Vec::new(), outputs: Vec::new() }
    }

    /// Append a statement without a side. The result is its variable.
    pub fn push_stmt(&mut self, stmt: IRStmt, prov: P) -> (id: IRVarId)
        requires
            old(self).params@.len() + old(self).stmts@.len() <= u32::MAX,
        ensures
            id.0 == old(self).params@.len() + old(self).stmts@.len(),
            final(self).params == old(self).params,
            final(self).outputs == old(self).outputs,
            final(self).stmts@ == old(self).stmts@.push(Node { kind: stmt, prov, side: None }),
    {
        self.push_stmt_with_side(stmt, prov, None)
    }

    /// Append a statement. The result is its variable.
    pub fn push_stmt_with_side(&mut self, stmt: IRStmt, prov: P, side: Option<SideId>) -> (id:
        IRVarId)
        requires
            old(self).params@.len() + old(self).stmts@.len() <= u32::MAX,
        ensures
            id.0 == old(self).params@.len() + old(self).stmts@.len(),
            final(self).params == old(self).params,
            final(self).outputs == old(self).outputs,
            final(self).stmts@ == old(self).stmts@.push(Node { kind: stmt, prov, side }),
    {
        let id = IRVarId(self.params.len() as u32 + self.stmts.len() as u32);
        self.stmts.push(Node::new(stmt, prov, side));
        id
    }

    /// Fuse a program into a circuit, if it has the shape of one.
    pub fn try_from_ir(blocks: &IRBlocks<P>) -> (r: Result<Self, CircuitFusionError>)
        requires
            forall|i: int|
                0 <= i < blocks@.blocks.len() ==> (#[trigger] blocks@.blocks[i]).var_space()
                    <= u32::MAX,
        ensures
            match r {
                Ok(c) => {
                    &&& v_fusion_error(blocks@) is None
                    &&& c.params@ == blocks.blocks@[0].params@
                    &&& c.outputs@ == blocks@.blocks[0].terminator->target.args
                    &&& c.stmts@.len() == blocks.blocks@[0].stmts@.len()
                    &&& node_kinds(c.stmts@) == blocks@.blocks[0].stmts
                    &&& forall|i: int|
                        0 <= i < c.stmts@.len() ==> node_copied(
                            blocks.blocks@[0].stmts@[i],
                            #[trigger] c.stmts@[i],
                        )
                },
                Err(e) => v_fusion_error(blocks@) == Some(e),
            },
    {
        if blocks.oracles.len() > 0 || blocks.actions.len() > 0 || blocks.rngs.len() > 0
            || blocks.pre_init.len() > 0 {
            return Err(CircuitFusionError::ModuleLevelStateUnsupported);
        }
        if blocks.blocks.len() != 1 {
            return Err(CircuitFusionError::NotSingleBlock { found: blocks.blocks.len() });
        }
        let block = &blocks.blocks[0];
        assert(blocks@.blocks[0] == block@);
        let outputs = match &block.terminator {
            IRTerminator::Jmp { target } => match target.dest {
                IRBlockTargetId::Return => target.args.clone(),
                _ => {
                    return Err(CircuitFusionError::NotReturnTerminator);
                },
            },
            _ => {
                return Err(CircuitFusionError::NotReturnTerminator);
            },
        };
        let var_space: u32 = block.params.len() as u32 + block.stmts.len() as u32;
        match check_outputs(&outputs, var_space) {
            Ok(_) => {},
            Err(e) => {
                return Err(e);
            },
        }
        Ok(VCircuit { params: block.params.clone(), stmts: clone_nodes(&block.stmts), outputs })
    }

    /// The circuit with every provenance annotation translated by `handler`.
    pub fn map_prov_with_handler<H: ProvenanceHandler<P>>(
        self,
        handler: &H,
    ) -> (r: VCircuit<H::Output>)
        requires
            forall|p: &P| call_requires(H::map, (handler, p)),
        ensures
            r.params == self.params,
            r.outputs == self.outputs,
            r.stmts@.len() == self.stmts@.len(),
            forall|i: int|
                0 <= i < r.stmts@.len() ==> prov_mapped(
                    handler,
                    self.stmts@[i],
                    #[trigger] r.stmts@[i],
                ),
    {
        VCircuit {
            params: self.params,
            stmts: map_prov_nodes(self.stmts, handler),
            outputs: self.outputs,
        }
    }

    /// The program of one block that the circuit stands for.
    pub fn to_ir_blocks(self) -> (r: IRBlocks<P>)
        ensures
            r@ == v_program(self.params@, node_kinds(self.stmts@), self.outputs@),
            r.blocks@[0].stmts == self.stmts,
    {
        let terminator = IRTerminator::Jmp {
            target: IRBranchTarget::new(IRBlockTargetId::Return, self.outputs),
        };
        let mut blocks: Vec<IRBlock<P>> = Vec::new();
        blocks.push(IRBlock { params: self.params, stmts: self.stmts, terminator });
        let r = IRBlocks::new(blocks);
        assert(r@ =~= v_program(self.params@, node_kinds(self.stmts@), self.outputs@));
        r
    }
}

// ---------------------------------------------------------------------------
// Boolean circuits
// ---------------------------------------------------------------------------

/// A boolean circuit: input bits, statements, initial storage, and the
/// variables it returns.
#[derive(PartialEq, Eq, PartialOrd, Ord, Hash, Debug)]
pub struct BCircuit<P = ()> {
    pub params: u32,
    pub stmts: Vec<Node<BIrStmt, P>>,
    pub pre_init: Vec<BIrPreInitSegment>,
    pub outputs: Vec<IRVarId>,
}

/// Why a boolean program cannot be fused, if it cannot.
pub open spec fn b_fusion_error(m: BIrBlocksView) -> Option<CircuitFusionError> {
    if m.blocks.len() != 1 {
        Some(CircuitFusionError::NotSingleBlock { found: m.blocks.len() as usize })
    } else if !bir_returns_only(m.blocks[0].terminator) {
        Some(CircuitFusionError::NotReturnTerminator)
    } else {
        output_error(m.blocks[0].terminator->Jmp_0.args, m.blocks[0].var_space() as u32)
    }
}

impl<P: Clone> BCircuit<P> {
    /// A circuit with the given number of input bits and nothing else.
    pub fn new(params: u32) -> (r: Self)
        ensures
            r.params == params,
            r.stmts@.len() == 0,
            r.pre_init@.len() == 0,
            r.outputs@.len() == 0,
    {
        BCircuit { params, stmts: Vec::new(), pre_init: Vec::new(), outputs: Vec::new() }
    }

    /// Append a statement without a side. The result is its variable.
    pub fn push_stmt(&mut self, stmt: BIrStmt, prov: P) -> (id: IRVarId)
        requires
            old(self).params + old(self).stmts@.len() <= u32::MAX,
        ensures
            id.0 == old(self).params + old(self).stmts@.len(),
            final(self).params == old(self).params,
            final(self).pre_init == old(self).pre_init,
            final(self).outputs == old(self).outputs,
            final(self).stmts@ == old(self).stmts@.push(Node { kind: stmt, prov, side: None }),
    {
        self.push_stmt_with_side(stmt, prov, None)
    }

    /// Append a statement. The result is its variable.
    pub fn push_stmt_with_side(&mut self, stmt: BIrStmt, prov: P, side: Option<SideId>) -> (id:
        IRVarId)
        requires
            old(self).params + old(self).stmts@.len() <= u32::MAX,
        ensures
            id.0 == old(self).params + old(self).stmts@.len(),
            final(self).params == old(self).params,
            final(self).pre_init == old(self).pre_init,
            final(self).outputs == old(self).outputs,
            final(self).stmts@ == old(self).stmts@.push(Node { kind: stmt, prov, side }),
    {
        let id = IRVarId(self.params + self.stmts.len() as u32);
        self.stmts.push(Node::new(stmt, prov, side));
        id
    }

    /// The number of variables: the inputs and one for each statement.
    pub fn var_space(&self) -> (r: u32)
        requires
            self.params + self.stmts@.len() <= u32::MAX,
        ensures
            r == self.params + self.stmts@.len(),
    {
        self.params + self.stmts.len() as u32
    }

    /// Fuse a program into a circuit, if it has the shape of one.
    pub fn try_from_ir(blocks: &BIrBlocks<P>) -> (r: Result<Self, CircuitFusionError>)
        requires
            forall|i: int|
                0 <= i < blocks@.blocks.len() ==> (#[trigger] blocks@.blocks[i]).var_space()
                    <= u32::MAX,
        ensures
            match r {
                Ok(c) => {
                    &&& b_fusion_error(blocks@) is None
                    &&& c.params == blocks.blocks@[0].params
                    &&& c.outputs@ == blocks@.blocks[0].terminator->Jmp_0.args
                    &&& bir_pre_init_views(c.pre_init@) == blocks@.pre_init
                    &&& c.stmts@.len() == blocks.blocks@[0].stmts@.len()
                    &&& bir_node_kinds(c.stmts@) == blocks@.blocks[0].stmts
                    &&& forall|i: int|
                        0 <= i < c.stmts@.len() ==> bir_node_copied(
                            blocks.blocks@[0].stmts@[i],
                            #[trigger] c.stmts@[i],
                        )
                },
                Err(e) => b_fusion_error(blocks@) == Some(e),
            },
    {
        if blocks.blocks.len() != 1 {
            return Err(CircuitFusionError::NotSingleBlock { found: blocks.blocks.len() });
        }
        let block = &blocks.blocks[0];
        assert(blocks@.blocks[0] == block@);
        let outputs = match &block.terminator {
            BIrTerminator::Jmp(target) => match target.block {
                IRBlockTargetId::Return => target.args.clone(),
                _ => {
                    return Err(CircuitFusionError::NotReturnTerminator);
                },
            },
            _ => {
                return Err(CircuitFusionError::NotReturnTerminator);
            },
        };
        let var_space: u32 = block.params + block.stmts.len() as u32;
        match check_outputs(&outputs, var_space) {
            Ok(_) => {},
            Err(e) => {
                return Err(e);
            },
        }
        Ok(
            BCircuit {
                params: block.params,
                stmts: clone_bir_nodes(&block.stmts),
                pre_init: clone_bir_pre_init(&blocks.pre_init),
                outputs,
            },
        )
    }

    /// The circuit with every provenance annotation translated by `handler`.
    pub fn map_prov_with_handler<H: ProvenanceHandler<P>>(
        self,
        handler: &H,
    ) -> (r: BCircuit<H::Output>)
        requires
            forall|p: &P| call_requires(H::map, (handler, p)),
        ensures
            r.params == self.params,
            r.pre_init == self.pre_init,
            r.outputs == self.outputs,
            r.stmts@.len() == self.stmts@.len(),
            forall|i: int|
                0 <= i < r.stmts@.len() ==> prov_mapped(
                    handler,
                    self.stmts@[i],
                    #[trigger] r.stmts@[i],
                ),
    {
        BCircuit {
            params: self.params,
            stmts: map_prov_nodes(self.stmts, handler),
            pre_init: self.pre_init,
            outputs: self.outputs,
        }
    }

    /// The program of one block that the circuit stands for.
    pub fn to_bir_blocks(self) -> (r: BIrBlocks<P>)
        ensures
            r@ == b_program(
                self.params,
                bir_node_kinds(self.stmts@),
                self.outputs@,
                bir_pre_init_views(self.pre_init@),
            ),
            r.blocks@[0].stmts == self.stmts,
    {
        let terminator = BIrTerminator::Jmp(
            BIrTarget { block: IRBlockTargetId::Return, args: self.outputs },
        );
        let mut blocks: Vec<BIrBlock<P>> = Vec::new();
        blocks.push(BIrBlock { params: self.params, stmts: self.stmts, terminator });
        let r = BIrBlocks { blocks, pre_init: self.pre_init };
        assert(r@ =~= b_program(
            self.params,
            bir_node_kinds(self.stmts@),
            self.outputs@,
            bir_pre_init_views(self.pre_init@),
        ));
        r
    }
}

// ---------------------------------------------------------------------------
// Laws
// ---------------------------------------------------------------------------

/// The typed program of one block that returns `outputs`.
pub open spec fn v_program(
    params: Seq<IRTypeId>,
    stmts: Seq<StmtView>,
    outputs: Seq<IRVarId>,
) -> IRBlocksView {
    IRBlocksView {
        oracles: Seq::empty(),
        actions: Seq::empty(),
        rngs: Seq::empty(),
        blocks: seq![
            IRBlockView {
                params,
                stmts,
                terminator: TermView::Jmp { target: branch_to(IRBlockTargetId::Return, outputs) },
            },
        ],
        pre_init: Seq::empty(),
    }
}

/// The boolean program of one block that returns `outputs`.
pub open spec fn b_program(
    params: u32,
    stmts: Seq<BIrStmtView>,
    outputs: Seq<IRVarId>,
    pre_init: Seq<BIrPreInitView>,
) -> BIrBlocksView {
    BIrBlocksView {
        blocks: seq![
            BIrBlockView {
                params,
                stmts,
                terminator: BIrTermView::Jmp(
                    BIrTargetView { block: IRBlockTargetId::Return, args: outputs },
                ),
            },
        ],
        pre_init,
    }
}

/// The program of a typed circuit whose outputs are in range can be fused
/// again, and its block has exactly the parts of the circuit.
pub proof fn law_v_unfuse_then_fuse(
    params: Seq<IRTypeId>,
    stmts: Seq<StmtView>,
    outputs: Seq<IRVarId>,
)
    requires
        params.len() + stmts.len() <= u32::MAX,
        forall|i: int|
            0 <= i < outputs.len() ==> (#[trigger] outputs[i]).0 < params.len() + stmts.len(),
    ensures
        v_fusion_error(v_program(params, stmts, outputs)) is None,
        v_program(params, stmts, outputs).blocks[0].params == params,
        v_program(params, stmts, outputs).blocks[0].stmts == stmts,
        v_program(params, stmts, outputs).blocks[0].terminator->target.args == outputs,
{
    lemma_output_error_none(outputs, (params.len() + stmts.len()) as u32);
}

/// Fusing a typed program and taking the program of the result gives the
/// program back, unless its return carried a termination hint.
pub proof fn law_v_fuse_then_unfuse(m: IRBlocksView)
    requires
        v_fusion_error(m) is None,
        m.blocks[0].terminator->target.reentry is None,
    ensures
        v_program(
            m.blocks[0].params,
            m.blocks[0].stmts,
            m.blocks[0].terminator->target.args,
        ) == m,
{
    let r = v_program(
        m.blocks[0].params,
        m.blocks[0].stmts,
        m.blocks[0].terminator->target.args,
    );
    assert(r.blocks =~= m.blocks);
    assert(r =~= m);
}

/// The program of a boolean circuit whose outputs are in range can be fused
/// again, and has exactly the parts of the circuit.
pub proof fn law_b_unfuse_then_fuse(
    params: u32,
    stmts: Seq<BIrStmtView>,
    outputs: Seq<IRVarId>,
    pre_init: Seq<BIrPreInitView>,
)
    requires
        params + stmts.len() <= u32::MAX,
        forall|i: int|
            0 <= i < outputs.len() ==> (#[trigger] outputs[i]).0 < params + stmts.len(),
    ensures
        b_fusion_error(b_program(params, stmts, outputs, pre_init)) is None,
        b_program(params, stmts, outputs, pre_init).blocks[0].params == params,
        b_program(params, stmts, outputs, pre_init).blocks[0].stmts == stmts,
        b_program(params, stmts, outputs, pre_init).blocks[0].terminator->Jmp_0.args == outputs,
        b_program(params, stmts, outputs, pre_init).pre_init == pre_init,
{
    lemma_output_error_none(outputs, (params + stmts.len()) as u32);
}

/// Fusing a boolean program and taking the program of the result gives the
/// program back.
pub proof fn law_b_fuse_then_unfuse(m: BIrBlocksView)
    requires
        b_fusion_error(m) is None,
    ensures
        b_program(
            m.blocks[0].params,
            m.blocks[0].stmts,
            m.blocks[0].terminator->Jmp_0.args,
            m.pre_init,
        ) == m,
{
    let r = b_program(
        m.blocks[0].params,
        m.blocks[0].stmts,
        m.blocks[0].terminator->Jmp_0.args,
        m.pre_init,
    );
    assert(r.blocks =~= m.blocks);
    assert(r =~= m);
}

/// What is said of a program that is no circuit.
pub proof fn law_fusion_messages(e: CircuitFusionError)
    ensures
        match e {
            CircuitFusionError::NotSingleBlock { found } => e.text()
                == "circuit fusion requires exactly one block, found "@ + dec(found as nat),
            CircuitFusionError::NotReturnTerminator => e.text()
                == "circuit fusion requires a `Jmp { dest: Return }` terminator"@,
            CircuitFusionError::ModuleLevelStateUnsupported => e.text()
                == "VCircuit fusion rejects oracle/action/RNG declarations and pre-init segments"@,
            CircuitFusionError::OutputVarOutOfRange { var, var_space } => e.text() == "output var "@
                + dec(var as nat) + " out of range (var space size "@ + dec(var_space as nat) + ")"@,
        },
{
}

/// The first output that is no variable is the one that is told of.
pub proof fn law_first_bad_output(outputs: Seq<IRVarId>, var_space: u32, i: int)
    requires
        0 <= i <= outputs.len(),
        forall|j: int| 0 <= j < i ==> (#[trigger] outputs[j]).0 < var_space,
        i < outputs.len() ==> outputs[i].0 >= var_space,
    ensures
        output_error(outputs, var_space) == (if i < outputs.len() {
            Some(CircuitFusionError::OutputVarOutOfRange { var: outputs[i].0, var_space })
        } else {
            None
        }),
    decreases outputs.len(),
{
    if i > 0 {
        let rest = outputs.drop_first();
        assert(outputs[0].0 < var_space);
        assert forall|j: int| 0 <= j < i - 1 implies (#[trigger] rest[j]).0 < var_space by {
            assert(rest[j] == outputs[j + 1]);
        }
        law_first_bad_output(rest, var_space, i - 1);
    }
}

proof fn lemma_outputs(outputs: Seq<IRVarId>, var_space: u32)
    ensures
        output_error(outputs, var_space) is None <==> forall|i: int|
            0 <= i < outputs.len() ==> (#[trigger] outputs[i]).0 < var_space,
    decreases outputs.len(),
{
    if outputs.len() > 0 {
        let rest = outputs.drop_first();
        lemma_outputs(rest, var_space);
        assert forall|i: int| 0 <= i < rest.len() implies #[trigger] rest[i] == outputs[i + 1] by {}
        if forall|i: int| 0 <= i < rest.len() ==> (#[trigger] rest[i]).0 < var_space {
            assert forall|i: int| 0 < i < outputs.len() implies (#[trigger] outputs[i]).0
                < var_space by {
                assert(rest[i - 1] == outputs[i]);
            }
        }
    }
}

/// A typed program is a circuit exactly if it declares and initialises nothing
/// and is one block that returns variables of its own. What is told first: its
/// declarations, then the number of its blocks, then how it ends.
pub proof fn law_typed_circuit<P>(m: IRBlocks<P>)
    ensures
        v_fusion_error(m@) is None && m.blocks@.len() == 1 && m.blocks@[0].params@.len()
            + m.blocks@[0].stmts@.len() <= u32::MAX ==> match m.blocks@[0].terminator {
            IRTerminator::Jmp { target } => target.dest is Return && forall|i: int|
                0 <= i < target.args@.len() ==> (#[trigger] target.args@[i]).0
                    < m.blocks@[0].params@.len() + m.blocks@[0].stmts@.len(),
            _ => false,
        },
        v_fusion_error(m@) == Some(CircuitFusionError::ModuleLevelStateUnsupported) <==> (
        m.oracles@.len() > 0 || m.actions@.len() > 0 || m.rngs@.len() > 0 || m.pre_init@.len() > 0),
        m.oracles@.len() == 0 && m.actions@.len() == 0 && m.rngs@.len() == 0 && m.pre_init@.len()
            == 0 ==> {
            &&& m.blocks@.len() != 1 ==> v_fusion_error(m@) == Some(
                CircuitFusionError::NotSingleBlock { found: m.blocks@.len() as usize },
            )
            &&& m.blocks@.len() == 1 ==> match m.blocks@[0].terminator {
                IRTerminator::Jmp { target } => if target.dest is Return {
                    v_fusion_error(m@) == output_error(
                        target.args@,
                        (m.blocks@[0].params@.len() + m.blocks@[0].stmts@.len()) as u32,
                    )
                } else {
                    v_fusion_error(m@) == Some(CircuitFusionError::NotReturnTerminator)
                },
                _ => v_fusion_error(m@) == Some(CircuitFusionError::NotReturnTerminator),
            }
        },
{
    if m.blocks@.len() == 1 {
        let b = m.blocks@[0];
        assert(m@.blocks[0] == b@);
        if let IRTerminator::Jmp { target } = b.terminator {
            lemma_outputs(target.args@, (b.params@.len() + b.stmts@.len()) as u32);
            lemma_no_state_error(target.args@, (b.params@.len() + b.stmts@.len()) as u32);
        }
    }
}

proof fn lemma_no_state_error(outputs: Seq<IRVarId>, var_space: u32)
    ensures
        output_error(outputs, var_space) matches Some(e) ==> e is OutputVarOutOfRange,
    decreases outputs.len(),
{
    if outputs.len() > 0 {
        lemma_no_state_error(outputs.drop_first(), var_space);
    }
}

/// A boolean program is a circuit exactly if it is one block that returns
/// variables of its own; it may initialise storage.
pub proof fn law_boolean_circuit<P>(m: BIrBlocks<P>)
    ensures
        b_fusion_error(m@) is None && m.blocks@.len() == 1 && m.blocks@[0].params
            + m.blocks@[0].stmts@.len() <= u32::MAX ==> match m.blocks@[0].terminator {
            BIrTerminator::Jmp(target) => target.block is Return && forall|i: int|
                0 <= i < target.args@.len() ==> (#[trigger] target.args@[i]).0 < m.blocks@[0].params
                    + m.blocks@[0].stmts@.len(),
            _ => false,
        },
        m.blocks@.len() != 1 ==> b_fusion_error(m@) == Some(
            CircuitFusionError::NotSingleBlock { found: m.blocks@.len() as usize },
        ),
        m.blocks@.len() == 1 ==> match m.blocks@[0].terminator {
            BIrTerminator::Jmp(target) => if target.block is Return {
                b_fusion_error(m@) == output_error(
                    target.args@,
                    (m.blocks@[0].params + m.blocks@[0].stmts@.len()) as u32,
                )
            } else {
                b_fusion_error(m@) == Some(CircuitFusionError::NotReturnTerminator)
            },
            _ => b_fusion_error(m@) == Some(CircuitFusionError::NotReturnTerminator),
        },
{
    if m.blocks@.len() == 1 {
        let b = m.blocks@[0];
        assert(m@.blocks[0] == b@);
        if let BIrTerminator::Jmp(target) = b.terminator {
            lemma_outputs(target.args@, (b.params + b.stmts@.len()) as u32);
        }
    }
}

} // verus!
