//! Emission of the blocks of a virtualised module.

use vstd::prelude::*;

use crate::common::{Constant, Node, StorageId, TypeTable};
use crate::ir::{
    branch_to, case_views, node_kinds, vars_order, BranchView, IRBlock, IRBlockId, IRBlockTargetId,
    IRBlockView, IRBranchTarget, IRStmt, IRTerminator, IRTypeId, IRVarId, PolyCoeffs, Stmt,
    StmtView, TermView,
};
use crate::sorted::assoc_insert;
use crate::virt::canon::stmt_views;
use crate::virt::hash::{EmitterView, IrEmitter, IrHashAlgorithm};
use crate::virt::regs::{register_index, register_storage, registers, RegAlloc};
use crate::virt::schema::{const_u32, constant_of};

verus! {

/// The coefficients of the sum of two variables.
pub open spec fn xor_terms(a: IRVarId, b: IRVarId) -> Seq<(Seq<IRVarId>, u8)> {
    assoc_insert(
        assoc_insert(Seq::empty(), seq![a], 1u8, vars_order()),
        seq![b],
        1u8,
        vars_order(),
    )
}

/// The coefficients of the sum of two variables.
pub fn xor_coeffs(a: IRVarId, b: IRVarId) -> (r: PolyCoeffs)
    ensures
        r@ == xor_terms(a, b),
{
    let mut coeffs = PolyCoeffs::new();
    let mut first: Vec<IRVarId> = Vec::new();
    first.push(a);
    assert(first@ =~= seq![a]);
    coeffs.insert(first, 1);
    let mut second: Vec<IRVarId> = Vec::new();
    second.push(b);
    assert(second@ =~= seq![b]);
    coeffs.insert(second, 1);
    coeffs
}

// ---------------------------------------------------------------------------
// Blocks under construction
// ---------------------------------------------------------------------------

/// A block under construction.
#[derive(Debug)]
pub struct IRBlockUnfinished {
    pub params: Vec<IRTypeId>,
    pub stmts: Vec<IRStmt>,
    pub terminator: IRTerminator,
}

impl View for IRBlockUnfinished {
    type V = IRBlockView;

    open spec fn view(&self) -> IRBlockView {
        IRBlockView {
            params: self.params@,
            stmts: stmt_views(self.stmts@),
            terminator: self.terminator@,
        }
    }
}

/// The terminator of a block that returns nothing.
pub open spec fn return_nothing() -> TermView {
    TermView::Jmp { target: branch_to(IRBlockTargetId::Return, Seq::empty()) }
}

/// Whether every statement has the provenance `prov` and no side.
pub open spec fn controlled<P: Clone>(stmts: Seq<Node<IRStmt, P>>, prov: P) -> bool {
    forall|i: int|
        0 <= i < stmts.len() ==> cloned(prov, (#[trigger] stmts[i]).prov) && stmts[i].side is None
}

impl IRBlockUnfinished {
    /// A block without statements.
    pub fn new(params: Vec<IRTypeId>) -> (r: Self)
        ensures
            r@ == (IRBlockView {
                params: params@,
                stmts: Seq::empty(),
                terminator: return_nothing(),
            }),
    {
        let r = IRBlockUnfinished {
            params,
            stmts: Vec::new(),
            terminator: IRTerminator::Jmp {
                target: IRBranchTarget::new(IRBlockTargetId::Return, Vec::new()),
            },
        };
        assert(r@.stmts =~= Seq::empty());
        assert(r@.terminator == return_nothing());
        r
    }

    /// Append a statement and return the variable that it defines.
    pub fn push(&mut self, s: IRStmt) -> (id: IRVarId)
        requires
            old(self)@.var_space() < u32::MAX,
        ensures
            final(self)@ == (IRBlockView { stmts: old(self)@.stmts.push(s@), ..old(self)@ }),
            id.0 == old(self)@.var_space(),
    {
        let id = IRVarId(self.params.len() as u32 + self.stmts.len() as u32);
        let ghost before = self.stmts@;
        self.stmts.push(s);
        assert(stmt_views(self.stmts@) =~= stmt_views(before).push(s@));
        id
    }

    /// The finished block. Every statement gets the provenance `ctrl_prov`.
    pub fn into_ir_block<P: Clone>(self, ctrl_prov: &P) -> (r: IRBlock<P>)
        ensures
            r@ == self@,
            controlled(r.stmts@, *ctrl_prov),
    {
        let ghost all = self.stmts@;
        let mut rest = self.stmts;
        let mut back: Vec<Node<IRStmt, P>> = Vec::new();
        while rest.len() > 0
            invariant
                rest@.len() + back@.len() == all.len(),
                rest@ == all.take(rest@.len() as int),
                forall|i: int|
                    0 <= i < back@.len() ==> (#[trigger] back@[i]).kind == all[all.len() - 1 - i]
                        && cloned(*ctrl_prov, back@[i].prov) && back@[i].side is None,
            decreases rest.len(),
        {
            let ghost before = rest@;
            let s = rest.pop().unwrap();
            assert(rest@ =~= before.drop_last());
            assert(s == all[rest@.len() as int]);
            back.push(Node::new(s, ctrl_prov.clone(), None));
        }
        let ghost rev = back@;
        let mut stmts: Vec<Node<IRStmt, P>> = Vec::new();
        while back.len() > 0
            invariant
                stmts@.len() + back@.len() == rev.len(),
                rev.len() == all.len(),
                back@ == rev.take(back@.len() as int),
                forall|i: int|
                    0 <= i < rev.len() ==> (#[trigger] rev[i]).kind == all[all.len() - 1 - i]
                        && cloned(*ctrl_prov, rev[i].prov) && rev[i].side is None,
                forall|i: int|
                    0 <= i < stmts@.len() ==> #[trigger] stmts@[i] == rev[rev.len() - 1 - i],
            decreases back.len(),
        {
            let ghost before = back@;
            let n = back.pop().unwrap();
            assert(back@ =~= before.drop_last());
            assert(n == rev[back@.len() as int]);
            stmts.push(n);
        }
        assert forall|i: int| 0 <= i < stmts@.len() implies {
            &&& (#[trigger] stmts@[i]).kind == all[i]
            &&& cloned(*ctrl_prov, stmts@[i].prov)
            &&& stmts@[i].side is None
        } by {
            assert(stmts@[i] == rev[rev.len() - 1 - i]);
        }
        assert(node_kinds(stmts@) =~= stmt_views(all));
        IRBlock { params: self.params, stmts, terminator: self.terminator }
    }
}

/// Builds a block of a module.
#[derive(Debug)]
pub struct BlockEmitter {
    pub block: IRBlockUnfinished,
    pub types: TypeTable,
    pub addr_ty: IRTypeId,
    pub bit_ty: IRTypeId,
}

impl IrEmitter for BlockEmitter {
    open spec fn state(&self) -> EmitterView {
        EmitterView {
            block: self.block@,
            types: self.types@,
            addr_ty: self.addr_ty,
            bit_ty: self.bit_ty,
        }
    }

    fn emit(&mut self, stmt: IRStmt) -> (id: IRVarId) {
        self.block.push(stmt)
    }

    fn intern_type(&mut self, ty: crate::common::IrType) -> (id: IRTypeId) {
        self.types.intern(ty)
    }

    fn addr_ty(&self) -> (r: IRTypeId) {
        self.addr_ty
    }

    fn bit_ty(&self) -> (r: IRTypeId) {
        self.bit_ty
    }
}

// ---------------------------------------------------------------------------
// Fixed blocks
// ---------------------------------------------------------------------------

/// The dispatcher block: returns when done, else dispatches.
pub const DISPATCHER_BID: u32 = 1;

/// The block that returns.
pub const RETURN_BID: u32 = 2;

/// The block that dispatches on the handler index.
pub const DISPATCH_BID: u32 = 3;

/// The first handler block.
pub const HANDLER_BID_BASE: u32 = 4;

/// The block that returns, when handlers dispatch directly.
pub const DD_RETURN_BID: u32 = 1;

/// The block of the first dispatch, when handlers dispatch directly.
pub const DD_INIT_DISPATCH_BID: u32 = 2;

/// The first handler block, when handlers dispatch directly.
pub const DD_HANDLER_BID_BASE: u32 = 3;

/// The variable of the current row.
pub open spec fn pc_var() -> IRVarId {
    IRVarId(0)
}

/// A jump to a block.
pub open spec fn jump(block: u32, args: Seq<IRVarId>) -> BranchView {
    branch_to(IRBlockTargetId::Block(IRBlockId(block)), args)
}

/// A jump to a block.
pub fn jump_to(block: u32, args: Vec<IRVarId>) -> (r: IRBranchTarget)
    ensures
        r@ == jump(block, args@),
{
    IRBranchTarget::new(IRBlockTargetId::Block(IRBlockId(block)), args)
}

/// A list of one variable.
pub fn one_var(a: IRVarId) -> (r: Vec<IRVarId>)
    ensures
        r@ == seq![a],
{
    let mut out: Vec<IRVarId> = Vec::new();
    out.push(a);
    assert(out@ =~= seq![a]);
    out
}

/// A list of two variables.
pub fn two_vars(a: IRVarId, b: IRVarId) -> (r: Vec<IRVarId>)
    ensures
        r@ == seq![a, b],
{
    let mut out: Vec<IRVarId> = Vec::new();
    out.push(a);
    out.push(b);
    assert(out@ =~= seq![a, b]);
    out
}

/// The dispatcher block.
pub open spec fn dispatcher_block(addr_ty: IRTypeId, bit_ty: IRTypeId) -> IRBlockView {
    IRBlockView {
        params: seq![addr_ty, bit_ty],
        stmts: Seq::empty(),
        terminator: TermView::JumpCond {
            condition: IRVarId(1),
            then_target: jump(RETURN_BID, Seq::empty()),
            else_target: jump(DISPATCH_BID, seq![pc_var()]),
        },
    }
}

/// Emit the dispatcher block.
pub fn emit_dispatcher_block<P: Clone>(addr_ty: IRTypeId, bit_ty: IRTypeId, ctrl_prov: &P) -> (r:
    IRBlock<P>)
    ensures
        r@ == dispatcher_block(addr_ty, bit_ty),
        controlled(r.stmts@, *ctrl_prov),
{
    let mut params: Vec<IRTypeId> = Vec::new();
    params.push(addr_ty);
    params.push(bit_ty);
    assert(params@ =~= seq![addr_ty, bit_ty]);
    let mut b = IRBlockUnfinished::new(params);
    b.terminator = IRTerminator::JumpCond {
        condition: IRVarId(1),
        then_target: jump_to(RETURN_BID, Vec::new()),
        else_target: jump_to(DISPATCH_BID, one_var(IRVarId(0))),
    };
    assert(b@ == dispatcher_block(addr_ty, bit_ty));
    b.into_ir_block(ctrl_prov)
}

/// The block that reads the handler index of a row and jumps to that handler.
pub open spec fn dispatch_block(
    n_handlers: nat,
    bytecode: StorageId,
    addr_ty: IRTypeId,
    first_handler: u32,
) -> IRBlockView {
    IRBlockView {
        params: seq![addr_ty],
        stmts: seq![StmtView::StorageRead { storage: bytecode, ty: addr_ty, addr: pc_var() }],
        terminator: TermView::JumpTable {
            index: IRVarId(1),
            cases: Seq::new(
                n_handlers,
                |h: int|
                    (constant_of(h as u32), jump((first_handler + h) as u32, seq![pc_var()])),
            ),
        },
    }
}

/// Emit a block that dispatches on the handler index.
pub fn emit_dispatch_block_with_base<P: Clone>(
    n_handlers: usize,
    bytecode_storage: StorageId,
    addr_ty: IRTypeId,
    handler_bid_base: u32,
    ctrl_prov: &P,
) -> (r: IRBlock<P>)
    requires
        handler_bid_base + n_handlers <= u32::MAX,
    ensures
        r@ == dispatch_block(n_handlers as nat, bytecode_storage, addr_ty, handler_bid_base),
        controlled(r.stmts@, *ctrl_prov),
{
    let mut params: Vec<IRTypeId> = Vec::new();
    params.push(addr_ty);
    assert(params@ =~= seq![addr_ty]);
    let mut b = IRBlockUnfinished::new(params);
    let index: IRVarId = b.push(
        Stmt::StorageRead { storage: bytecode_storage, ty: addr_ty, addr: IRVarId(0) },
    );
    let ghost want = dispatch_block(n_handlers as nat, bytecode_storage, addr_ty, handler_bid_base);
    let ghost cases_want = want.terminator->cases;
    let mut cases: Vec<(Constant, IRBranchTarget)> = Vec::new();
    let mut h: usize = 0;
    while h < n_handlers
        invariant
            h <= n_handlers,
            handler_bid_base + n_handlers <= u32::MAX,
            cases_want == Seq::new(
                n_handlers as nat,
                |x: int|
                    (constant_of(x as u32), jump((handler_bid_base + x) as u32, seq![pc_var()])),
            ),
            cases@.len() == h,
            forall|j: int|
                0 <= j < h ==> ((#[trigger] cases@[j]).0, cases@[j].1@) == cases_want[j],
        decreases n_handlers - h,
    {
        cases.push(
            (const_u32(h as u32), jump_to(handler_bid_base + h as u32, one_var(IRVarId(0)))),
        );
        h += 1;
    }
    assert(case_views(cases@) =~= cases_want);
    b.terminator = IRTerminator::JumpTable { index, cases };
    assert(b@.stmts =~= want.stmts);
    assert(b@ == want);
    b.into_ir_block(ctrl_prov)
}

/// The statements that read the first `n` return values.
pub open spec fn return_reads(
    tys: Seq<IRTypeId>,
    file: Seq<IRTypeId>,
    base: u32,
    addr_ty: IRTypeId,
    n: nat,
) -> Seq<StmtView>
    decreases n,
{
    if n == 0 {
        Seq::empty()
    } else {
        let ty = tys[n - 1];
        return_reads(tys, file, base, addr_ty, (n - 1) as nat).push(
            StmtView::Const(constant_of(register_index(tys, n - 1)), addr_ty),
        ).push(
            StmtView::StorageRead {
                storage: register_storage(file, base, ty),
                ty,
                addr: IRVarId((2 * (n - 1)) as u32),
            },
        )
    }
}

/// The block that returns.
pub open spec fn return_block(
    tys: Seq<IRTypeId>,
    file: Seq<IRTypeId>,
    base: u32,
    addr_ty: IRTypeId,
) -> IRBlockView {
    IRBlockView {
        params: Seq::empty(),
        stmts: return_reads(tys, file, base, addr_ty, tys.len()),
        terminator: TermView::Jmp {
            target: branch_to(
                IRBlockTargetId::Return,
                Seq::new(tys.len(), |i: int| IRVarId((2 * i + 1) as u32)),
            ),
        },
    }
}

/// There are two statements for each return value.
pub proof fn lemma_return_reads_len(
    tys: Seq<IRTypeId>,
    file: Seq<IRTypeId>,
    base: u32,
    addr_ty: IRTypeId,
    n: nat,
)
    ensures
        return_reads(tys, file, base, addr_ty, n).len() == 2 * n,
    decreases n,
{
    if n > 0 {
        lemma_return_reads_len(tys, file, base, addr_ty, (n - 1) as nat);
    }
}

/// Emit the block that returns.
pub fn emit_return_block<P: Clone>(
    reg_alloc: &RegAlloc,
    tys: Ghost<Seq<IRTypeId>>,
    addr_ty: IRTypeId,
    ctrl_prov: &P,
) -> (r: IRBlock<P>)
    requires
        reg_alloc.return_regs@ == registers(tys@),
        forall|i: int| 0 <= i < tys@.len() ==> reg_alloc.file@.contains(#[trigger] tys@[i]),
        reg_alloc.base + reg_alloc.file@.len() <= u32::MAX,
        2 * tys@.len() <= u32::MAX,
    ensures
        r@ == return_block(tys@, reg_alloc.file@, reg_alloc.base, addr_ty),
        controlled(r.stmts@, *ctrl_prov),
{
    let ghost ts = tys@;
    let mut b = IRBlockUnfinished::new(Vec::new());
    let mut vals: Vec<IRVarId> = Vec::new();
    let mut i: usize = 0;
    while i < reg_alloc.return_regs.len()
        invariant
            i <= reg_alloc.return_regs.len(),
            ts == tys@,
            reg_alloc.return_regs@ == registers(ts),
            forall|k: int| 0 <= k < ts.len() ==> reg_alloc.file@.contains(#[trigger] ts[k]),
            reg_alloc.base + reg_alloc.file@.len() <= u32::MAX,
            2 * ts.len() <= u32::MAX,
            b@ == (IRBlockView {
                params: Seq::empty(),
                stmts: return_reads(ts, reg_alloc.file@, reg_alloc.base, addr_ty, i as nat),
                terminator: return_nothing(),
            }),
            vals@.len() == i,
            forall|k: int| 0 <= k < i ==> (#[trigger] vals@[k]).0 == 2 * k + 1,
        decreases reg_alloc.return_regs.len() - i,
    {
        proof {
            lemma_return_reads_len(ts, reg_alloc.file@, reg_alloc.base, addr_ty, i as nat);
            assert(reg_alloc.file@.contains(ts[i as int]));
        }
        let reg = reg_alloc.return_regs[i];
        let addr: IRVarId = b.push(Stmt::Const(const_u32(reg.idx), addr_ty));
        let val: IRVarId = b.push(
            Stmt::StorageRead { storage: reg_alloc.storage_for(reg.ty), ty: reg.ty, addr },
        );
        vals.push(val);
        i += 1;
    }
    assert(vals@ =~= Seq::new(ts.len(), |k: int| IRVarId((2 * k + 1) as u32)));
    b.terminator = IRTerminator::Jmp {
        target: IRBranchTarget::new(IRBlockTargetId::Return, vals),
    };
    assert(b@ == return_block(ts, reg_alloc.file@, reg_alloc.base, addr_ty));
    b.into_ir_block(ctrl_prov)
}

} // verus!
