//! Emission of handlers: one block for each canonical key, and further blocks
//! for the branches of a terminator that decides.

use vstd::prelude::*;

use crate::common::{Constant, IrTypeView, StorageId, TypeTable};
use crate::ir::{
    block_views, case_views, output_type, stmt_output_type, BranchView, IRBlock, IRBlockTargetId,
    IRBlockView, IRBranchTarget, IRTerminator, IRTypeId, IRVarId, Stmt, StmtView, TermView,
};
use crate::virt::canon::{make_zero_constant, zero_constant, IrHandlerKey};
use crate::virt::cse::lemma_stmt_mapped;
use crate::virt::emit::{
    controlled, dispatch_block, emit_dispatch_block_with_base, jump, jump_to, one_var, pc_var,
    return_nothing, two_vars, xor_coeffs, xor_terms, BlockEmitter, IRBlockUnfinished,
    DD_HANDLER_BID_BASE, DD_INIT_DISPATCH_BID, DD_RETURN_BID, DISPATCHER_BID,
};
use crate::virt::hash::{CommitmentConfig, EmitterView, IrEmitter, IrHashAlgorithm};
use crate::virt::regs::{
    arms, branch_views, register_storage, terminator_arms, var_type, var_types, vars_typed,
    RegAlloc,
};
use crate::virt::remap::{
    remap_coeffs, remap_stmt, renamed_stmt, renamed_terms, renamed_vars, stmt_mapped, var_mapped,
    UNDEFINED_VAR,
};
use crate::virt::schema::{
    arm_start, arms_width, const_bit, const_u32, constant_of, constant_of_bit, handler_slots,
    lemma_arms_width, lemma_arms_width_take, lemma_stmt_slots_take, stmt_slots, ArmSchema,
    HandlerSchema, HandlerSlot,
};

verus! {

// ---------------------------------------------------------------------------
// Commitments
// ---------------------------------------------------------------------------

/// What handlers need to know of the commitment to rows.
pub struct CommitmentCtx<'a, H: IrHashAlgorithm> {
    pub config: &'a CommitmentConfig<H>,
    /// The hash of each row.
    pub per_block: Vec<Constant>,
    pub hash_output_ty: IRTypeId,
    pub key_type_ids: Vec<IRTypeId>,
}

/// What the checks of a handler depend on.
pub struct Check<H> {
    pub algorithm: H,
    pub storage: StorageId,
    pub hash_ty: IRTypeId,
    pub key_tys: Seq<IRTypeId>,
    pub key_storage: Option<StorageId>,
}

impl<'a, H: IrHashAlgorithm> CommitmentCtx<'a, H> {
    /// What the checks of a handler depend on.
    pub open spec fn check(&self) -> Check<H> {
        Check {
            algorithm: self.config.algorithm,
            storage: self.config.commitment_storage,
            hash_ty: self.hash_output_ty,
            key_tys: self.key_type_ids@,
            key_storage: self.config.key_storage,
        }
    }
}

/// The check of an optional commitment.
pub open spec fn check_of<H: IrHashAlgorithm>(c: Option<&CommitmentCtx<H>>) -> Option<Check<H>> {
    match c {
        Some(ctx) => Some(ctx.check()),
        None => None,
    }
}

/// Whether there is one key word for each that the algorithm takes, and a place
/// to find them.
pub open spec fn check_ready<H: IrHashAlgorithm>(c: Check<H>) -> bool {
    &&& c.key_tys.len() == c.algorithm.key_types().len()
    &&& c.key_tys.len() > 0 ==> c.key_storage is Some
}

// ---------------------------------------------------------------------------
// What a handler is
// ---------------------------------------------------------------------------

/// What the statements of a handler refer to.
#[verifier::ext_equal]
pub struct Frame {
    pub addr_ty: IRTypeId,
    pub bit_ty: IRTypeId,
    /// The storage of handler indices.
    pub bytecode: StorageId,
    /// The storages of the slots of the handler.
    pub slots: Seq<StorageId>,
    /// The types of the register file.
    pub file: Seq<IRTypeId>,
    /// The first storage of the register file.
    pub base: u32,
    /// The number of handlers, if handlers dispatch directly.
    pub direct: Option<nat>,
}

impl Frame {
    /// The storage of the registers of a type.
    pub open spec fn reg(self, ty: IRTypeId) -> StorageId {
        register_storage(self.file, self.base, ty)
    }

    /// A read of slot `s` of the current row.
    pub open spec fn slot_read(self, s: nat, ty: IRTypeId) -> StmtView {
        StmtView::StorageRead { storage: self.slots[s as int], ty, addr: pc_var() }
    }
}

/// The reads of the first `n` parameters: first the register, then its value.
pub open spec fn param_reads(f: Frame, params: Seq<IRTypeId>, n: nat) -> Seq<StmtView>
    decreases n,
{
    if n == 0 {
        Seq::empty()
    } else {
        let ty = params[n - 1];
        param_reads(f, params, (n - 1) as nat).push(f.slot_read((n - 1) as nat, f.addr_ty)).push(
            StmtView::StorageRead { storage: f.reg(ty), ty, addr: IRVarId((2 * n - 1) as u32) },
        )
    }
}

/// The variables that hold the parameters.
pub open spec fn param_vars(n: nat) -> Seq<IRVarId> {
    Seq::new(n, |i: int| IRVarId((2 * i + 2) as u32))
}

/// The statements of a handler so far, and the variable that holds each
/// variable of the key.
#[verifier::ext_equal]
pub struct Body {
    pub stmts: Seq<StmtView>,
    pub vars: Seq<IRVarId>,
}

impl Body {
    /// The variable that the next statement defines.
    pub open spec fn next(self) -> IRVarId {
        IRVarId((1 + self.stmts.len()) as u32)
    }
}

/// The body with the statement `s` of the key, whose constant is in slot
/// `slot`. A constant becomes a read of its slot; a polynomial is evaluated
/// without its constant term, which is then added.
pub open spec fn body_step(f: Frame, b: Body, s: StmtView, slot: nat) -> Body {
    match s {
        StmtView::Const(_, ty) => Body {
            stmts: b.stmts.push(f.slot_read(slot, ty)),
            vars: b.vars.push(b.next()),
        },
        StmtView::Poly { ty, coeffs, .. } => {
            let n = b.stmts.len();
            Body {
                stmts: b.stmts.push(f.slot_read(slot, ty)).push(
                    StmtView::Poly {
                        ty,
                        coeffs: renamed_terms(coeffs, b.vars),
                        constant: zero_constant(),
                    },
                ).push(
                    StmtView::Poly {
                        ty,
                        coeffs: xor_terms(IRVarId((n + 2) as u32), IRVarId((n + 1) as u32)),
                        constant: zero_constant(),
                    },
                ),
                vars: b.vars.push(IRVarId((n + 3) as u32)),
            }
        },
        _ => Body {
            stmts: b.stmts.push(renamed_stmt(s, b.vars)),
            vars: b.vars.push(
                if output_type(s) is Some {
                    b.next()
                } else {
                    IRVarId(UNDEFINED_VAR)
                },
            ),
        },
    }
}

/// The body after the first `n` statements of the key.
pub open spec fn handler_body(f: Frame, key: IRBlockView, n: int) -> Body
    decreases n,
{
    if n <= 0 {
        Body {
            stmts: param_reads(f, key.params, key.params.len()),
            vars: param_vars(key.params.len()),
        }
    } else {
        body_step(
            f,
            handler_body(f, key, n - 1),
            key.stmts[n - 1],
            key.params.len() + stmt_slots(key.stmts.take(n - 1)).len(),
        )
    }
}

/// The writes of the first `n` arguments of a branch: first the register, then
/// its value. They stand behind `at` variables.
pub open spec fn arm_writes(
    f: Frame,
    at: nat,
    start: nat,
    vals: Seq<IRVarId>,
    tys: Seq<IRTypeId>,
    n: nat,
) -> Seq<StmtView>
    decreases n,
{
    if n == 0 {
        Seq::empty()
    } else {
        let ty = tys[n - 1];
        arm_writes(f, at, start, vals, tys, (n - 1) as nat).push(
            f.slot_read((start + 2 + (n - 1)) as nat, f.addr_ty),
        ).push(
            StmtView::StorageWrite {
                storage: f.reg(ty),
                src: vals[n - 1],
                ty,
                addr: IRVarId((at + 2 * (n - 1)) as u32),
            },
        )
    }
}

/// The statements that fetch where a branch continues and whether it returns.
/// A difference, if there is one, is added to the row.
pub open spec fn exit_reads(f: Frame, at: nat, start: nat, diff: Option<IRVarId>) -> Seq<StmtView> {
    let pc = f.slot_read(start, f.addr_ty);
    let done = f.slot_read(start + 1, f.bit_ty);
    match diff {
        Some(d) => seq![
            pc,
            StmtView::Poly {
                ty: f.addr_ty,
                coeffs: xor_terms(IRVarId(at as u32), d),
                constant: zero_constant(),
            },
            done,
        ],
        None => seq![pc, done],
    }
}

/// The jump at the end of a branch.
pub open spec fn exit_term(f: Frame, at: nat, diff: Option<IRVarId>, dispatch: u32) -> TermView {
    let (pc, done) = match diff {
        Some(_) => (IRVarId((at + 1) as u32), IRVarId((at + 2) as u32)),
        None => (IRVarId(at as u32), IRVarId((at + 1) as u32)),
    };
    match f.direct {
        Some(_) => TermView::JumpCond {
            condition: done,
            then_target: jump(DD_RETURN_BID, Seq::empty()),
            else_target: jump(dispatch, seq![pc]),
        },
        None => TermView::Jmp { target: jump(DISPATCHER_BID, seq![pc, done]) },
    }
}

/// The jump at the end of a branch with a dynamic destination.
pub open spec fn dyn_exit_term(f: Frame, at: nat) -> TermView {
    match f.direct {
        Some(_) => TermView::Jmp { target: jump(DD_INIT_DISPATCH_BID, seq![IRVarId(at as u32)]) },
        None => TermView::Jmp {
            target: jump(
                DISPATCHER_BID,
                seq![IRVarId(at as u32), IRVarId((at + 1) as u32)],
            ),
        },
    }
}

/// The statements before it: the row is the value of the destination.
pub open spec fn dyn_exit(f: Frame, v: IRVarId, ty: IRTypeId) -> Seq<StmtView> {
    let pc = StmtView::Transmute { src: v, src_ty: ty, dst_ty: f.addr_ty };
    match f.direct {
        Some(_) => seq![pc],
        None => seq![pc, StmtView::Const(constant_of_bit(false), f.bit_ty)],
    }
}

/// The block of a branch: takes the row, the difference if there is one, and
/// the arguments.
pub open spec fn arm_block(
    f: Frame,
    start: nat,
    tys: Seq<IRTypeId>,
    checked: bool,
    dispatch: u32,
) -> IRBlockView {
    let head = if checked {
        seq![f.addr_ty, f.addr_ty]
    } else {
        seq![f.addr_ty]
    };
    let at = head.len() + tys.len();
    let diff = if checked {
        Some(IRVarId(1))
    } else {
        None
    };
    let vals = Seq::new(tys.len(), |i: int| IRVarId((head.len() + i) as u32));
    IRBlockView {
        params: head + tys,
        stmts: arm_writes(f, at, start, vals, tys, tys.len()) + exit_reads(
            f,
            at + 2 * tys.len(),
            start,
            diff,
        ),
        terminator: exit_term(f, at + 2 * tys.len(), diff, dispatch),
    }
}

/// The block of a branch with a dynamic destination: takes the row, the
/// destination and the arguments.
pub open spec fn dyn_arm_block(
    f: Frame,
    start: nat,
    dyn_ty: IRTypeId,
    tys: Seq<IRTypeId>,
) -> IRBlockView {
    let at = 2 + tys.len();
    let vals = Seq::new(tys.len(), |i: int| IRVarId((2 + i) as u32));
    IRBlockView {
        params: seq![f.addr_ty, dyn_ty] + tys,
        stmts: arm_writes(f, at, start, vals, tys, tys.len()) + dyn_exit(f, IRVarId(1), dyn_ty),
        terminator: dyn_exit_term(f, at + 2 * tys.len()),
    }
}

/// The blocks of branch `a`, the first of which is block `bid`.
pub open spec fn arm_blocks(
    f: Frame,
    key: IRBlockView,
    a: int,
    checked: bool,
    bid: nat,
) -> Seq<IRBlockView> {
    let arm = arms(key.terminator)[a];
    let tys = var_types(key, arm.args);
    match arm.dest {
        IRBlockTargetId::Dyn(v) => seq![
            dyn_arm_block(f, arm_start(key, a), var_type(key, v)->0, tys),
        ],
        _ => {
            let block = arm_block(f, arm_start(key, a), tys, checked, (bid + 1) as u32);
            match f.direct {
                Some(n) => seq![
                    block,
                    dispatch_block(n, f.bytecode, f.addr_ty, DD_HANDLER_BID_BASE),
                ],
                None => seq![block],
            }
        },
    }
}

/// The blocks of the first `n` branches, the first of which is block `first`.
pub open spec fn arms_blocks(
    f: Frame,
    key: IRBlockView,
    n: int,
    checked: bool,
    first: nat,
) -> Seq<IRBlockView>
    decreases n,
{
    if n <= 0 {
        Seq::empty()
    } else {
        let before = arms_blocks(f, key, n - 1, checked, first);
        before + arm_blocks(f, key, n - 1, checked, first + before.len())
    }
}

/// The block of branch `a`.
pub open spec fn arm_bid(f: Frame, key: IRBlockView, a: int, checked: bool, first: nat) -> u32 {
    (first + arms_blocks(f, key, a, checked, first).len()) as u32
}

/// What is passed to the block of a branch.
pub open spec fn call_args(
    arm: BranchView,
    vars: Seq<IRVarId>,
    diff: Option<IRVarId>,
) -> Seq<IRVarId> {
    let head = match arm.dest {
        IRBlockTargetId::Dyn(v) => seq![pc_var(), vars[v.0 as int]],
        _ => match diff {
            Some(d) => seq![pc_var(), d],
            None => seq![pc_var()],
        },
    };
    head + renamed_vars(arm.args, vars)
}

/// The reads of the first `n` key words.
pub open spec fn key_reads(
    e: EmitterView,
    storage: StorageId,
    key_tys: Seq<IRTypeId>,
    n: nat,
) -> (EmitterView, Seq<(IRVarId, IRTypeId)>)
    decreases n,
{
    if n == 0 {
        (e, Seq::empty())
    } else {
        let (e1, vs) = key_reads(e, storage, key_tys, (n - 1) as nat);
        let ty = key_tys[n - 1];
        let e2 = e1.push(StmtView::Const(constant_of((n - 1) as u32), e.addr_ty));
        (
            e2.push(StmtView::StorageRead { storage, ty, addr: e1.next() }),
            vs.push((e2.next(), ty)),
        )
    }
}

/// The reads of the first `n` slots of the current row.
pub open spec fn slot_reads(
    f: Frame,
    e: EmitterView,
    slots: Seq<HandlerSlot>,
    n: nat,
) -> (EmitterView, Seq<(IRVarId, IRTypeId)>)
    decreases n,
{
    if n == 0 {
        (e, Seq::empty())
    } else {
        let (e1, vs) = slot_reads(f, e, slots, (n - 1) as nat);
        let ty = slots[n - 1].ty;
        (e1.push(f.slot_read((n - 1) as nat, ty)), vs.push((e1.next(), ty)))
    }
}

/// The statements that compare the hash of the current row with the one that
/// was committed to, and the variable that holds the difference.
pub open spec fn check_row<H: IrHashAlgorithm>(
    f: Frame,
    e: EmitterView,
    slots: Seq<HandlerSlot>,
    c: Check<H>,
) -> (EmitterView, IRVarId) {
    let (e1, key) = match c.key_storage {
        Some(storage) => key_reads(e, storage, c.key_tys, c.key_tys.len()),
        None => (e, Seq::empty()),
    };
    let e2 = e1.push(
        StmtView::StorageRead { storage: f.bytecode, ty: f.addr_ty, addr: pc_var() },
    );
    let (e3, words) = slot_reads(f, e2, slots, slots.len());
    let (e4, computed) = c.algorithm.emission(e3, key, seq![(e1.next(), f.addr_ty)] + words);
    let e5 = e4.push(
        StmtView::StorageRead { storage: c.storage, ty: c.hash_ty, addr: pc_var() },
    );
    let e6 = e5.push(
        StmtView::Poly {
            ty: c.hash_ty,
            coeffs: xor_terms(computed, e4.next()),
            constant: zero_constant(),
        },
    );
    if c.hash_ty == f.addr_ty {
        (e6, e5.next())
    } else {
        (
            e6.push(
                StmtView::Transmute { src: e5.next(), src_ty: c.hash_ty, dst_ty: f.addr_ty },
            ),
            e6.next(),
        )
    }
}

/// The same for an optional check.
pub open spec fn check_row_if<H: IrHashAlgorithm>(
    f: Frame,
    e: EmitterView,
    slots: Seq<HandlerSlot>,
    c: Option<Check<H>>,
) -> (EmitterView, Option<IRVarId>) {
    match c {
        Some(check) => {
            let (e1, d) = check_row(f, e, slots, check);
            (e1, Some(d))
        },
        None => (e, None),
    }
}

/// A handler: its block, the blocks of its branches, and the types of the
/// module afterwards.
#[verifier::ext_equal]
pub struct Handler {
    pub block: IRBlockView,
    pub extras: Seq<IRBlockView>,
    pub types: Seq<IrTypeView>,
}

/// The block of a handler with the given statements.
pub open spec fn draft(f: Frame, stmts: Seq<StmtView>, types: Seq<IrTypeView>) -> EmitterView {
    EmitterView {
        block: IRBlockView { params: seq![f.addr_ty], stmts, terminator: return_nothing() },
        types,
        addr_ty: f.addr_ty,
        bit_ty: f.bit_ty,
    }
}

/// The handler of a key that jumps to `target`.
pub open spec fn jump_handler<H: IrHashAlgorithm>(
    f: Frame,
    key: IRBlockView,
    target: BranchView,
    check: Option<Check<H>>,
    types: Seq<IrTypeView>,
    first: nat,
) -> Handler {
    let body = handler_body(f, key, key.stmts.len() as int);
    let slots = handler_slots(key, f.addr_ty, f.bit_ty);
    let start = arm_start(key, 0);
    let stmts = body.stmts + arm_writes(
        f,
        1 + body.stmts.len(),
        start,
        renamed_vars(target.args, body.vars),
        var_types(key, target.args),
        target.args.len(),
    );
    match target.dest {
        IRBlockTargetId::Dyn(v) => Handler {
            block: IRBlockView {
                params: seq![f.addr_ty],
                stmts: stmts + dyn_exit(f, body.vars[v.0 as int], var_type(key, v)->0),
                terminator: dyn_exit_term(f, 1 + stmts.len()),
            },
            extras: Seq::empty(),
            types,
        },
        _ => {
            let (e, diff) = check_row_if(f, draft(f, stmts, types), slots, check);
            let n = e.block.var_space();
            Handler {
                block: IRBlockView {
                    stmts: e.block.stmts + exit_reads(f, n, start, diff),
                    terminator: exit_term(f, n, diff, first as u32),
                    ..e.block
                },
                extras: match f.direct {
                    Some(k) => seq![
                        dispatch_block(k, f.bytecode, f.addr_ty, DD_HANDLER_BID_BASE),
                    ],
                    None => Seq::empty(),
                },
                types: e.types,
            }
        },
    }
}

/// The handler of a key that decides by `condition`.
pub open spec fn cond_handler<H: IrHashAlgorithm>(
    f: Frame,
    key: IRBlockView,
    condition: IRVarId,
    then_target: BranchView,
    else_target: BranchView,
    check: Option<Check<H>>,
    types: Seq<IrTypeView>,
    first: nat,
) -> Handler {
    let body = handler_body(f, key, key.stmts.len() as int);
    let slots = handler_slots(key, f.addr_ty, f.bit_ty);
    let (e, diff) = check_row_if(f, draft(f, body.stmts, types), slots, check);
    let c = check is Some;
    Handler {
        block: IRBlockView {
            terminator: TermView::JumpCond {
                condition: body.vars[condition.0 as int],
                then_target: jump(
                    arm_bid(f, key, 0, c, first),
                    call_args(then_target, body.vars, diff),
                ),
                else_target: jump(
                    arm_bid(f, key, 1, c, first),
                    call_args(else_target, body.vars, diff),
                ),
            },
            ..e.block
        },
        extras: arms_blocks(f, key, 2, c, first),
        types: e.types,
    }
}

/// The handler of a key that decides by `index`.
pub open spec fn table_handler<H: IrHashAlgorithm>(
    f: Frame,
    key: IRBlockView,
    index: IRVarId,
    cases: Seq<(Constant, BranchView)>,
    check: Option<Check<H>>,
    types: Seq<IrTypeView>,
    first: nat,
) -> Handler {
    let body = handler_body(f, key, key.stmts.len() as int);
    let slots = handler_slots(key, f.addr_ty, f.bit_ty);
    let (e, diff) = check_row_if(f, draft(f, body.stmts, types), slots, check);
    let c = check is Some;
    Handler {
        block: IRBlockView {
            terminator: TermView::JumpTable {
                index: body.vars[index.0 as int],
                cases: Seq::new(
                    cases.len(),
                    |a: int|
                        (
                            cases[a].0,
                            jump(
                                arm_bid(f, key, a, c, first),
                                call_args(cases[a].1, body.vars, diff),
                            ),
                        ),
                ),
            },
            ..e.block
        },
        extras: arms_blocks(f, key, cases.len() as int, c, first),
        types: e.types,
    }
}

/// The handler with the given key. Its further blocks start at block `first`.
#[verifier::opaque]
pub open spec fn handler<H: IrHashAlgorithm>(
    f: Frame,
    key: IRBlockView,
    check: Option<Check<H>>,
    types: Seq<IrTypeView>,
    first: nat,
) -> Handler {
    match key.terminator {
        TermView::Jmp { target } => jump_handler(f, key, target, check, types, first),
        TermView::JumpCond { condition, then_target, else_target } => cond_handler(
            f,
            key,
            condition,
            then_target,
            else_target,
            check,
            types,
            first,
        ),
        TermView::JumpTable { index, cases } => table_handler(
            f,
            key,
            index,
            cases,
            check,
            types,
            first,
        ),
    }
}

// ---------------------------------------------------------------------------
// When a handler can be emitted
// ---------------------------------------------------------------------------

/// The variables of a key that have a value before statement `n`.
pub open spec fn scope(key: IRBlockView, n: int) -> Seq<IRVarId> {
    Seq::new(
        (key.params.len() + n) as nat,
        |j: int|
            if j < key.params.len() || output_type(key.stmts[j - key.params.len()]) is Some {
                IRVarId(j as u32)
            } else {
                IRVarId(UNDEFINED_VAR)
            },
    )
}

/// Whether a block is well scoped: its statements read variables that have a
/// value before them, and so does its terminator.
pub open spec fn scoped(key: IRBlockView) -> bool {
    &&& key.var_space() < u32::MAX
    &&& forall|i: int| 0 <= i < key.stmts.len() ==> stmt_mapped(#[trigger] key.stmts[i], scope(key, i))
    &&& forall|a: int|
        0 <= a < arms(key.terminator).len() ==> vars_typed(
            key,
            (#[trigger] arms(key.terminator)[a]).args,
        )
    &&& forall|a: int|
        0 <= a < arms(key.terminator).len() ==> ((#[trigger] arms(key.terminator)[a]).dest matches
            IRBlockTargetId::Dyn(v) ==> var_type(key, v) is Some)
    &&& match key.terminator {
        TermView::Jmp { .. } => true,
        TermView::JumpCond { condition, .. } => var_type(key, condition) is Some,
        TermView::JumpTable { index, .. } => var_type(key, index) is Some,
    }
}

/// Whether every type that a key takes or passes on has registers.
pub open spec fn typed_in(key: IRBlockView, file: Seq<IRTypeId>) -> bool {
    &&& forall|i: int| 0 <= i < key.params.len() ==> file.contains(#[trigger] key.params[i])
    &&& forall|a: int, i: int|
        #![trigger arms(key.terminator)[a].args[i]]
        0 <= a < arms(key.terminator).len() && 0 <= i < arms(key.terminator)[a].args.len()
            ==> file.contains(var_type(key, arms(key.terminator)[a].args[i])->0)
}

/// A bound on the number of variables that a check needs.
pub open spec fn check_room<H: IrHashAlgorithm>(c: Option<Check<H>>, n_slots: nat) -> nat {
    match c {
        Some(check) => 2 * check.key_tys.len() + n_slots + check.algorithm.emission_room(
            1 + n_slots,
        ) + 4,
        None => 0,
    }
}

/// A bound on the number of variables of each block of a handler.
pub open spec fn handler_room<H: IrHashAlgorithm>(
    key: IRBlockView,
    c: Option<Check<H>>,
    n_slots: nat,
) -> nat {
    8 + 2 * key.params.len() + 3 * key.stmts.len() + 3 * arms_width(arms(key.terminator))
        + check_room(c, n_slots)
}

/// There are two reads for each parameter.
pub proof fn lemma_param_reads_len(f: Frame, params: Seq<IRTypeId>, n: nat)
    ensures
        param_reads(f, params, n).len() == 2 * n,
    decreases n,
{
    if n > 0 {
        lemma_param_reads_len(f, params, (n - 1) as nat);
    }
}

/// There are two statements for each argument.
pub proof fn lemma_arm_writes_len(
    f: Frame,
    at: nat,
    start: nat,
    vals: Seq<IRVarId>,
    tys: Seq<IRTypeId>,
    n: nat,
)
    ensures
        arm_writes(f, at, start, vals, tys, n).len() == 2 * n,
    decreases n,
{
    if n > 0 {
        lemma_arm_writes_len(f, at, start, vals, tys, (n - 1) as nat);
    }
}

/// The size of a body, and which variables of the key have one in it: those
/// that have a value.
pub proof fn lemma_body(f: Frame, key: IRBlockView, n: int)
    requires
        0 <= n <= key.stmts.len(),
        2 * key.params.len() + 3 * key.stmts.len() + 1 < u32::MAX,
    ensures
        handler_body(f, key, n).vars.len() == key.params.len() + n,
        2 * key.params.len() <= handler_body(f, key, n).stmts.len() <= 2 * key.params.len() + 3 * n,
        forall|j: int|
            0 <= j < key.params.len() + n ==> {
                let v = #[trigger] handler_body(f, key, n).vars[j];
                if j < key.params.len() || output_type(key.stmts[j - key.params.len()]) is Some {
                    v.0 <= handler_body(f, key, n).stmts.len()
                } else {
                    v.0 == UNDEFINED_VAR
                }
            },
        forall|v: IRVarId| #[trigger]
            var_mapped(v, scope(key, n)) ==> var_mapped(v, handler_body(f, key, n).vars),
    decreases n,
{
    lemma_param_reads_len(f, key.params, key.params.len());
    if n > 0 {
        lemma_body(f, key, n - 1);
    }
}

// ---------------------------------------------------------------------------
// Emission
// ---------------------------------------------------------------------------

/// What emission of a handler reads.
pub struct EmitEnv<'a> {
    pub addr_ty: IRTypeId,
    pub bit_ty: IRTypeId,
    pub bytecode_storage: StorageId,
    pub slot_ids: &'a Vec<StorageId>,
    pub reg_alloc: &'a RegAlloc,
    /// The number of handlers, if handlers dispatch directly.
    pub direct: Option<usize>,
}

impl<'a> EmitEnv<'a> {
    /// What the statements of a handler refer to.
    pub open spec fn frame(&self) -> Frame {
        Frame {
            addr_ty: self.addr_ty,
            bit_ty: self.bit_ty,
            bytecode: self.bytecode_storage,
            slots: self.slot_ids@,
            file: self.reg_alloc.file@,
            base: self.reg_alloc.base,
            direct: match self.direct {
                Some(n) => Some(n as nat),
                None => None,
            },
        }
    }

    /// Whether the register file and the handlers have identifiers.
    pub open spec fn ready(&self) -> bool {
        &&& self.reg_alloc.base + self.reg_alloc.file@.len() <= u32::MAX
        &&& self.direct matches Some(n) ==> DD_HANDLER_BID_BASE + n <= u32::MAX
    }
}

/// Append the writes of the arguments of a branch.
fn emit_arm_writes(
    b: &mut IRBlockUnfinished,
    env: &EmitEnv,
    arm: &ArmSchema,
    start: Ghost<nat>,
    vals: &Vec<IRVarId>,
    tys: &Vec<IRTypeId>,
)
    requires
        env.ready(),
        arm.starts_at(start@, vals@.len()),
        vals@.len() == tys@.len(),
        start@ + 2 + vals@.len() <= env.slot_ids@.len(),
        forall|i: int| 0 <= i < tys@.len() ==> env.reg_alloc.file@.contains(#[trigger] tys@[i]),
        old(b)@.var_space() + 2 * vals@.len() <= u32::MAX,
    ensures
        final(b)@ == (IRBlockView {
            stmts: old(b)@.stmts + arm_writes(
                env.frame(),
                old(b)@.var_space(),
                start@,
                vals@,
                tys@,
                vals@.len(),
            ),
            ..old(b)@
        }),
{
    let ghost f = env.frame();
    let ghost s = start@;
    let ghost d = b@;
    let ghost at = d.var_space();
    let mut i: usize = 0;
    assert(d.stmts + arm_writes(f, at, s, vals@, tys@, 0) =~= d.stmts);
    while i < vals.len()
        invariant
            i <= vals.len(),
            f == env.frame(),
            env.ready(),
            s == start@,
            d == old(b)@,
            at == d.var_space(),
            arm.starts_at(s, vals@.len()),
            vals@.len() == tys@.len(),
            s + 2 + vals@.len() <= env.slot_ids@.len(),
            forall|k: int|
                0 <= k < tys@.len() ==> env.reg_alloc.file@.contains(#[trigger] tys@[k]),
            at + 2 * vals@.len() <= u32::MAX,
            b@ == (IRBlockView {
                stmts: d.stmts + arm_writes(f, at, s, vals@, tys@, i as nat),
                ..d
            }),
        decreases vals.len() - i,
    {
        proof {
            lemma_arm_writes_len(f, at, s, vals@, tys@, i as nat);
            assert(arm.arg_dst_slots@[i as int] == s + 2 + i);
            assert(env.reg_alloc.file@.contains(tys@[i as int]));
        }
        let ty: IRTypeId = tys[i];
        let reg: IRVarId = b.push(
            Stmt::StorageRead {
                storage: env.slot_ids[arm.arg_dst_slots[i]],
                ty: env.addr_ty,
                addr: IRVarId(0),
            },
        );
        b.push(
            Stmt::StorageWrite {
                storage: env.reg_alloc.storage_for(ty),
                src: vals[i],
                ty,
                addr: reg,
            },
        );
        proof {
            assert(b@.stmts =~= d.stmts + arm_writes(f, at, s, vals@, tys@, (i + 1) as nat));
        }
        i += 1;
    }
}

/// Append the statements that end a branch, and set its terminator.
fn emit_exit(
    b: &mut IRBlockUnfinished,
    env: &EmitEnv,
    arm: &ArmSchema,
    start: Ghost<nat>,
    n_args: Ghost<nat>,
    diff: Option<IRVarId>,
    dispatch: u32,
)
    requires
        arm.starts_at(start@, n_args@),
        start@ + 2 <= env.slot_ids@.len(),
        old(b)@.var_space() + 3 <= u32::MAX,
    ensures
        final(b)@ == (IRBlockView {
            stmts: old(b)@.stmts + exit_reads(
                env.frame(),
                old(b)@.var_space(),
                start@,
                diff,
            ),
            terminator: exit_term(env.frame(), old(b)@.var_space(), diff, dispatch),
            ..old(b)@
        }),
{
    let ghost d = b@;
    let raw: IRVarId = b.push(
        Stmt::StorageRead {
            storage: env.slot_ids[arm.next_pc_slot],
            ty: env.addr_ty,
            addr: IRVarId(0),
        },
    );
    let next_pc: IRVarId = match diff {
        Some(v) => b.push(
            Stmt::Poly {
                ty: env.addr_ty,
                coeffs: xor_coeffs(raw, v),
                constant: make_zero_constant(),
            },
        ),
        None => raw,
    };
    let done: IRVarId = b.push(
        Stmt::StorageRead {
            storage: env.slot_ids[arm.done_slot],
            ty: env.bit_ty,
            addr: IRVarId(0),
        },
    );
    b.terminator =
    if env.direct.is_some() {
        IRTerminator::JumpCond {
            condition: done,
            then_target: jump_to(DD_RETURN_BID, Vec::new()),
            else_target: jump_to(dispatch, one_var(next_pc)),
        }
    } else {
        IRTerminator::Jmp { target: jump_to(DISPATCHER_BID, two_vars(next_pc, done)) }
    };
    proof {
        assert(b@.stmts =~= d.stmts + exit_reads(env.frame(), d.var_space(), start@, diff));
        assert(b@.terminator == exit_term(env.frame(), d.var_space(), diff, dispatch));
    }
}

/// Append the statements that end a branch with a dynamic destination, and set
/// its terminator.
fn emit_dyn_exit(b: &mut IRBlockUnfinished, env: &EmitEnv, v: IRVarId, ty: IRTypeId)
    requires
        old(b)@.var_space() + 2 <= u32::MAX,
    ensures
        final(b)@ == (IRBlockView {
            stmts: old(b)@.stmts + dyn_exit(env.frame(), v, ty),
            terminator: dyn_exit_term(env.frame(), old(b)@.var_space()),
            ..old(b)@
        }),
{
    let ghost d = b@;
    let next_pc: IRVarId = b.push(Stmt::Transmute { src: v, src_ty: ty, dst_ty: env.addr_ty });
    b.terminator =
    if env.direct.is_some() {
        IRTerminator::Jmp { target: jump_to(DD_INIT_DISPATCH_BID, one_var(next_pc)) }
    } else {
        let done: IRVarId = b.push(Stmt::Const(const_bit(false), env.bit_ty));
        IRTerminator::Jmp { target: jump_to(DISPATCHER_BID, two_vars(next_pc, done)) }
    };
    proof {
        assert(b@.stmts =~= d.stmts + dyn_exit(env.frame(), v, ty));
        assert(b@.terminator == dyn_exit_term(env.frame(), d.var_space()));
    }
}

/// A list of consecutive variables.
fn var_range(first: u32, n: usize) -> (r: Vec<IRVarId>)
    requires
        first + n <= u32::MAX,
    ensures
        r@ == Seq::new(n as nat, |i: int| IRVarId((first + i) as u32)),
{
    let mut out: Vec<IRVarId> = Vec::new();
    let mut i: usize = 0;
    while i < n
        invariant
            i <= n,
            first + n <= u32::MAX,
            out@.len() == i,
            forall|j: int| 0 <= j < i ==> (#[trigger] out@[j]).0 == first + j,
        decreases n - i,
    {
        out.push(IRVarId(first + i as u32));
        i += 1;
    }
    assert(out@ =~= Seq::new(n as nat, |k: int| IRVarId((first + k) as u32)));
    out
}

/// Emit the block of a branch.
fn emit_arm_subblock<P: Clone>(
    env: &EmitEnv,
    arm: &ArmSchema,
    start: Ghost<nat>,
    arg_tys: &Vec<IRTypeId>,
    has_commitment: bool,
    dispatch: u32,
    ctrl_prov: &P,
) -> (r: IRBlock<P>)
    requires
        env.ready(),
        arm.starts_at(start@, arg_tys@.len()),
        start@ + 2 + arg_tys@.len() <= env.slot_ids@.len(),
        forall|i: int|
            0 <= i < arg_tys@.len() ==> env.reg_alloc.file@.contains(#[trigger] arg_tys@[i]),
        3 * arg_tys@.len() + 6 <= u32::MAX,
    ensures
        r@ == arm_block(env.frame(), start@, arg_tys@, has_commitment, dispatch),
        controlled(r.stmts@, *ctrl_prov),
{
    let mut params: Vec<IRTypeId> = Vec::new();
    params.push(env.addr_ty);
    if has_commitment {
        params.push(env.addr_ty);
    }
    let ghost head = params@;
    let first: u32 = params.len() as u32;
    let mut tail = arg_tys.clone();
    params.append(&mut tail);
    let mut b = IRBlockUnfinished::new(params);
    let vals = var_range(first, arg_tys.len());
    let diff: Option<IRVarId> = if has_commitment {
        Some(IRVarId(1))
    } else {
        None
    };
    let ghost f = env.frame();
    emit_arm_writes(&mut b, env, arm, start, &vals, arg_tys);
    proof {
        lemma_arm_writes_len(
            f,
            head.len() + arg_tys@.len(),
            start@,
            vals@,
            arg_tys@,
            arg_tys@.len(),
        );
        assert(Seq::<StmtView>::empty() + arm_writes(
            f,
            head.len() + arg_tys@.len(),
            start@,
            vals@,
            arg_tys@,
            arg_tys@.len(),
        ) =~= arm_writes(
            f,
            head.len() + arg_tys@.len(),
            start@,
            vals@,
            arg_tys@,
            arg_tys@.len(),
        ));
    }
    emit_exit(&mut b, env, arm, start, Ghost(arg_tys@.len()), diff, dispatch);
    proof {
        let want = arm_block(f, start@, arg_tys@, has_commitment, dispatch);
        assert(head =~= if has_commitment {
            seq![f.addr_ty, f.addr_ty]
        } else {
            seq![f.addr_ty]
        });
        assert(b@.params =~= want.params);
        assert(b@ == want);
    }
    b.into_ir_block(ctrl_prov)
}

/// Emit the block of a branch with a dynamic destination.
fn emit_dyn_arm_subblock<P: Clone>(
    env: &EmitEnv,
    arm: &ArmSchema,
    start: Ghost<nat>,
    dyn_var_ty: IRTypeId,
    arg_tys: &Vec<IRTypeId>,
    ctrl_prov: &P,
) -> (r: IRBlock<P>)
    requires
        env.ready(),
        arm.starts_at(start@, arg_tys@.len()),
        start@ + 2 + arg_tys@.len() <= env.slot_ids@.len(),
        forall|i: int|
            0 <= i < arg_tys@.len() ==> env.reg_alloc.file@.contains(#[trigger] arg_tys@[i]),
        3 * arg_tys@.len() + 6 <= u32::MAX,
    ensures
        r@ == dyn_arm_block(env.frame(), start@, dyn_var_ty, arg_tys@),
        controlled(r.stmts@, *ctrl_prov),
{
    let mut params: Vec<IRTypeId> = Vec::new();
    params.push(env.addr_ty);
    params.push(dyn_var_ty);
    let ghost head = params@;
    let mut tail = arg_tys.clone();
    params.append(&mut tail);
    let mut b = IRBlockUnfinished::new(params);
    let vals = var_range(2, arg_tys.len());
    let ghost f = env.frame();
    emit_arm_writes(&mut b, env, arm, start, &vals, arg_tys);
    proof {
        let w = arm_writes(f, 2 + arg_tys@.len(), start@, vals@, arg_tys@, arg_tys@.len());
        lemma_arm_writes_len(f, 2 + arg_tys@.len(), start@, vals@, arg_tys@, arg_tys@.len());
        assert(Seq::<StmtView>::empty() + w =~= w);
    }
    emit_dyn_exit(&mut b, env, IRVarId(1), dyn_var_ty);
    proof {
        let want = dyn_arm_block(f, start@, dyn_var_ty, arg_tys@);
        assert(head =~= seq![f.addr_ty, dyn_var_ty]);
        assert(b@.params =~= want.params);
        assert(b@ == want);
    }
    b.into_ir_block(ctrl_prov)
}

/// Append the statements that compare the hash of the current row with the one
/// that was committed to.
fn emit_commitment_check_ir<H: IrHashAlgorithm>(
    em: &mut BlockEmitter,
    ctx: &CommitmentCtx<H>,
    schema: &HandlerSchema,
    env: &EmitEnv,
) -> (r: IRVarId)
    requires
        old(em).addr_ty == env.addr_ty,
        old(em).bit_ty == env.bit_ty,
        check_ready(ctx.check()),
        schema.slots@.len() == env.slot_ids@.len(),
        old(em).state().has_room(check_room(Some(ctx.check()), schema.slots@.len())),
        old(em).types@.len() < u32::MAX,
    ensures
        (final(em).state(), r) == check_row(
            env.frame(),
            old(em).state(),
            schema.slots@,
            ctx.check(),
        ),
        final(em).state().block.params == old(em).state().block.params,
        final(em).state().block.terminator == old(em).state().block.terminator,
        final(em).addr_ty == old(em).addr_ty,
        final(em).bit_ty == old(em).bit_ty,
        final(em).state().block.var_space() <= old(em).state().block.var_space() + check_room(
            Some(ctx.check()),
            schema.slots@.len(),
        ),
        old(em).types@.len() <= final(em).types@.len() <= old(em).types@.len() + 1,
{
    let ghost f = env.frame();
    let ghost e0 = em.state();
    let ghost c = ctx.check();
    let mut key_vars: Vec<(IRVarId, IRTypeId)> = Vec::new();
    if let Some(key_storage) = ctx.config.key_storage {
        let mut k: usize = 0;
        while k < ctx.key_type_ids.len()
            invariant
                k <= ctx.key_type_ids.len(),
                c == ctx.check(),
                e0.addr_ty == env.addr_ty,
                e0.has_room(2 * c.key_tys.len()),
                (em.state(), key_vars@) == key_reads(e0, key_storage, c.key_tys, k as nat),
                key_vars@.len() == k,
                em.state().block.params == e0.block.params,
                em.state().block.terminator == e0.block.terminator,
                em.addr_ty == e0.addr_ty,
                em.bit_ty == e0.bit_ty,
                em.state().types == e0.types,
                em.state().block.var_space() == e0.block.var_space() + 2 * k,
            decreases ctx.key_type_ids.len() - k,
        {
            let ty: IRTypeId = ctx.key_type_ids[k];
            let addr: IRVarId = em.emit(Stmt::Const(const_u32(k as u32), env.addr_ty));
            let kv: IRVarId = em.emit(Stmt::StorageRead { storage: key_storage, ty, addr });
            key_vars.push((kv, ty));
            k += 1;
        }
    }
    let ghost e1 = em.state();
    let ghost kv = key_vars@;
    let handler_idx: IRVarId = em.emit(
        Stmt::StorageRead { storage: env.bytecode_storage, ty: env.addr_ty, addr: IRVarId(0) },
    );
    let ghost e2 = em.state();
    let mut inputs: Vec<(IRVarId, IRTypeId)> = Vec::new();
    inputs.push((handler_idx, env.addr_ty));
    let ghost first = inputs@[0];
    let mut s: usize = 0;
    assert(inputs@ =~= seq![first] + slot_reads(f, e2, schema.slots@, 0).1);
    while s < schema.slots.len()
        invariant
            s <= schema.slots.len(),
            f == env.frame(),
            schema.slots@.len() == env.slot_ids@.len(),
            e2.has_room(schema.slots@.len()),
            em.state() == slot_reads(f, e2, schema.slots@, s as nat).0,
            inputs@ == seq![first] + slot_reads(f, e2, schema.slots@, s as nat).1,
            inputs@.len() == 1 + s,
            em.state().block.params == e2.block.params,
            em.state().block.terminator == e2.block.terminator,
            em.addr_ty == e2.addr_ty,
            em.bit_ty == e2.bit_ty,
            em.state().types == e2.types,
            em.state().block.var_space() == e2.block.var_space() + s,
        decreases schema.slots.len() - s,
    {
        let ty: IRTypeId = schema.slots[s].ty;
        let v: IRVarId = em.emit(
            Stmt::StorageRead { storage: env.slot_ids[s], ty, addr: IRVarId(0) },
        );
        inputs.push((v, ty));
        assert(inputs@ =~= seq![first] + slot_reads(f, e2, schema.slots@, (s + 1) as nat).1);
        s += 1;
    }
    let ghost e3 = em.state();
    let ghost words = slot_reads(f, e2, schema.slots@, schema.slots@.len()).1;
    let computed: IRVarId = ctx.config.algorithm.emit_ir(em, &key_vars, &inputs);
    let ghost e4 = em.state();
    let hash_ty: IRTypeId = ctx.hash_output_ty;
    let expected: IRVarId = em.emit(
        Stmt::StorageRead {
            storage: ctx.config.commitment_storage,
            ty: hash_ty,
            addr: IRVarId(0),
        },
    );
    let diff: IRVarId = em.emit(
        Stmt::Poly {
            ty: hash_ty,
            coeffs: xor_coeffs(computed, expected),
            constant: make_zero_constant(),
        },
    );
    if hash_ty == env.addr_ty {
        diff
    } else {
        em.emit(Stmt::Transmute { src: diff, src_ty: hash_ty, dst_ty: env.addr_ty })
    }
}

/// The type of each variable of a key; a variable without a value has none.
fn canonical_types(key: &IrHandlerKey) -> (r: Vec<IRTypeId>)
    requires
        key@.var_space() <= u32::MAX,
    ensures
        r@.len() == key@.var_space(),
        forall|j: int|
            0 <= j < r@.len() ==> (var_type(key@, IRVarId(j as u32)) matches Some(t)
                ==> #[trigger] r@[j] == t),
{
    let ghost k = key@;
    let mut out: Vec<IRTypeId> = key.params.clone();
    let mut i: usize = 0;
    while i < key.stmts.len()
        invariant
            i <= key.stmts.len(),
            k == key@,
            k.var_space() <= u32::MAX,
            out@.len() == k.params.len() + i,
            forall|j: int|
                0 <= j < out@.len() ==> (var_type(k, IRVarId(j as u32)) matches Some(t)
                    ==> #[trigger] out@[j] == t),
        decreases key.stmts.len() - i,
    {
        assert(k.stmts[i as int] == key.stmts@[i as int]@);
        match stmt_output_type(&key.stmts[i]) {
            Some(t) => {
                out.push(t);
            },
            None => {
                out.push(crate::common::TypeId(UNDEFINED_VAR));
            },
        }
        i += 1;
    }
    out
}

/// Append the statements of a handler before its terminator. The result names
/// the variable that holds each variable of the key.
fn emit_body(
    b: &mut IRBlockUnfinished,
    env: &EmitEnv,
    key: &IrHandlerKey,
    schema: &HandlerSchema,
) -> (vars: Vec<IRVarId>)
    requires
        env.ready(),
        schema.describes(key@, env.addr_ty, env.bit_ty),
        env.slot_ids@.len() == schema.slots@.len(),
        scoped(key@),
        typed_in(key@, env.reg_alloc.file@),
        2 * key@.params.len() + 3 * key@.stmts.len() + 1 < u32::MAX,
        old(b)@ == draft(env.frame(), Seq::empty(), Seq::empty()).block,
    ensures
        final(b)@ == draft(
            env.frame(),
            handler_body(env.frame(), key@, key@.stmts.len() as int).stmts,
            Seq::empty(),
        ).block,
        vars@ == handler_body(env.frame(), key@, key@.stmts.len() as int).vars,
{
    let ghost f = env.frame();
    let ghost k = key@;
    let mut vars: Vec<IRVarId> = Vec::new();
    let mut i: usize = 0;
    assert(param_reads(f, k.params, 0) =~= Seq::empty());
    while i < key.params.len()
        invariant
            i <= key.params.len(),
            f == env.frame(),
            k == key@,
            env.ready(),
            schema.describes(k, env.addr_ty, env.bit_ty),
            env.slot_ids@.len() == schema.slots@.len(),
            typed_in(k, env.reg_alloc.file@),
            2 * k.params.len() + 1 < u32::MAX,
            b@ == draft(f, param_reads(f, k.params, i as nat), Seq::empty()).block,
            vars@.len() == i,
            forall|j: int| 0 <= j < i ==> (#[trigger] vars@[j]).0 == 2 * j + 2,
        decreases key.params.len() - i,
    {
        proof {
            lemma_param_reads_len(f, k.params, i as nat);
            assert(schema.param_src_slot@[i as int] == i);
            assert(env.reg_alloc.file@.contains(k.params[i as int]));
        }
        let ty: IRTypeId = key.params[i];
        let reg: IRVarId = b.push(
            Stmt::StorageRead {
                storage: env.slot_ids[schema.param_src_slot[i]],
                ty: env.addr_ty,
                addr: IRVarId(0),
            },
        );
        let val: IRVarId = b.push(
            Stmt::StorageRead { storage: env.reg_alloc.storage_for(ty), ty, addr: reg },
        );
        vars.push(val);
        i += 1;
    }
    assert(vars@ =~= param_vars(k.params.len()));
    i = 0;
    while i < key.stmts.len()
        invariant
            i <= key.stmts.len(),
            f == env.frame(),
            k == key@,
            schema.describes(k, env.addr_ty, env.bit_ty),
            env.slot_ids@.len() == schema.slots@.len(),
            scoped(k),
            2 * k.params.len() + 3 * k.stmts.len() + 1 < u32::MAX,
            b@ == draft(f, handler_body(f, k, i as int).stmts, Seq::empty()).block,
            vars@ == handler_body(f, k, i as int).vars,
        decreases key.stmts.len() - i,
    {
        let ghost body = handler_body(f, k, i as int);
        proof {
            lemma_body(f, k, i as int);
            assert(k.stmts[i as int] == key.stmts@[i as int]@);
            assert(stmt_mapped(k.stmts[i as int], scope(k, i as int)));
            lemma_stmt_mapped(k.stmts[i as int], scope(k, i as int), body.vars);
            lemma_stmt_slots_take(k.stmts, i as int);
            lemma_arms_width(arms(k.terminator), env.addr_ty, env.bit_ty);
            match schema.const_value_slot@[i as int] {
                Some(x) => {},
                None => {},
            }
            assert(handler_body(f, k, i + 1) == body_step(
                f,
                body,
                k.stmts[i as int],
                k.params.len() + stmt_slots(k.stmts.take(i as int)).len(),
            ));
        }
        match &key.stmts[i] {
            Stmt::Const(_, ty) => {
                if let Some(slot) = schema.const_value_slot[i] {
                    let v: IRVarId = b.push(
                        Stmt::StorageRead {
                            storage: env.slot_ids[slot],
                            ty: *ty,
                            addr: IRVarId(0),
                        },
                    );
                    vars.push(v);
                }
            },
            Stmt::Poly { ty, coeffs, .. } => {
                if let Some(slot) = schema.const_value_slot[i] {
                    let c: IRVarId = b.push(
                        Stmt::StorageRead {
                            storage: env.slot_ids[slot],
                            ty: *ty,
                            addr: IRVarId(0),
                        },
                    );
                    let out: IRVarId = b.push(
                        Stmt::Poly {
                            ty: *ty,
                            coeffs: remap_coeffs(coeffs, &vars),
                            constant: make_zero_constant(),
                        },
                    );
                    let v: IRVarId = b.push(
                        Stmt::Poly {
                            ty: *ty,
                            coeffs: xor_coeffs(out, c),
                            constant: make_zero_constant(),
                        },
                    );
                    vars.push(v);
                }
            },
            other => {
                let renamed = remap_stmt(other, &vars);
                let has_value: bool = stmt_output_type(other).is_some();
                let v: IRVarId = b.push(renamed);
                if has_value {
                    vars.push(v);
                } else {
                    vars.push(IRVarId(UNDEFINED_VAR));
                }
            },
        }
        assert(b@.stmts =~= handler_body(f, k, i + 1).stmts);
        assert(vars@ =~= handler_body(f, k, i + 1).vars);
        i += 1;
    }
    vars
}

/// The values of a list of variables of a key.
fn values_of(args: &Vec<IRVarId>, vars: &Vec<IRVarId>) -> (r: Vec<IRVarId>)
    requires
        forall|i: int| 0 <= i < args@.len() ==> (#[trigger] args@[i]).0 < vars@.len(),
    ensures
        r@ == renamed_vars(args@, vars@),
{
    let mut out: Vec<IRVarId> = Vec::new();
    let mut i: usize = 0;
    while i < args.len()
        invariant
            i <= args.len(),
            forall|j: int| 0 <= j < args@.len() ==> (#[trigger] args@[j]).0 < vars@.len(),
            out@.len() == i,
            forall|j: int| 0 <= j < i ==> #[trigger] out@[j] == vars@[args@[j].0 as int],
        decreases args.len() - i,
    {
        out.push(vars[args[i].0 as usize]);
        i += 1;
    }
    assert(out@ =~= renamed_vars(args@, vars@));
    out
}

/// The types of a list of variables of a key.
fn types_of(
    args: &Vec<IRVarId>,
    types: &Vec<IRTypeId>,
    key: Ghost<IRBlockView>,
) -> (r: Vec<IRTypeId>)
    requires
        vars_typed(key@, args@),
        types@.len() == key@.var_space(),
        forall|j: int|
            0 <= j < types@.len() ==> (var_type(key@, IRVarId(j as u32)) matches Some(t)
                ==> #[trigger] types@[j] == t),
    ensures
        r@ == var_types(key@, args@),
{
    let mut out: Vec<IRTypeId> = Vec::new();
    let mut i: usize = 0;
    while i < args.len()
        invariant
            i <= args.len(),
            vars_typed(key@, args@),
            types@.len() == key@.var_space(),
            forall|j: int|
                0 <= j < types@.len() ==> (var_type(key@, IRVarId(j as u32)) matches Some(t)
                    ==> #[trigger] types@[j] == t),
            out@.len() == i,
            forall|j: int| 0 <= j < i ==> #[trigger] out@[j] == var_type(key@, args@[j])->0,
        decreases args.len() - i,
    {
        let v: IRVarId = args[i];
        assert(var_type(key@, args@[i as int]) is Some);
        assert(IRVarId(v.0 as int as u32) == v);
        out.push(types[v.0 as usize]);
        i += 1;
    }
    assert(out@ =~= var_types(key@, args@));
    out
}

/// What is passed to the block of a branch.
fn branch_call_args(arm: &IRBranchTarget, vars: &Vec<IRVarId>, diff: Option<IRVarId>) -> (r: Vec<
    IRVarId,
>)
    requires
        forall|i: int| 0 <= i < arm.args@.len() ==> (#[trigger] arm.args@[i]).0 < vars@.len(),
        arm.dest matches IRBlockTargetId::Dyn(v) ==> v.0 < vars@.len(),
    ensures
        r@ == call_args(arm@, vars@, diff),
{
    let mut out = match &arm.dest {
        IRBlockTargetId::Dyn(v) => two_vars(IRVarId(0), vars[v.0 as usize]),
        _ => match diff {
            Some(d) => two_vars(IRVarId(0), d),
            None => one_var(IRVarId(0)),
        },
    };
    let mut rest = values_of(&arm.args, vars);
    out.append(&mut rest);
    assert(out@ =~= call_args(arm@, vars@, diff));
    out
}

/// The views of a list of blocks.
pub open spec fn all_controlled<P: Clone>(blocks: Seq<IRBlock<P>>, prov: P) -> bool {
    forall|i: int| 0 <= i < blocks.len() ==> controlled((#[trigger] blocks[i]).stmts@, prov)
}

/// Emit the blocks of branch `a`.
fn emit_arm_blocks<P: Clone>(
    env: &EmitEnv,
    key: &IrHandlerKey,
    schema: &HandlerSchema,
    types: &Vec<IRTypeId>,
    arm: &IRBranchTarget,
    a: usize,
    checked: bool,
    bid: u32,
    extras: &mut Vec<IRBlock<P>>,
    ctrl_prov: &P,
)
    requires
        env.ready(),
        schema.describes(key@, env.addr_ty, env.bit_ty),
        env.slot_ids@.len() == schema.slots@.len(),
        scoped(key@),
        typed_in(key@, env.reg_alloc.file@),
        a < arms(key@.terminator).len(),
        arm@ == arms(key@.terminator)[a as int],
        types@.len() == key@.var_space(),
        forall|j: int|
            0 <= j < types@.len() ==> (var_type(key@, IRVarId(j as u32)) matches Some(t)
                ==> #[trigger] types@[j] == t),
        3 * arms_width(arms(key@.terminator)) + 6 <= u32::MAX,
        bid < u32::MAX,
        all_controlled(old(extras)@, *ctrl_prov),
    ensures
        block_views(final(extras)@) == block_views(old(extras)@)
            + arm_blocks(env.frame(), key@, a as int, checked, bid as nat),
        all_controlled(final(extras)@, *ctrl_prov),
{
    let ghost f = env.frame();
    let ghost k = key@;
    let ghost av = arms(k.terminator);
    let ghost start = arm_start(k, a as int);
    proof {
        assert(vars_typed(k, av[a as int].args));
        lemma_arms_width_take(av, a as int, a + 1);
        assert(av.take(a + 1).drop_last() =~= av.take(a as int));
        assert(av.take(a + 1).last() == av[a as int]);
        lemma_arms_width(av, env.addr_ty, env.bit_ty);
    }
    let arg_tys = types_of(&arm.args, types, Ghost(k));
    proof {
        assert forall|i: int| 0 <= i < arg_tys@.len() implies env.reg_alloc.file@.contains(
            #[trigger] arg_tys@[i],
        ) by {
            assert(av[a as int].args[i] == arm.args@[i]);
        }
        assert(schema.arms@[a as int].starts_at(start, av[a as int].args.len()));
    }
    let ghost before = extras@;
    match &arm.dest {
        IRBlockTargetId::Dyn(v) => {
            assert(var_type(k, *v) is Some);
            assert(IRVarId(v.0 as int as u32) == *v);
            let block = emit_dyn_arm_subblock(
                env,
                &schema.arms[a],
                Ghost(start),
                types[v.0 as usize],
                &arg_tys,
                ctrl_prov,
            );
            extras.push(block);
            assert(block_views(extras@) =~= block_views(before) + arm_blocks(
                f,
                k,
                a as int,
                checked,
                bid as nat,
            ));
        },
        _ => {
            let block = emit_arm_subblock(
                env,
                &schema.arms[a],
                Ghost(start),
                &arg_tys,
                checked,
                bid + 1,
                ctrl_prov,
            );
            extras.push(block);
            if let Some(n) = env.direct {
                extras.push(
                    emit_dispatch_block_with_base(
                        n,
                        env.bytecode_storage,
                        env.addr_ty,
                        DD_HANDLER_BID_BASE,
                        ctrl_prov,
                    ),
                );
            }
            assert(block_views(extras@) =~= block_views(before) + arm_blocks(
                f,
                k,
                a as int,
                checked,
                bid as nat,
            ));
        },
    }
}

/// The blocks that were emitted for a handler.
pub struct HandlerBlocks<P> {
    pub block: IRBlock<P>,
    pub extras: Vec<IRBlock<P>>,
    pub types: TypeTable,
}

/// Each branch has at most two blocks.
pub proof fn lemma_arms_blocks_len(
    f: Frame,
    key: IRBlockView,
    n: int,
    checked: bool,
    first: nat,
)
    requires
        0 <= n <= arms(key.terminator).len(),
    ensures
        arms_blocks(f, key, n, checked, first).len() <= 2 * n,
    decreases n,
{
    if n > 0 {
        lemma_arms_blocks_len(f, key, n - 1, checked, first);
    }
}

/// Emit the blocks of every branch of a terminator that decides.
fn emit_arms<P: Clone>(
    env: &EmitEnv,
    key: &IrHandlerKey,
    schema: &HandlerSchema,
    types: &Vec<IRTypeId>,
    list: &Vec<&IRBranchTarget>,
    checked: bool,
    first: u32,
    ctrl_prov: &P,
) -> (r: (Vec<IRBlock<P>>, Vec<u32>))
    requires
        env.ready(),
        schema.describes(key@, env.addr_ty, env.bit_ty),
        env.slot_ids@.len() == schema.slots@.len(),
        scoped(key@),
        typed_in(key@, env.reg_alloc.file@),
        branch_views(list@) == arms(key@.terminator),
        types@.len() == key@.var_space(),
        forall|j: int|
            0 <= j < types@.len() ==> (var_type(key@, IRVarId(j as u32)) matches Some(t)
                ==> #[trigger] types@[j] == t),
        3 * arms_width(arms(key@.terminator)) + 6 <= u32::MAX,
        first + 2 * arms(key@.terminator).len() <= u32::MAX,
    ensures
        block_views(r.0@) == arms_blocks(
            env.frame(),
            key@,
            arms(key@.terminator).len() as int,
            checked,
            first as nat,
        ),
        all_controlled(r.0@, *ctrl_prov),
        r.1@.len() == arms(key@.terminator).len(),
        forall|a: int|
            0 <= a < r.1@.len() ==> #[trigger] r.1@[a] == arm_bid(
                env.frame(),
                key@,
                a,
                checked,
                first as nat,
            ),
{
    let ghost f = env.frame();
    let ghost k = key@;
    let ghost av = arms(k.terminator);
    let mut extras: Vec<IRBlock<P>> = Vec::new();
    let mut bids: Vec<u32> = Vec::new();
    let mut a: usize = 0;
    assert(block_views(extras@) =~= Seq::empty());
    while a < list.len()
        invariant
            a <= list.len(),
            f == env.frame(),
            k == key@,
            av == arms(k.terminator),
            env.ready(),
            schema.describes(k, env.addr_ty, env.bit_ty),
            env.slot_ids@.len() == schema.slots@.len(),
            scoped(k),
            typed_in(k, env.reg_alloc.file@),
            branch_views(list@) == av,
            types@.len() == k.var_space(),
            forall|j: int|
                0 <= j < types@.len() ==> (var_type(k, IRVarId(j as u32)) matches Some(t)
                    ==> #[trigger] types@[j] == t),
            3 * arms_width(av) + 6 <= u32::MAX,
            first + 2 * av.len() <= u32::MAX,
            block_views(extras@) == arms_blocks(f, k, a as int, checked, first as nat),
            all_controlled(extras@, *ctrl_prov),
            bids@.len() == a,
            forall|j: int|
                0 <= j < a ==> #[trigger] bids@[j] == arm_bid(f, k, j, checked, first as nat),
        decreases list.len() - a,
    {
        proof {
            lemma_arms_blocks_len(f, k, a as int, checked, first as nat);
            assert(list@[a as int]@ == av[a as int]);
            assert(block_views(extras@).len() == extras@.len());
        }
        let bid: u32 = first + extras.len() as u32;
        bids.push(bid);
        emit_arm_blocks(
            env,
            key,
            schema,
            types,
            list[a],
            a,
            checked,
            bid,
            &mut extras,
            ctrl_prov,
        );
        a += 1;
    }
    (extras, bids)
}

/// A bound on the number of further blocks of a handler.
pub open spec fn extra_room(key: IRBlockView) -> nat {
    2 * arms(key.terminator).len()
}

/// The variables that the branches of a key pass on have a value in the body.
proof fn lemma_arm_vars(f: Frame, key: IRBlockView)
    requires
        scoped(key),
        2 * key.params.len() + 3 * key.stmts.len() + 1 < u32::MAX,
    ensures
        forall|a: int, i: int|
            0 <= a < arms(key.terminator).len() && 0 <= i < arms(key.terminator)[a].args.len() ==> (
            #[trigger] arms(key.terminator)[a].args[i]).0 < handler_body(
                f,
                key,
                key.stmts.len() as int,
            ).vars.len(),
        forall|a: int|
            0 <= a < arms(key.terminator).len() ==> ((#[trigger] arms(key.terminator)[a]).dest
                matches IRBlockTargetId::Dyn(v) ==> v.0 < handler_body(
                f,
                key,
                key.stmts.len() as int,
            ).vars.len()),
{
    let av = arms(key.terminator);
    lemma_body(f, key, key.stmts.len() as int);
    assert forall|a: int, i: int| 0 <= a < av.len() && 0 <= i < av[a].args.len() implies (
    #[trigger] av[a].args[i]).0 < key.var_space() by {
        assert(vars_typed(key, av[a].args));
        assert(var_type(key, av[a].args[i]) is Some);
    }
    assert forall|a: int| 0 <= a < av.len() implies ((#[trigger] av[a]).dest matches
        IRBlockTargetId::Dyn(v) ==> v.0 < key.var_space()) by {
        if let IRBlockTargetId::Dyn(v) = av[a].dest {
            assert(var_type(key, v) is Some);
        }
    }
}

/// The emitter of a handler whose body has been emitted.
fn start_handler(
    env: &EmitEnv,
    key: &IrHandlerKey,
    schema: &HandlerSchema,
    types: TypeTable,
) -> (r: (BlockEmitter, Vec<IRVarId>))
    requires
        env.ready(),
        schema.describes(key@, env.addr_ty, env.bit_ty),
        env.slot_ids@.len() == schema.slots@.len(),
        scoped(key@),
        typed_in(key@, env.reg_alloc.file@),
        2 * key@.params.len() + 3 * key@.stmts.len() + 1 < u32::MAX,
    ensures
        r.0.state() == draft(
            env.frame(),
            handler_body(env.frame(), key@, key@.stmts.len() as int).stmts,
            types@,
        ),
        r.1@ == handler_body(env.frame(), key@, key@.stmts.len() as int).vars,
{
    let ghost f = env.frame();
    let mut params: Vec<IRTypeId> = Vec::new();
    params.push(env.addr_ty);
    assert(params@ =~= seq![f.addr_ty]);
    let mut b = IRBlockUnfinished::new(params);
    assert(b@ == draft(f, Seq::empty(), Seq::empty()).block);
    let vars = emit_body(&mut b, env, key, schema);
    (BlockEmitter { block: b, types, addr_ty: env.addr_ty, bit_ty: env.bit_ty }, vars)
}

/// Append the check of an optional commitment.
fn emit_check<H: IrHashAlgorithm>(
    em: &mut BlockEmitter,
    commitment: Option<&CommitmentCtx<H>>,
    schema: &HandlerSchema,
    env: &EmitEnv,
) -> (r: Option<IRVarId>)
    requires
        old(em).addr_ty == env.addr_ty,
        old(em).bit_ty == env.bit_ty,
        commitment matches Some(ctx) ==> check_ready(ctx.check()),
        schema.slots@.len() == env.slot_ids@.len(),
        old(em).state().has_room(check_room(check_of(commitment), schema.slots@.len())),
        old(em).types@.len() < u32::MAX,
    ensures
        (final(em).state(), r) == check_row_if(
            env.frame(),
            old(em).state(),
            schema.slots@,
            check_of(commitment),
        ),
        final(em).state().block.params == old(em).state().block.params,
        final(em).state().block.terminator == old(em).state().block.terminator,
        final(em).addr_ty == old(em).addr_ty,
        final(em).bit_ty == old(em).bit_ty,
        final(em).state().block.var_space() <= old(em).state().block.var_space() + check_room(
            check_of(commitment),
            schema.slots@.len(),
        ),
        old(em).types@.len() <= final(em).types@.len() <= old(em).types@.len() + 1,
{
    match commitment {
        Some(ctx) => Some(emit_commitment_check_ir(em, ctx, schema, env)),
        None => None,
    }
}

/// Emit the handler of a key that jumps.
fn emit_jump_handler<P: Clone, H: IrHashAlgorithm>(
    env: &EmitEnv,
    key: &IrHandlerKey,
    schema: &HandlerSchema,
    target: &IRBranchTarget,
    types: TypeTable,
    first: u32,
    commitment: Option<&CommitmentCtx<H>>,
    ctrl_prov: &P,
) -> (r: HandlerBlocks<P>)
    requires
        env.ready(),
        schema.describes(key@, env.addr_ty, env.bit_ty),
        env.slot_ids@.len() == schema.slots@.len(),
        scoped(key@),
        typed_in(key@, env.reg_alloc.file@),
        commitment matches Some(ctx) ==> check_ready(ctx.check()),
        handler_room(key@, check_of(commitment), schema.slots@.len()) <= u32::MAX,
        first + extra_room(key@) <= u32::MAX,
        types@.len() < u32::MAX,
        key@.terminator == (TermView::Jmp { target: target@ }),
    ensures
        (Handler {
            block: r.block@,
            extras: block_views(r.extras@),
            types: r.types@,
        }) == jump_handler(
            env.frame(),
            key@,
            target@,
            check_of(commitment),
            types@,
            first as nat,
        ),
        controlled(r.block.stmts@, *ctrl_prov),
        all_controlled(r.extras@, *ctrl_prov),
        types@.len() <= r.types@.len() <= types@.len() + 1,
{
    let ghost f = env.frame();
    let ghost k = key@;
    let ghost av = arms(k.terminator);
    let ghost t0 = types@;
    let ghost body = handler_body(f, k, k.stmts.len() as int);
    let ghost start = arm_start(k, 0);
    let canon_types = canonical_types(key);
    proof {
        lemma_body(f, k, k.stmts.len() as int);
        lemma_arm_vars(f, k);
        lemma_arms_width(av, env.addr_ty, env.bit_ty);
        assert(av[0] == target@);
        assert(vars_typed(k, av[0].args));
        assert(av =~= seq![target@]);
        assert(av.take(0) =~= Seq::empty());
        assert(av.drop_last() =~= Seq::empty());
        assert(arms_width(av) == 2 + target@.args.len()) by {
            reveal_with_fuel(arms_width, 2);
        }
        assert(schema.arms@[0].starts_at(start, target@.args.len()));
        assert forall|i: int| 0 <= i < target.args@.len() implies (#[trigger] target.args@[i]).0
            < body.vars.len() by {
            assert(av[0].args[i] == target.args@[i]);
        }
    }
    let (mut em, vars) = start_handler(env, key, schema, types);
    let vals = values_of(&target.args, &vars);
    let tys = types_of(&target.args, &canon_types, Ghost(k));
    proof {
        assert forall|i: int| 0 <= i < tys@.len() implies env.reg_alloc.file@.contains(
            #[trigger] tys@[i],
        ) by {
            assert(av[0].args[i] == target.args@[i]);
        }
        lemma_arm_writes_len(f, 1 + body.stmts.len(), start, vals@, tys@, target@.args.len());
    }
    emit_arm_writes(&mut em.block, env, &schema.arms[0], Ghost(start), &vals, &tys);
    let ghost stmts = em.block@.stmts;
    match &target.dest {
        IRBlockTargetId::Dyn(v) => {
            assert(var_type(k, *v) is Some);
            assert(IRVarId(v.0 as int as u32) == *v);
            emit_dyn_exit(&mut em.block, env, vars[v.0 as usize], canon_types[v.0 as usize]);
            let extras: Vec<IRBlock<P>> = Vec::new();
            assert(block_views(extras@) =~= Seq::empty());
            HandlerBlocks { block: em.block.into_ir_block(ctrl_prov), extras, types: em.types }
        },
        _ => {
            assert(em.state() == draft(f, stmts, t0));
            let diff: Option<IRVarId> = emit_check(&mut em, commitment, schema, env);
            emit_exit(
                &mut em.block,
                env,
                &schema.arms[0],
                Ghost(start),
                Ghost(target@.args.len()),
                diff,
                first,
            );
            let mut extras: Vec<IRBlock<P>> = Vec::new();
            if let Some(n) = env.direct {
                extras.push(
                    emit_dispatch_block_with_base(
                        n,
                        env.bytecode_storage,
                        env.addr_ty,
                        DD_HANDLER_BID_BASE,
                        ctrl_prov,
                    ),
                );
            }
            assert(block_views(extras@) =~= match f.direct {
                Some(n) => seq![dispatch_block(n, f.bytecode, f.addr_ty, DD_HANDLER_BID_BASE)],
                None => Seq::empty(),
            });
            HandlerBlocks { block: em.block.into_ir_block(ctrl_prov), extras, types: em.types }
        },
    }
}

/// Emit the handler of a key that decides by a condition.
fn emit_cond_handler<P: Clone, H: IrHashAlgorithm>(
    env: &EmitEnv,
    key: &IrHandlerKey,
    schema: &HandlerSchema,
    condition: IRVarId,
    then_target: &IRBranchTarget,
    else_target: &IRBranchTarget,
    types: TypeTable,
    first: u32,
    commitment: Option<&CommitmentCtx<H>>,
    ctrl_prov: &P,
) -> (r: HandlerBlocks<P>)
    requires
        env.ready(),
        schema.describes(key@, env.addr_ty, env.bit_ty),
        env.slot_ids@.len() == schema.slots@.len(),
        scoped(key@),
        typed_in(key@, env.reg_alloc.file@),
        commitment matches Some(ctx) ==> check_ready(ctx.check()),
        handler_room(key@, check_of(commitment), schema.slots@.len()) <= u32::MAX,
        first + extra_room(key@) <= u32::MAX,
        types@.len() < u32::MAX,
        key@.terminator == (TermView::JumpCond {
            condition,
            then_target: then_target@,
            else_target: else_target@,
        }),
    ensures
        (Handler {
            block: r.block@,
            extras: block_views(r.extras@),
            types: r.types@,
        }) == cond_handler(
            env.frame(),
            key@,
            condition,
            then_target@,
            else_target@,
            check_of(commitment),
            types@,
            first as nat,
        ),
        controlled(r.block.stmts@, *ctrl_prov),
        all_controlled(r.extras@, *ctrl_prov),
        types@.len() <= r.types@.len() <= types@.len() + 1,
{
    let ghost f = env.frame();
    let ghost k = key@;
    let ghost av = arms(k.terminator);
    let canon_types = canonical_types(key);
    let list = terminator_arms(&key.terminator);
    proof {
        lemma_body(f, k, k.stmts.len() as int);
        lemma_arm_vars(f, k);
        assert(av[0] == then_target@);
        assert(av[1] == else_target@);
    }
    let (mut em, vars) = start_handler(env, key, schema, types);
    proof {
        assert forall|i: int| 0 <= i < then_target.args@.len() implies (
        #[trigger] then_target.args@[i]).0 < vars@.len() by {
            assert(av[0].args[i] == then_target.args@[i]);
        }
        assert forall|i: int| 0 <= i < else_target.args@.len() implies (
        #[trigger] else_target.args@[i]).0 < vars@.len() by {
            assert(av[1].args[i] == else_target.args@[i]);
        }
    }
    let diff: Option<IRVarId> = emit_check(&mut em, commitment, schema, env);
    let (extras, bids) = emit_arms(
        env,
        key,
        schema,
        &canon_types,
        &list,
        commitment.is_some(),
        first,
        ctrl_prov,
    );
    em.block.terminator =
    IRTerminator::JumpCond {
        condition: vars[condition.0 as usize],
        then_target: jump_to(bids[0], branch_call_args(then_target, &vars, diff)),
        else_target: jump_to(bids[1], branch_call_args(else_target, &vars, diff)),
    };
    HandlerBlocks { block: em.block.into_ir_block(ctrl_prov), extras, types: em.types }
}

/// Emit the handler of a key that decides by an index.
fn emit_table_handler<P: Clone, H: IrHashAlgorithm>(
    env: &EmitEnv,
    key: &IrHandlerKey,
    schema: &HandlerSchema,
    index: IRVarId,
    cases: &Vec<(Constant, IRBranchTarget)>,
    types: TypeTable,
    first: u32,
    commitment: Option<&CommitmentCtx<H>>,
    ctrl_prov: &P,
) -> (r: HandlerBlocks<P>)
    requires
        env.ready(),
        schema.describes(key@, env.addr_ty, env.bit_ty),
        env.slot_ids@.len() == schema.slots@.len(),
        scoped(key@),
        typed_in(key@, env.reg_alloc.file@),
        commitment matches Some(ctx) ==> check_ready(ctx.check()),
        handler_room(key@, check_of(commitment), schema.slots@.len()) <= u32::MAX,
        first + extra_room(key@) <= u32::MAX,
        types@.len() < u32::MAX,
        key@.terminator == (TermView::JumpTable { index, cases: case_views(cases@) }),
    ensures
        (Handler {
            block: r.block@,
            extras: block_views(r.extras@),
            types: r.types@,
        }) == table_handler(
            env.frame(),
            key@,
            index,
            case_views(cases@),
            check_of(commitment),
            types@,
            first as nat,
        ),
        controlled(r.block.stmts@, *ctrl_prov),
        all_controlled(r.extras@, *ctrl_prov),
        types@.len() <= r.types@.len() <= types@.len() + 1,
{
    let ghost f = env.frame();
    let ghost k = key@;
    let ghost av = arms(k.terminator);
    let ghost cv = case_views(cases@);
    let ghost t0 = types@;
    let canon_types = canonical_types(key);
    let list = terminator_arms(&key.terminator);
    proof {
        lemma_body(f, k, k.stmts.len() as int);
        lemma_arm_vars(f, k);
    }
    let (mut em, vars) = start_handler(env, key, schema, types);
    let diff: Option<IRVarId> = emit_check(&mut em, commitment, schema, env);
    let (extras, bids) = emit_arms(
        env,
        key,
        schema,
        &canon_types,
        &list,
        commitment.is_some(),
        first,
        ctrl_prov,
    );
    let mut out: Vec<(Constant, IRBranchTarget)> = Vec::new();
    let mut a: usize = 0;
    while a < cases.len()
        invariant
            a <= cases.len(),
            cv == case_views(cases@),
            av.len() == cv.len(),
            bids@.len() == av.len(),
            av == arms(k.terminator),
            k.terminator == (TermView::JumpTable { index, cases: cv }),
            forall|x: int, i: int|
                0 <= x < av.len() && 0 <= i < av[x].args.len() ==> (#[trigger] av[x].args[i]).0
                    < vars@.len(),
            forall|x: int|
                0 <= x < av.len() ==> ((#[trigger] av[x]).dest matches IRBlockTargetId::Dyn(v)
                    ==> v.0 < vars@.len()),
            out@.len() == a,
            forall|x: int|
                0 <= x < a ==> (#[trigger] out@[x]).0 == cv[x].0 && out@[x].1@ == jump(
                    bids@[x],
                    call_args(cv[x].1, vars@, diff),
                ),
        decreases cases.len() - a,
    {
        proof {
            assert(av[a as int] == cv[a as int].1);
            assert(cv[a as int].1 == cases@[a as int].1@);
            assert forall|i: int| 0 <= i < cases@[a as int].1.args@.len() implies (
            #[trigger] cases@[a as int].1.args@[i]).0 < vars@.len() by {
                assert(av[a as int].args[i] == cases@[a as int].1.args@[i]);
            }
        }
        out.push((cases[a].0, jump_to(bids[a], branch_call_args(&cases[a].1, &vars, diff))));
        a += 1;
    }
    let ghost want = table_handler(f, k, index, cv, check_of(commitment), t0, first as nat);
    assert(case_views(out@) =~= want.block.terminator->cases);
    em.block.terminator = IRTerminator::JumpTable { index: vars[index.0 as usize], cases: out };
    HandlerBlocks { block: em.block.into_ir_block(ctrl_prov), extras, types: em.types }
}

/// Emit a handler.
pub fn emit_handler_block<P: Clone, H: IrHashAlgorithm>(
    env: &EmitEnv,
    key: &IrHandlerKey,
    schema: &HandlerSchema,
    types: TypeTable,
    first: u32,
    commitment: Option<&CommitmentCtx<H>>,
    ctrl_prov: &P,
) -> (r: HandlerBlocks<P>)
    requires
        env.ready(),
        schema.describes(key@, env.addr_ty, env.bit_ty),
        env.slot_ids@.len() == schema.slots@.len(),
        scoped(key@),
        typed_in(key@, env.reg_alloc.file@),
        commitment matches Some(ctx) ==> check_ready(ctx.check()),
        handler_room(key@, check_of(commitment), schema.slots@.len()) <= u32::MAX,
        first + extra_room(key@) <= u32::MAX,
        types@.len() < u32::MAX,
    ensures
        (Handler {
            block: r.block@,
            extras: block_views(r.extras@),
            types: r.types@,
        }) == handler(env.frame(), key@, check_of(commitment), types@, first as nat),
        controlled(r.block.stmts@, *ctrl_prov),
        all_controlled(r.extras@, *ctrl_prov),
        types@.len() <= r.types@.len() <= types@.len() + 1,
{
    proof {
        reveal(handler);
    }
    match &key.terminator {
        IRTerminator::Jmp { target } => emit_jump_handler(
            env,
            key,
            schema,
            target,
            types,
            first,
            commitment,
            ctrl_prov,
        ),
        IRTerminator::JumpCond { condition, then_target, else_target } => emit_cond_handler(
            env,
            key,
            schema,
            *condition,
            then_target,
            else_target,
            types,
            first,
            commitment,
            ctrl_prov,
        ),
        IRTerminator::JumpTable { index, cases } => emit_table_handler(
            env,
            key,
            schema,
            *index,
            cases,
            types,
            first,
            commitment,
            ctrl_prov,
        ),
    }
}

} // verus!
