//! Assembly of a virtualised typed module: setup, dispatch, return, handlers.

use vstd::prelude::*;

use crate::common::{IrTypeView, StorageId, TypeTable};
use crate::ir::{
    block_views, IRBlock, IRBlockView, IRTerminator, IRTypeId, IRVarId, Stmt, StmtView, TermView,
};
use crate::virt::canon::IrHandlerKey;
use crate::virt::ctx::key_views;
use crate::virt::emit::{
    controlled, dispatch_block, dispatcher_block, emit_dispatch_block_with_base,
    emit_dispatcher_block, emit_return_block, jump, jump_to, one_var, return_block,
    return_nothing, two_vars, IRBlockUnfinished, DD_HANDLER_BID_BASE, DD_INIT_DISPATCH_BID,
    DISPATCHER_BID, HANDLER_BID_BASE,
};
use crate::virt::handler::{
    all_controlled, check_of, check_ready, emit_handler_block, extra_room, handler, handler_room,
    scoped, typed_in, Check, CommitmentCtx, EmitEnv, Frame,
};
use crate::virt::hash::IrHashAlgorithm;
use crate::virt::regs::{register_index, register_storage, registers, RegAlloc};
use crate::virt::schema::{
    const_bit, const_u32, constant_of, constant_of_bit, handler_slots, slot_storages, GlobalLayout,
};

verus! {

// ---------------------------------------------------------------------------
// Setup
// ---------------------------------------------------------------------------

/// The writes of the first `n` key words to the storage of the key. They stand
/// behind `at` variables.
pub open spec fn key_writes(
    storage: StorageId,
    key_tys: Seq<IRTypeId>,
    addr_ty: IRTypeId,
    at: nat,
    n: nat,
) -> Seq<StmtView>
    decreases n,
{
    if n == 0 {
        Seq::empty()
    } else {
        key_writes(storage, key_tys, addr_ty, at, (n - 1) as nat).push(
            StmtView::Const(constant_of((n - 1) as u32), addr_ty),
        ).push(
            StmtView::StorageWrite {
                storage,
                src: IRVarId((n - 1) as u32),
                ty: key_tys[n - 1],
                addr: IRVarId((at + 2 * (n - 1)) as u32),
            },
        )
    }
}

/// The writes of the first `n` parameters of the entry block to their
/// registers. They stand behind `at` variables; the parameters follow `n_key`
/// key words.
pub open spec fn entry_writes(
    params: Seq<IRTypeId>,
    file: Seq<IRTypeId>,
    base: u32,
    addr_ty: IRTypeId,
    n_key: nat,
    at: nat,
    n: nat,
) -> Seq<StmtView>
    decreases n,
{
    if n == 0 {
        Seq::empty()
    } else {
        let ty = params[n - 1];
        entry_writes(params, file, base, addr_ty, n_key, at, (n - 1) as nat).push(
            StmtView::Const(constant_of(register_index(params, n - 1)), addr_ty),
        ).push(
            StmtView::StorageWrite {
                storage: register_storage(file, base, ty),
                src: IRVarId((n_key + n - 1) as u32),
                ty,
                addr: IRVarId((at + 2 * (n - 1)) as u32),
            },
        )
    }
}

/// The key words that the setup block takes.
pub open spec fn key_params<H: IrHashAlgorithm>(check: Option<Check<H>>) -> Seq<IRTypeId> {
    match check {
        Some(c) => c.key_tys,
        None => Seq::empty(),
    }
}

/// The writes of the key words by the setup block.
pub open spec fn setup_key_writes<H: IrHashAlgorithm>(
    check: Option<Check<H>>,
    addr_ty: IRTypeId,
    at: nat,
) -> Seq<StmtView> {
    match check {
        Some(c) => match c.key_storage {
            Some(storage) => key_writes(storage, c.key_tys, addr_ty, at, c.key_tys.len()),
            None => Seq::empty(),
        },
        None => Seq::empty(),
    }
}

/// The setup block: takes the key words and the parameters of the entry block,
/// stores both, and enters row 0.
pub open spec fn setup_block<H: IrHashAlgorithm>(
    f: Frame,
    entry: Seq<IRTypeId>,
    check: Option<Check<H>>,
) -> IRBlockView {
    let params = key_params(check) + entry;
    let keys = setup_key_writes(check, f.addr_ty, params.len());
    let at = params.len() + keys.len();
    let writes = keys + entry_writes(
        entry,
        f.file,
        f.base,
        f.addr_ty,
        key_params(check).len(),
        at,
        entry.len(),
    );
    let n = params.len() + writes.len();
    let pc = StmtView::Const(constant_of(0), f.addr_ty);
    match f.direct {
        Some(_) => IRBlockView {
            params,
            stmts: writes.push(pc),
            terminator: TermView::Jmp {
                target: jump(DD_INIT_DISPATCH_BID, seq![IRVarId(n as u32)]),
            },
        },
        None => IRBlockView {
            params,
            stmts: writes.push(pc).push(StmtView::Const(constant_of_bit(false), f.bit_ty)),
            terminator: TermView::Jmp {
                target: jump(DISPATCHER_BID, seq![IRVarId(n as u32), IRVarId((n + 1) as u32)]),
            },
        },
    }
}

/// There are two statements for each key word.
pub proof fn lemma_key_writes_len(
    storage: StorageId,
    key_tys: Seq<IRTypeId>,
    addr_ty: IRTypeId,
    at: nat,
    n: nat,
)
    ensures
        key_writes(storage, key_tys, addr_ty, at, n).len() == 2 * n,
    decreases n,
{
    if n > 0 {
        lemma_key_writes_len(storage, key_tys, addr_ty, at, (n - 1) as nat);
    }
}

/// There are two statements for each parameter.
pub proof fn lemma_entry_writes_len(
    params: Seq<IRTypeId>,
    file: Seq<IRTypeId>,
    base: u32,
    addr_ty: IRTypeId,
    n_key: nat,
    at: nat,
    n: nat,
)
    ensures
        entry_writes(params, file, base, addr_ty, n_key, at, n).len() == 2 * n,
    decreases n,
{
    if n > 0 {
        lemma_entry_writes_len(params, file, base, addr_ty, n_key, at, (n - 1) as nat);
    }
}

/// Emit the setup block.
pub fn emit_setup_block<P: Clone, H: IrHashAlgorithm>(
    env: &EmitEnv,
    entry_params: &Vec<IRTypeId>,
    commitment: Option<&CommitmentCtx<H>>,
    ctrl_prov: &P,
) -> (r: IRBlock<P>)
    requires
        env.ready(),
        env.reg_alloc.per_block_params@.len() > 0,
        env.reg_alloc.per_block_params@[0]@ == registers(entry_params@),
        forall|i: int|
            0 <= i < entry_params@.len() ==> env.reg_alloc.file@.contains(
                #[trigger] entry_params@[i],
            ),
        3 * (key_params(check_of(commitment)).len() + entry_params@.len()) + 2 <= u32::MAX,
    ensures
        r@ == setup_block(env.frame(), entry_params@, check_of(commitment)),
        controlled(r.stmts@, *ctrl_prov),
{
    let ghost f = env.frame();
    let ghost check = check_of(commitment);
    let ghost ep = entry_params@;
    let mut params: Vec<IRTypeId> = match commitment {
        Some(ctx) => ctx.key_type_ids.clone(),
        None => Vec::new(),
    };
    assert(params@ =~= key_params(check));
    let n_key: usize = params.len();
    let mut tail = entry_params.clone();
    params.append(&mut tail);
    let ghost ps = params@;
    let mut b = IRBlockUnfinished::new(params);
    if let Some(ctx) = commitment {
        if let Some(key_storage) = ctx.config.key_storage {
            let ghost kt = ctx.key_type_ids@;
            let mut k: usize = 0;
            assert(key_writes(key_storage, kt, f.addr_ty, ps.len(), 0) =~= Seq::empty());
            while k < ctx.key_type_ids.len()
                invariant
                    k <= ctx.key_type_ids.len(),
                    kt == ctx.key_type_ids@,
                    f == env.frame(),
                    3 * ps.len() + 2 <= u32::MAX,
                    kt.len() <= ps.len(),
                    b@ == (IRBlockView {
                        params: ps,
                        stmts: key_writes(key_storage, kt, f.addr_ty, ps.len(), k as nat),
                        terminator: return_nothing(),
                    }),
                decreases ctx.key_type_ids.len() - k,
            {
                proof {
                    lemma_key_writes_len(key_storage, kt, f.addr_ty, ps.len(), k as nat);
                }
                let addr: IRVarId = b.push(Stmt::Const(const_u32(k as u32), env.addr_ty));
                b.push(
                    Stmt::StorageWrite {
                        storage: key_storage,
                        src: IRVarId(k as u32),
                        ty: ctx.key_type_ids[k],
                        addr,
                    },
                );
                k += 1;
            }
        }
    }
    let ghost keys = b@.stmts;
    proof {
        assert(keys =~= setup_key_writes(check, f.addr_ty, ps.len()));
        if let Some(c) = check {
            if let Some(storage) = c.key_storage {
                lemma_key_writes_len(storage, c.key_tys, f.addr_ty, ps.len(), c.key_tys.len());
            }
        }
        assert(keys.len() <= 2 * n_key);
    }
    let ghost at = ps.len() + keys.len();
    let entry_regs = &env.reg_alloc.per_block_params[0];
    let mut i: usize = 0;
    assert(b@.stmts =~= keys + entry_writes(
        ep,
        f.file,
        f.base,
        f.addr_ty,
        n_key as nat,
        at,
        0,
    ));
    while i < entry_regs.len()
        invariant
            i <= entry_regs.len(),
            f == env.frame(),
            env.ready(),
            entry_regs@ == registers(ep),
            forall|k: int|
                0 <= k < ep.len() ==> env.reg_alloc.file@.contains(#[trigger] ep[k]),
            ps.len() == n_key + ep.len(),
            keys.len() <= 2 * n_key,
            at == ps.len() + keys.len(),
            3 * (n_key + ep.len()) + 2 <= u32::MAX,
            b@ == (IRBlockView {
                params: ps,
                stmts: keys + entry_writes(
                    ep,
                    f.file,
                    f.base,
                    f.addr_ty,
                    n_key as nat,
                    at,
                    i as nat,
                ),
                terminator: return_nothing(),
            }),
        decreases entry_regs.len() - i,
    {
        proof {
            lemma_entry_writes_len(ep, f.file, f.base, f.addr_ty, n_key as nat, at, i as nat);
            assert(env.reg_alloc.file@.contains(ep[i as int]));
        }
        let reg = entry_regs[i];
        let addr: IRVarId = b.push(Stmt::Const(const_u32(reg.idx), env.addr_ty));
        b.push(
            Stmt::StorageWrite {
                storage: env.reg_alloc.storage_for(reg.ty),
                src: IRVarId((n_key + i) as u32),
                ty: reg.ty,
                addr,
            },
        );
        proof {
            assert(b@.stmts =~= keys + entry_writes(
                ep,
                f.file,
                f.base,
                f.addr_ty,
                n_key as nat,
                at,
                (i + 1) as nat,
            ));
        }
        i += 1;
    }
    proof {
        lemma_entry_writes_len(ep, f.file, f.base, f.addr_ty, n_key as nat, at, ep.len());
    }
    let pc: IRVarId = b.push(Stmt::Const(const_u32(0), env.addr_ty));
    b.terminator =
    if env.direct.is_some() {
        IRTerminator::Jmp { target: jump_to(DD_INIT_DISPATCH_BID, one_var(pc)) }
    } else {
        let done: IRVarId = b.push(Stmt::Const(const_bit(false), env.bit_ty));
        IRTerminator::Jmp { target: jump_to(DISPATCHER_BID, two_vars(pc, done)) }
    };
    proof {
        let want = setup_block(f, ep, check);
        assert(b@.params =~= want.params);
        assert(b@.stmts =~= want.stmts);
        assert(b@ == want);
    }
    b.into_ir_block(ctrl_prov)
}

// ---------------------------------------------------------------------------
// Handlers of a module
// ---------------------------------------------------------------------------

/// What the blocks of a module refer to, but for the slots of a handler.
#[verifier::ext_equal]
pub struct ModuleFrame {
    pub addr_ty: IRTypeId,
    pub bit_ty: IRTypeId,
    pub bytecode: StorageId,
    pub file: Seq<IRTypeId>,
    pub base: u32,
    pub direct: bool,
}

impl ModuleFrame {
    /// What the statements of handler `h` refer to.
    pub open spec fn handler_frame(self, keys: Seq<IRBlockView>, h: int) -> Frame {
        self.with_slots(
            keys.len(),
            slot_storages(keys, self.addr_ty, self.bit_ty, self.bytecode, h),
        )
    }

    /// The same for the given slots.
    pub open spec fn with_slots(self, n_handlers: nat, slots: Seq<StorageId>) -> Frame {
        Frame {
            addr_ty: self.addr_ty,
            bit_ty: self.bit_ty,
            bytecode: self.bytecode,
            slots,
            file: self.file,
            base: self.base,
            direct: if self.direct {
                Some(n_handlers)
            } else {
                None
            },
        }
    }

    /// The block of the first handler.
    pub open spec fn first_handler(self) -> u32 {
        if self.direct {
            DD_HANDLER_BID_BASE
        } else {
            HANDLER_BID_BASE
        }
    }
}

/// The handlers of a module: their blocks, and the further blocks of all.
#[verifier::ext_equal]
pub struct Handlers {
    pub blocks: Seq<IRBlockView>,
    pub extras: Seq<IRBlockView>,
    pub types: Seq<IrTypeView>,
}

/// The first `n` handlers. Further blocks stand behind those of all handlers.
pub open spec fn handlers<H: IrHashAlgorithm>(
    f: ModuleFrame,
    keys: Seq<IRBlockView>,
    check: Option<Check<H>>,
    types: Seq<IrTypeView>,
    n: int,
) -> Handlers
    decreases n,
{
    if n <= 0 {
        Handlers { blocks: Seq::empty(), extras: Seq::empty(), types }
    } else {
        let before = handlers(f, keys, check, types, n - 1);
        let h = handler(
            f.handler_frame(keys, n - 1),
            keys[n - 1],
            check,
            before.types,
            (f.first_handler() + keys.len() + before.extras.len()) as nat,
        );
        Handlers {
            blocks: before.blocks.push(h.block),
            extras: before.extras + h.extras,
            types: h.types,
        }
    }
}

/// A bound on the number of further blocks of the handlers of a list.
pub open spec fn extras_room(keys: Seq<IRBlockView>) -> nat
    decreases keys.len(),
{
    if keys.len() == 0 {
        0
    } else {
        extras_room(keys.drop_last()) + extra_room(keys.last())
    }
}

/// A handler has no more further blocks than its bound.
pub proof fn lemma_handler_extras<H: IrHashAlgorithm>(
    f: Frame,
    key: IRBlockView,
    check: Option<Check<H>>,
    types: Seq<IrTypeView>,
    first: nat,
)
    ensures
        handler(f, key, check, types, first).extras.len() <= extra_room(key),
{
    reveal(handler);
    match key.terminator {
        TermView::Jmp { .. } => {},
        TermView::JumpCond { .. } => {
            crate::virt::handler::lemma_arms_blocks_len(f, key, 2, check is Some, first);
        },
        TermView::JumpTable { cases, .. } => {
            crate::virt::handler::lemma_arms_blocks_len(
                f,
                key,
                cases.len() as int,
                check is Some,
                first,
            );
        },
    }
}

/// The first `n` handlers have no more further blocks than their bound.
pub proof fn lemma_handlers<H: IrHashAlgorithm>(
    f: ModuleFrame,
    keys: Seq<IRBlockView>,
    check: Option<Check<H>>,
    types: Seq<IrTypeView>,
    n: int,
)
    requires
        0 <= n <= keys.len(),
    ensures
        handlers(f, keys, check, types, n).blocks.len() == n,
        handlers(f, keys, check, types, n).extras.len() <= extras_room(keys.take(n)),
        extras_room(keys.take(n)) <= extras_room(keys),
        n < keys.len() ==> extras_room(keys.take(n)) + extra_room(keys[n]) <= extras_room(keys),
    decreases keys.len() - n, n,
{
    lemma_extras_room_take(keys, n);
    lemma_handlers_len(f, keys, check, types, n);
}

proof fn lemma_handlers_len<H: IrHashAlgorithm>(
    f: ModuleFrame,
    keys: Seq<IRBlockView>,
    check: Option<Check<H>>,
    types: Seq<IrTypeView>,
    n: int,
)
    requires
        0 <= n <= keys.len(),
    ensures
        handlers(f, keys, check, types, n).blocks.len() == n,
        handlers(f, keys, check, types, n).extras.len() <= extras_room(keys.take(n)),
    decreases n,
{
    if n > 0 {
        lemma_handlers_len(f, keys, check, types, n - 1);
        let before = handlers(f, keys, check, types, n - 1);
        lemma_handler_extras(
            f.handler_frame(keys, n - 1),
            keys[n - 1],
            check,
            before.types,
            (f.first_handler() + keys.len() + before.extras.len()) as nat,
        );
        assert(keys.take(n).drop_last() =~= keys.take(n - 1));
        assert(keys.take(n).last() == keys[n - 1]);
    }
}

proof fn lemma_extras_room_take(keys: Seq<IRBlockView>, n: int)
    requires
        0 <= n <= keys.len(),
    ensures
        extras_room(keys.take(n)) <= extras_room(keys),
        n < keys.len() ==> extras_room(keys.take(n)) + extra_room(keys[n]) <= extras_room(keys),
    decreases keys.len() - n,
{
    if n < keys.len() {
        lemma_extras_room_take(keys, n + 1);
        assert(keys.take(n + 1).drop_last() =~= keys.take(n));
        assert(keys.take(n + 1).last() == keys[n]);
    } else {
        assert(keys.take(n) =~= keys);
    }
}

/// Whether the handlers of a module can be emitted.
pub open spec fn handlers_ready<H: IrHashAlgorithm>(
    f: ModuleFrame,
    keys: Seq<IRBlockView>,
    check: Option<Check<H>>,
) -> bool {
    &&& f.base + f.file.len() <= u32::MAX
    &&& f.first_handler() + keys.len() + extras_room(keys) <= u32::MAX
    &&& check matches Some(c) ==> check_ready(c)
    &&& forall|h: int|
        0 <= h < keys.len() ==> {
            &&& scoped(#[trigger] keys[h])
            &&& typed_in(keys[h], f.file)
            &&& handler_room(keys[h], check, handler_slots(keys[h], f.addr_ty, f.bit_ty).len())
                <= u32::MAX
        }
}

/// The blocks that were emitted for a module.
pub struct ModuleBlocks<P> {
    pub blocks: Vec<IRBlock<P>>,
    pub extras: Vec<IRBlock<P>>,
    pub types: TypeTable,
}

/// What emission of a module reads.
pub struct ModuleEnv<'a> {
    pub addr_ty: IRTypeId,
    pub bit_ty: IRTypeId,
    pub bytecode_storage: StorageId,
    pub reg_alloc: &'a RegAlloc,
    pub direct_dispatch: bool,
}

impl<'a> ModuleEnv<'a> {
    /// What the blocks of the module refer to.
    pub open spec fn frame(&self) -> ModuleFrame {
        ModuleFrame {
            addr_ty: self.addr_ty,
            bit_ty: self.bit_ty,
            bytecode: self.bytecode_storage,
            file: self.reg_alloc.file@,
            base: self.reg_alloc.base,
            direct: self.direct_dispatch,
        }
    }

    /// The block of the first handler.
    fn first_handler(&self) -> (r: u32)
        ensures
            r == self.frame().first_handler(),
    {
        if self.direct_dispatch {
            DD_HANDLER_BID_BASE
        } else {
            HANDLER_BID_BASE
        }
    }

    /// What emission of a handler with the given slots reads.
    fn with_slots<'b>(&'b self, n_handlers: usize, slot_ids: &'b Vec<StorageId>) -> (r: EmitEnv<'b>)
        ensures
            r.frame() == self.frame().with_slots(n_handlers as nat, slot_ids@),
            r.addr_ty == self.addr_ty,
            r.bit_ty == self.bit_ty,
            r.slot_ids == slot_ids,
            r.reg_alloc == self.reg_alloc,
            r.direct == (if self.direct_dispatch {
                Some(n_handlers)
            } else {
                None
            }),
    {
        EmitEnv {
            addr_ty: self.addr_ty,
            bit_ty: self.bit_ty,
            bytecode_storage: self.bytecode_storage,
            slot_ids,
            reg_alloc: self.reg_alloc,
            direct: if self.direct_dispatch {
                Some(n_handlers)
            } else {
                None
            },
        }
    }
}

/// Emit the handlers of a module.
pub fn emit_handlers<P: Clone, H: IrHashAlgorithm>(
    env: &ModuleEnv,
    handler_keys: &Vec<IrHandlerKey>,
    layout: &GlobalLayout,
    types: TypeTable,
    commitment: Option<&CommitmentCtx<H>>,
    ctrl_prov: &P,
) -> (r: ModuleBlocks<P>)
    requires
        layout.lays_out(
            key_views(handler_keys@),
            env.addr_ty,
            env.bit_ty,
            env.bytecode_storage,
        ),
        handlers_ready(env.frame(), key_views(handler_keys@), check_of(commitment)),
        types@.len() + handler_keys@.len() < u32::MAX,
    ensures
        (Handlers {
            blocks: block_views(r.blocks@),
            extras: block_views(r.extras@),
            types: r.types@,
        }) == handlers(
            env.frame(),
            key_views(handler_keys@),
            check_of(commitment),
            types@,
            handler_keys@.len() as int,
        ),
        all_controlled(r.blocks@, *ctrl_prov),
        all_controlled(r.extras@, *ctrl_prov),
{
    let ghost f = env.frame();
    let ghost keys = key_views(handler_keys@);
    let ghost check = check_of(commitment);
    let ghost t0 = types@;
    let n_handlers: usize = handler_keys.len();
    let first_handler: u32 = env.first_handler();
    let mut types = types;
    let mut all: Vec<IRBlock<P>> = Vec::new();
    let mut extras: Vec<IRBlock<P>> = Vec::new();
    let mut h: usize = 0;
    assert(block_views(extras@) =~= Seq::empty());
    assert(block_views(all@) =~= Seq::empty());
    while h < n_handlers
        invariant
            h <= n_handlers,
            n_handlers == handler_keys@.len(),
            keys == key_views(handler_keys@),
            check == check_of(commitment),
            f == env.frame(),
            first_handler == f.first_handler(),
            layout.lays_out(keys, env.addr_ty, env.bit_ty, env.bytecode_storage),
            handlers_ready(f, keys, check),
            t0.len() + n_handlers < u32::MAX,
            types@.len() <= t0.len() + h,
            types@ == handlers(f, keys, check, t0, h as int).types,
            block_views(all@) == handlers(f, keys, check, t0, h as int).blocks,
            block_views(extras@) == handlers(f, keys, check, t0, h as int).extras,
            all_controlled(all@, *ctrl_prov),
            all_controlled(extras@, *ctrl_prov),
        decreases n_handlers - h,
    {
        proof {
            lemma_handlers(f, keys, check, t0, h as int);
            assert(keys[h as int] == handler_keys@[h as int]@);
            assert(layout.schemas@[h as int].describes(keys[h as int], env.addr_ty, env.bit_ty));
            assert(layout.per_handler_slot@[h as int]@ == slot_storages(
                keys,
                env.addr_ty,
                env.bit_ty,
                env.bytecode_storage,
                h as int,
            ));
            assert(block_views(extras@).len() == extras@.len());
        }
        let emit_env = env.with_slots(n_handlers, &layout.per_handler_slot[h]);
        let first: u32 = first_handler + n_handlers as u32 + extras.len() as u32;
        let ghost all_before = all@;
        let ghost extras_before = extras@;
        let out = emit_handler_block(
            &emit_env,
            &handler_keys[h],
            &layout.schemas[h],
            types,
            first,
            commitment,
            ctrl_prov,
        );
        all.push(out.block);
        let mut more = out.extras;
        let ghost added = more@;
        extras.append(&mut more);
        types = out.types;
        proof {
            let next = handlers(f, keys, check, t0, h + 1);
            assert(block_views(all@) =~= next.blocks);
            assert(block_views(extras@) =~= block_views(extras_before) + block_views(added));
            assert forall|i: int| 0 <= i < extras@.len() implies controlled(
                (#[trigger] extras@[i]).stmts@,
                *ctrl_prov,
            ) by {
                if i < extras_before.len() {
                    assert(extras@[i] == extras_before[i]);
                } else {
                    assert(extras@[i] == added[i - extras_before.len()]);
                }
            }
        }
        h += 1;
    }
    ModuleBlocks { blocks: all, extras, types }
}

/// The first blocks of a virtualised module.
pub open spec fn module_head<H: IrHashAlgorithm>(
    f: ModuleFrame,
    entry: Seq<IRTypeId>,
    shape: Seq<IRTypeId>,
    n_handlers: nat,
    check: Option<Check<H>>,
) -> Seq<IRBlockView> {
    let setup = setup_block(f.with_slots(n_handlers, Seq::empty()), entry, check);
    let ret = return_block(shape, f.file, f.base, f.addr_ty);
    let dispatch = dispatch_block(n_handlers, f.bytecode, f.addr_ty, f.first_handler());
    if f.direct {
        seq![setup, ret, dispatch]
    } else {
        seq![setup, dispatcher_block(f.addr_ty, f.bit_ty), ret, dispatch]
    }
}

/// The blocks of a virtualised module, in order: setup, dispatch and return,
/// then the handlers, then their further blocks.
pub open spec fn module_blocks<H: IrHashAlgorithm>(
    f: ModuleFrame,
    entry: Seq<IRTypeId>,
    shape: Seq<IRTypeId>,
    keys: Seq<IRBlockView>,
    check: Option<Check<H>>,
    types: Seq<IrTypeView>,
) -> Seq<IRBlockView> {
    let all = handlers(f, keys, check, types, keys.len() as int);
    module_head(f, entry, shape, keys.len(), check) + all.blocks + all.extras
}

/// Emit the first blocks of a virtualised module.
fn emit_head<P: Clone, H: IrHashAlgorithm>(
    env: &ModuleEnv,
    entry_params: &Vec<IRTypeId>,
    shape: Ghost<Seq<IRTypeId>>,
    n_handlers: usize,
    commitment: Option<&CommitmentCtx<H>>,
    ctrl_prov: &P,
) -> (r: Vec<IRBlock<P>>)
    requires
        env.reg_alloc.base + env.reg_alloc.file@.len() <= u32::MAX,
        env.frame().first_handler() + n_handlers <= u32::MAX,
        env.reg_alloc.per_block_params@.len() > 0,
        env.reg_alloc.per_block_params@[0]@ == registers(entry_params@),
        forall|i: int|
            0 <= i < entry_params@.len() ==> env.reg_alloc.file@.contains(
                #[trigger] entry_params@[i],
            ),
        3 * (key_params(check_of(commitment)).len() + entry_params@.len()) + 2 <= u32::MAX,
        env.reg_alloc.return_regs@ == registers(shape@),
        forall|i: int|
            0 <= i < shape@.len() ==> env.reg_alloc.file@.contains(#[trigger] shape@[i]),
        2 * shape@.len() <= u32::MAX,
    ensures
        block_views(r@) == module_head(
            env.frame(),
            entry_params@,
            shape@,
            n_handlers as nat,
            check_of(commitment),
        ),
        all_controlled(r@, *ctrl_prov),
{
    let no_slots: Vec<StorageId> = Vec::new();
    let env0 = env.with_slots(n_handlers, &no_slots);
    assert(no_slots@ =~= Seq::empty());
    let setup = emit_setup_block(&env0, entry_params, commitment, ctrl_prov);
    let ret = emit_return_block(env.reg_alloc, shape, env.addr_ty, ctrl_prov);
    let dispatch = emit_dispatch_block_with_base(
        n_handlers,
        env.bytecode_storage,
        env.addr_ty,
        env.first_handler(),
        ctrl_prov,
    );
    let mut all: Vec<IRBlock<P>> = Vec::new();
    all.push(setup);
    if !env.direct_dispatch {
        all.push(emit_dispatcher_block(env.addr_ty, env.bit_ty, ctrl_prov));
    }
    all.push(ret);
    all.push(dispatch);
    assert(block_views(all@) =~= module_head(
        env.frame(),
        entry_params@,
        shape@,
        n_handlers as nat,
        check_of(commitment),
    ));
    all
}

/// Emit the blocks of a virtualised module.
pub fn emit_output_ir<P: Clone, H: IrHashAlgorithm>(
    env: &ModuleEnv,
    entry_params: &Vec<IRTypeId>,
    shape: Ghost<Seq<IRTypeId>>,
    handler_keys: &Vec<IrHandlerKey>,
    layout: &GlobalLayout,
    types: TypeTable,
    commitment: Option<&CommitmentCtx<H>>,
    ctrl_prov: &P,
) -> (r: (Vec<IRBlock<P>>, TypeTable))
    requires
        layout.lays_out(
            key_views(handler_keys@),
            env.addr_ty,
            env.bit_ty,
            env.bytecode_storage,
        ),
        handlers_ready(env.frame(), key_views(handler_keys@), check_of(commitment)),
        env.reg_alloc.per_block_params@.len() > 0,
        env.reg_alloc.per_block_params@[0]@ == registers(entry_params@),
        forall|i: int|
            0 <= i < entry_params@.len() ==> env.reg_alloc.file@.contains(
                #[trigger] entry_params@[i],
            ),
        3 * (key_params(check_of(commitment)).len() + entry_params@.len()) + 2 <= u32::MAX,
        env.reg_alloc.return_regs@ == registers(shape@),
        forall|i: int|
            0 <= i < shape@.len() ==> env.reg_alloc.file@.contains(#[trigger] shape@[i]),
        2 * shape@.len() <= u32::MAX,
        types@.len() + handler_keys@.len() < u32::MAX,
    ensures
        block_views(r.0@) == module_blocks(
            env.frame(),
            entry_params@,
            shape@,
            key_views(handler_keys@),
            check_of(commitment),
            types@,
        ),
        r.1@ == handlers(
            env.frame(),
            key_views(handler_keys@),
            check_of(commitment),
            types@,
            handler_keys@.len() as int,
        ).types,
        all_controlled(r.0@, *ctrl_prov),
{
    let n_handlers: usize = handler_keys.len();
    let mut all = emit_head(env, entry_params, shape, n_handlers, commitment, ctrl_prov);
    let out = emit_handlers(env, handler_keys, layout, types, commitment, ctrl_prov);
    let ghost a0 = all@;
    let mut blocks = out.blocks;
    let mut extras = out.extras;
    let ghost a1 = blocks@;
    let ghost a2 = extras@;
    all.append(&mut blocks);
    all.append(&mut extras);
    proof {
        assert(all@ =~= a0 + a1 + a2);
        assert(block_views(all@) =~= block_views(a0) + block_views(a1) + block_views(a2));
        assert forall|i: int| 0 <= i < all@.len() implies controlled(
            (#[trigger] all@[i]).stmts@,
            *ctrl_prov,
        ) by {
            if i < a0.len() {
                assert(all@[i] == a0[i]);
            } else if i < a0.len() + a1.len() {
                assert(all@[i] == a1[i - a0.len()]);
            } else {
                assert(all@[i] == a2[i - a0.len() - a1.len()]);
            }
        }
    }
    (all, out.types)
}

} // verus!
