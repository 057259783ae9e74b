//! That a virtualised typed program runs like the one it was made of.

use vstd::prelude::*;

use crate::common::{Constant, IrTypeView, StorageId};
use crate::ir::{
    output_type, BranchView, IRBlockId, IRBlockTargetId, IRBlockView, IRTypeId, IRVarId, StmtView,
    TermView,
};
use crate::virt::canon::{
    canon_branch, canon_stmt, ir_key, lifted_const, lifted_consts, zero_constant,
};
use crate::virt::ctx::{distinct, law_distinct};
use crate::virt::emit::{
    dispatch_block, dispatcher_block, jump, pc_var, return_block, return_reads, xor_terms,
    DD_INIT_DISPATCH_BID, DD_RETURN_BID, DISPATCHER_BID, DISPATCH_BID, RETURN_BID,
};
use crate::virt::handler::{
    arm_bid, arm_block, arm_blocks, arm_writes, arms_blocks, body_step, call_args, check_ready,
    check_room, check_row, check_row_if, draft, dyn_arm_block, key_reads, slot_reads,
    dyn_exit, dyn_exit_term, exit_reads, exit_term, handler, handler_body, jump_handler, lemma_body,
    lemma_param_reads_len, param_reads, param_vars, scope, scoped, typed_in, Body, Check, Frame,
    Handler,
};
use crate::virt::hash::{constant_bytes, constant_of_bytes, IrHashAlgorithm};
use crate::virt::ir::{block_keys, plan_rows, IrPlan};
use crate::virt::module::{
    handlers, handlers_ready, extras_room, key_params, lemma_handlers, module_blocks, module_head,
    setup_block,
};
use crate::virt::regs::{
    arms, dyn_params, law_register_storages_distinct, law_registers_distinct, register_index,
    registers, return_shape, var_type, var_types, vars_typed,
};
use crate::virt::remap::{
    renamed_stmt, renamed_terms, renamed_var, renamed_vars, stmt_mapped, var_mapped, UNDEFINED_VAR,
};
use crate::virt::schema::{
    arm_registers, arm_start, arm_values, arms_slots, arms_values, arms_width, constant_of,
    constant_of_bit, handler_slots, law_slot_storages_distinct, lemma_arms_values_len,
    lemma_arms_width, lemma_key_slots, lemma_lifted_len, lemma_slot_values_len, slot_values, stmt_slots, storage_behind,
    HandlerSlot,
};
use crate::virt::check_law::{
    adds_no_types, compares, computes_hash, denotes_hashes, holds_parts, law_check_compares_hashes,
};
use crate::virt::hash::EmitterView;
use crate::virt::hash_law::{num, ran};
use crate::virt::ir_run::{
    act, adds_up, at, at_all, case_of, follow, lemma_associates, lemma_coefficients,
    lemma_constant_number, lemma_one, lemma_plus_commutes, lemma_renamed_stmt, lemma_renamed_sum,
    lemma_run_both, lemma_run_length, lemma_run_push, lemma_same_case, lemma_swap, lemma_xor,
    lemma_zero, leave, numbers, renames, run, run_block, run_stmts, stored, sum, taken, zero, Exit,
    IrState, Machine,
};

verus! {

// ---------------------------------------------------------------------------
// The table
// ---------------------------------------------------------------------------

/// Whether a storage holds a part of the rows or registers.
pub open spec fn in_rows<H>(p: IrPlan<H>, s: StorageId) -> bool {
    p.frame.bytecode.0 <= s.0 < p.frame.base + p.frame.file.len()
}

/// Whether a storage holds the hashes of rows or the key.
pub open spec fn in_check<H>(p: IrPlan<H>, s: StorageId) -> bool {
    p.check matches Some(c) && (s == c.storage || c.key_storage == Some(s))
}

/// Whether a storage holds a part of the table or registers.
pub open spec fn in_table<H>(p: IrPlan<H>, s: StorageId) -> bool {
    in_rows(p, s) || in_check(p, s)
}

/// Whether the hashes and the key stand apart from the rows, from registers and
/// from each other.
pub open spec fn check_apart<H>(p: IrPlan<H>) -> bool {
    p.check matches Some(c) ==> {
        &&& !in_rows(p, c.storage)
        &&& c.key_storage matches Some(s) ==> s != c.storage && !in_rows(p, s)
    }
}

/// The storage that a statement reads or writes, if there is one.
pub open spec fn touched(s: StmtView) -> Option<StorageId> {
    match s {
        StmtView::StorageRead { storage, .. } => Some(storage),
        StmtView::StorageWrite { storage, .. } => Some(storage),
        _ => None,
    }
}

/// Whether no statement of the blocks reads or writes the storage of the table
/// or of registers.
pub open spec fn keeps_off<H>(blocks: Seq<IRBlockView>, p: IrPlan<H>) -> bool {
    forall|i: int, k: int|
        0 <= i < blocks.len() && 0 <= k < blocks[i].stmts.len() ==> match touched(
            #[trigger] blocks[i].stmts[k],
        ) {
            Some(s) => !in_table(p, s),
            None => true,
        }
}

/// Whether a branch hands over values of the types that its destination takes.
pub open spec fn branch_typed(
    b: IRBlockView,
    arm: BranchView,
    blocks: Seq<IRBlockView>,
    types: Seq<IrTypeView>,
) -> bool {
    match arm.dest {
        IRBlockTargetId::Block(t) => t.0 < blocks.len() && var_types(b, arm.args)
            == blocks[t.0 as int].params,
        IRBlockTargetId::Return => var_types(b, arm.args) == return_shape(blocks),
        IRBlockTargetId::Dyn(v) => dyn_params(b, v, types) == Some(var_types(b, arm.args)),
    }
}

/// Whether every branch of a program does.
pub open spec fn branches_typed(blocks: Seq<IRBlockView>, types: Seq<IrTypeView>) -> bool {
    forall|i: int, a: int|
        0 <= i < blocks.len() && 0 <= a < arms(blocks[i].terminator).len() ==> branch_typed(
            blocks[i],
            #[trigger] arms(blocks[i].terminator)[a],
            blocks,
            types,
        )
}

/// What is known of a virtualisation.
#[verifier::opaque]
pub open spec fn ready<H: IrHashAlgorithm>(p: IrPlan<H>) -> bool {
    let f = p.frame;
    &&& 0 < p.blocks.len() <= u32::MAX
    &&& p.keys == distinct(block_keys(p.blocks))
    &&& check_apart(p)
    &&& p.key.len() == key_params(p.check).len()
    &&& p.shape == return_shape(p.blocks)
    &&& handlers_ready(f, p.keys, p.check)
    &&& storage_behind(p.keys, f.addr_ty, f.bit_ty, f.bytecode) <= u32::MAX
    &&& f.base == storage_behind(p.keys, f.addr_ty, f.bit_ty, f.bytecode)
    &&& forall|i: int, k: int|
        0 <= i < p.blocks.len() && 0 <= k < p.blocks[i].params.len() ==> f.file.contains(
            #[trigger] p.blocks[i].params[k],
        )
    &&& forall|i: int| 0 <= i < p.shape.len() ==> f.file.contains(#[trigger] p.shape[i])
    &&& 3 * (p.key.len() + p.blocks[0].params.len()) + 2 <= u32::MAX
    &&& 2 * p.shape.len() <= u32::MAX
    &&& branches_typed(p.blocks, p.types)
    &&& keeps_off(p.blocks, p)
}

/// The bounds of a virtualisation.
pub proof fn lemma_bounds<H: IrHashAlgorithm>(p: IrPlan<H>)
    requires
        ready(p),
    ensures
        0 < p.blocks.len() <= u32::MAX,
        check_apart(p),
        p.check matches Some(c) ==> check_ready(c),
        p.key.len() == key_params(p.check).len(),
        p.shape == return_shape(p.blocks),
        p.frame.bytecode.0 < p.frame.base,
        p.frame.base + p.frame.file.len() <= u32::MAX,
        p.frame.first_handler() + p.keys.len() + extras_room(p.keys) <= u32::MAX,
        3 * (p.key.len() + p.blocks[0].params.len()) + 2 <= u32::MAX,
        2 * p.shape.len() <= u32::MAX,
{
    reveal(ready);
}

/// A branch of a program fits its destination.
proof fn lemma_typed<H: IrHashAlgorithm>(p: IrPlan<H>, i: int, a: int)
    requires
        ready(p),
        0 <= i < p.blocks.len(),
        0 <= a < arms(p.blocks[i].terminator).len(),
    ensures
        branch_typed(p.blocks[i], arms(p.blocks[i].terminator)[a], p.blocks, p.types),
{
    reveal(ready);
}

/// The handler of each row is there, and has the key of the block.
pub proof fn lemma_row<H: IrHashAlgorithm>(p: IrPlan<H>, i: int)
    requires
        ready(p),
        0 <= i < p.blocks.len(),
    ensures
        plan_rows(p)[i] < p.keys.len(),
        p.keys[plan_rows(p)[i] as int] == ir_key(p.blocks[i]),
        p.keys.len() <= p.blocks.len(),
{
    reveal(ready);
    let ks = block_keys(p.blocks);
    law_distinct(ks);
    assert(ks[i] == ir_key(p.blocks[i]));
    assert(ks.contains(ks[i]));
    let k = ir_key(p.blocks[i]);
    assert(p.keys.contains(k));
    p.keys.index_of_first_ensures(k);
    assert(p.keys.len() <= u32::MAX);
    assert(p.keys.len() <= p.blocks.len()) by {
        lemma_distinct_len(ks);
    }
}

/// A list has no fewer elements than different ones.
proof fn lemma_distinct_len<T>(s: Seq<T>)
    ensures
        distinct(s).len() <= s.len(),
    decreases s.len(),
{
    if s.len() > 0 {
        lemma_distinct_len(s.drop_last());
    }
}

/// The slots of the handler of a row.
pub open spec fn row_slots<H>(p: IrPlan<H>, i: int) -> Seq<HandlerSlot> {
    handler_slots(p.blocks[i], p.frame.addr_ty, p.frame.bit_ty)
}

/// What the statements of the handler of a row refer to.
pub open spec fn row_frame<H>(p: IrPlan<H>, i: int) -> Frame {
    p.frame.handler_frame(p.keys, plan_rows(p)[i] as int)
}

/// Whether stored values hold slot `s` of row `i`.
pub open spec fn holds_slot<V, W, H>(
    m: Machine<V, W>,
    cells: spec_fn(StorageId, IRTypeId, nat) -> V,
    p: IrPlan<H>,
    i: int,
    s: int,
) -> bool {
    let ty = row_slots(p, i)[s].ty;
    cells(row_frame(p, i).slots[s], ty, i as nat) == (m.constant)(
        slot_values(p.blocks[i], p.blocks, p.types)[s],
        ty,
    )
}

/// The hash of row `i`, in bytes.
pub open spec fn row_digest<H: IrHashAlgorithm>(p: IrPlan<H>, c: Check<H>, i: int) -> Seq<u8> {
    let slots = row_slots(p, i);
    let values = slot_values(p.blocks[i], p.blocks, p.types);
    c.algorithm.digest(
        Seq::new(
            p.key.len(),
            |k: int| constant_bytes(p.key[k], p.types[c.key_tys[k].0 as int]),
        ),
        seq![
            constant_bytes(constant_of(plan_rows(p)[i]), p.types[p.frame.addr_ty.0 as int]),
        ] + Seq::new(
            slots.len(),
            |s: int| constant_bytes(values[s], p.types[slots[s].ty.0 as int]),
        ),
    )
}

/// Whether stored values hold the hash of row `i`, if rows are committed to.
pub open spec fn holds_hash<V, W, H: IrHashAlgorithm>(
    m: Machine<V, W>,
    cells: spec_fn(StorageId, IRTypeId, nat) -> V,
    p: IrPlan<H>,
    i: int,
) -> bool {
    p.check matches Some(c) ==> cells(c.storage, c.hash_ty, i as nat) == (m.constant)(
        constant_of_bytes(row_digest(p, c, i)),
        c.hash_ty,
    )
}

/// Whether stored values hold the key, if rows are committed to under one.
pub open spec fn holds_key<V, W, H: IrHashAlgorithm>(
    m: Machine<V, W>,
    cells: spec_fn(StorageId, IRTypeId, nat) -> V,
    p: IrPlan<H>,
) -> bool {
    p.check matches Some(c) ==> (c.key_storage matches Some(s) ==> forall|k: int|
        0 <= k < p.key.len() ==> #[trigger] cells(s, c.key_tys[k], k as nat) == (m.constant)(
            p.key[k],
            c.key_tys[k],
        ))
}

/// Whether stored values hold row `i` of the table.
pub open spec fn holds_row<V, W, H: IrHashAlgorithm>(
    m: Machine<V, W>,
    cells: spec_fn(StorageId, IRTypeId, nat) -> V,
    p: IrPlan<H>,
    i: int,
) -> bool {
    &&& cells(p.frame.bytecode, p.frame.addr_ty, i as nat) == (m.constant)(
        constant_of(plan_rows(p)[i]),
        p.frame.addr_ty,
    )
    &&& forall|s: int| 0 <= s < row_slots(p, i).len() ==> #[trigger] holds_slot(m, cells, p, i, s)
    &&& holds_hash(m, cells, p, i)
}

/// Whether stored values hold the table.
pub open spec fn holds_table<V, W, H: IrHashAlgorithm>(
    m: Machine<V, W>,
    cells: spec_fn(StorageId, IRTypeId, nat) -> V,
    p: IrPlan<H>,
) -> bool {
    forall|i: int| 0 <= i < p.blocks.len() ==> #[trigger] holds_row(m, cells, p, i)
}

/// Whether the second state is the first one with the table and registers
/// beside it.
pub open spec fn beside_table<V, W, H: IrHashAlgorithm>(
    m: Machine<V, W>,
    st: IrState<V, W>,
    st2: IrState<V, W>,
    p: IrPlan<H>,
) -> bool {
    &&& st.world == st2.world
    &&& forall|s: StorageId, ty: IRTypeId, a: nat|
        !in_table(p, s) ==> #[trigger] (st.cells)(s, ty, a) == (st2.cells)(s, ty, a)
    &&& holds_table(m, st2.cells, p)
    &&& holds_key(m, st2.cells, p)
}

/// The storages of the table lie before those of registers.
pub proof fn lemma_slot_storage<H: IrHashAlgorithm>(p: IrPlan<H>, i: int, s: int)
    requires
        ready(p),
        0 <= i < p.blocks.len(),
        0 <= s < row_slots(p, i).len(),
    ensures
        row_frame(p, i).slots.len() == row_slots(p, i).len(),
        p.frame.bytecode.0 < row_frame(p, i).slots[s].0 < p.frame.base,
        in_table(p, row_frame(p, i).slots[s]),
{
    reveal(ready);
    lemma_row(p, i);
    let h = plan_rows(p)[i] as int;
    lemma_key_slots(p.blocks[i], p.frame.addr_ty, p.frame.bit_ty);
    law_slot_storages_distinct(
        p.keys,
        p.frame.addr_ty,
        p.frame.bit_ty,
        p.frame.bytecode,
        h,
        s,
        h,
        s,
    );
}

/// A cell outside the table does not matter to it.
pub proof fn lemma_table_kept<V, W, H: IrHashAlgorithm>(
    m: Machine<V, W>,
    cells: spec_fn(StorageId, IRTypeId, nat) -> V,
    p: IrPlan<H>,
    s: StorageId,
    ty: IRTypeId,
    a: nat,
    v: V,
)
    requires
        ready(p),
        holds_table(m, cells, p),
        s.0 < p.frame.bytecode.0 || p.frame.base <= s.0,
        p.check matches Some(c) ==> s != c.storage,
    ensures
        holds_table(m, stored(cells, s, ty, a, v), p),
        holds_key(m, cells, p) && !in_check(p, s) ==> holds_key(m, stored(cells, s, ty, a, v), p),
{
    let after = stored(cells, s, ty, a, v);
    if holds_key(m, cells, p) && !in_check(p, s) && p.check is Some {
        let c = p.check->0;
        if c.key_storage is Some {
            let w = c.key_storage->0;
            assert forall|k: int| 0 <= k < p.key.len() implies #[trigger] after(
                w,
                c.key_tys[k],
                k as nat,
            ) == (m.constant)(p.key[k], c.key_tys[k]) by {
                assert(cells(w, c.key_tys[k], k as nat) == (m.constant)(p.key[k], c.key_tys[k]));
            }
        }
    }
    assert forall|i: int| 0 <= i < p.blocks.len() implies #[trigger] holds_row(m, after, p, i) by {
        assert(holds_row(m, cells, p, i));
        assert forall|k: int| 0 <= k < row_slots(p, i).len() implies #[trigger] holds_slot(
            m,
            after,
            p,
            i,
            k,
        ) by {
            assert(holds_slot(m, cells, p, i, k));
            lemma_slot_storage(p, i, k);
        }
        lemma_bounds(p);
    }
}

/// A statement that keeps off the table does the same beside it.
proof fn lemma_act_beside<V, W, H: IrHashAlgorithm>(
    m: Machine<V, W>,
    p: IrPlan<H>,
    s: StmtView,
    env: Seq<V>,
    st: IrState<V, W>,
    st2: IrState<V, W>,
)
    requires
        ready(p),
        beside_table(m, st, st2, p),
        touched(s) matches Some(x) ==> !in_table(p, x),
    ensures
        act(m, s, env, st2).0 == act(m, s, env, st).0,
        beside_table(m, act(m, s, env, st).1, act(m, s, env, st2).1, p),
{
    match s {
        StmtView::StorageRead { storage, ty, addr } => {
            let a = (m.number)(at(addr, env));
            assert((st.cells)(storage, ty, a) == (st2.cells)(storage, ty, a));
        },
        StmtView::StorageWrite { storage, src, ty, addr } => {
            let a = (m.number)(at(addr, env));
            let v = at(src, env);
            lemma_table_kept(m, st2.cells, p, storage, ty, a, v);
            let c = stored(st.cells, storage, ty, a, v);
            let c2 = stored(st2.cells, storage, ty, a, v);
            assert forall|s: StorageId, t: IRTypeId, b: nat| !in_table(p, s) implies #[trigger] c(
                s,
                t,
                b,
            ) == c2(s, t, b) by {
                assert((st.cells)(s, t, b) == (st2.cells)(s, t, b));
            }
        },
        _ => {},
    }
}

// ---------------------------------------------------------------------------
// Slots
// ---------------------------------------------------------------------------

/// A parameter's slot.
proof fn lemma_param_slot<H: IrHashAlgorithm>(p: IrPlan<H>, i: int, k: int)
    requires
        0 <= k < p.blocks[i].params.len(),
    ensures
        k < row_slots(p, i).len(),
        row_slots(p, i)[k].ty == p.frame.addr_ty,
        slot_values(p.blocks[i], p.blocks, p.types)[k] == constant_of(
            register_index(p.blocks[i].params, k),
        ),
{
}

/// The slot of the constant of statement `n`.
proof fn lemma_const_slot<H: IrHashAlgorithm>(p: IrPlan<H>, i: int, n: int)
    requires
        0 <= n < p.blocks[i].stmts.len(),
        p.blocks[i].stmts[n] is Const || p.blocks[i].stmts[n] is Poly,
    ensures
        ({
            let b = p.blocks[i];
            let s = b.params.len() + stmt_slots(b.stmts.take(n)).len();
            &&& s < row_slots(p, i).len()
            &&& row_slots(p, i)[s as int].ty == output_type(b.stmts[n])->0
            &&& slot_values(b, p.blocks, p.types)[s as int] == lifted_const(b.stmts[n])[0]
        }),
{
    let b = p.blocks[i];
    let q = stmt_slots(b.stmts.take(n)).len() as int;
    lemma_stmt_slot(b.stmts, n);
    lemma_lifted_len(b.stmts);
}

/// The same among the slots of statements.
proof fn lemma_stmt_slot(s: Seq<StmtView>, n: int)
    requires
        0 <= n < s.len(),
        s[n] is Const || s[n] is Poly,
    ensures
        ({
            let q = stmt_slots(s.take(n)).len();
            &&& q < stmt_slots(s).len()
            &&& q < lifted_consts(s).len()
            &&& stmt_slots(s)[q as int].ty == output_type(s[n])->0
            &&& lifted_consts(s)[q as int] == lifted_const(s[n])[0]
        }),
    decreases s.len(),
{
    let last = s.len() - 1;
    lemma_lifted_len(s.drop_last());
    if n == last {
        assert(s.take(n) =~= s.drop_last());
    } else {
        lemma_stmt_slot(s.drop_last(), n);
        assert(s.drop_last().take(n) =~= s.take(n));
    }
}

/// Slot `q` of branch `a`.
proof fn lemma_arm_slot<H: IrHashAlgorithm>(p: IrPlan<H>, i: int, a: int, q: int)
    requires
        0 <= a < arms(p.blocks[i].terminator).len(),
        0 <= q < 2 + arms(p.blocks[i].terminator)[a].args.len(),
    ensures
        ({
            let b = p.blocks[i];
            let arm = arms(b.terminator)[a];
            let s = arm_start(b, a) + q;
            &&& s < row_slots(p, i).len()
            &&& row_slots(p, i)[s].ty == (if q == 1 {
                p.frame.bit_ty
            } else {
                p.frame.addr_ty
            })
            &&& slot_values(b, p.blocks, p.types)[s] == arm_values(b, arm, p.blocks, p.types)[q]
        }),
{
    let b = p.blocks[i];
    lemma_lifted_len(b.stmts);
    lemma_arms_slot(b, arms(b.terminator), a, q, p);
}

/// The same among the slots of branches.
proof fn lemma_arms_slot<H: IrHashAlgorithm>(
    b: IRBlockView,
    s: Seq<BranchView>,
    a: int,
    q: int,
    p: IrPlan<H>,
)
    requires
        0 <= a < s.len(),
        0 <= q < 2 + s[a].args.len(),
    ensures
        ({
            let at = arms_width(s.take(a)) + q;
            let slots = arms_slots(s, p.frame.addr_ty, p.frame.bit_ty);
            let vals = arms_values(b, s, p.blocks, p.types);
            &&& at < slots.len()
            &&& at < vals.len()
            &&& slots[at].ty == (if q == 1 {
                p.frame.bit_ty
            } else {
                p.frame.addr_ty
            })
            &&& vals[at] == arm_values(b, s[a], p.blocks, p.types)[q]
        }),
    decreases s.len(),
{
    let before = s.drop_last();
    lemma_arms_width(before, p.frame.addr_ty, p.frame.bit_ty);
    lemma_arms_values_len(b, before, p.blocks, p.types);
    if a == s.len() - 1 {
        assert(s.take(a) =~= before);
    } else {
        lemma_arms_slot(b, before, a, q, p);
        assert(before.take(a) =~= s.take(a));
    }
}

/// Reading a slot of the current row.
proof fn lemma_slot_read<V, W, H: IrHashAlgorithm>(
    m: Machine<V, W>,
    p: IrPlan<H>,
    i: int,
    s: nat,
    env: Seq<V>,
    st: IrState<V, W>,
)
    requires
        ready(p),
        0 <= i < p.blocks.len(),
        s < row_slots(p, i).len(),
        holds_table(m, st.cells, p),
        env.len() > 0,
        (m.number)(env[0]) == i,
    ensures
        act(m, row_frame(p, i).slot_read(s, row_slots(p, i)[s as int].ty), env, st) == (
            (m.constant)(
                slot_values(p.blocks[i], p.blocks, p.types)[s as int],
                row_slots(p, i)[s as int].ty,
            ),
            st,
        ),
{
    assert(holds_row(m, st.cells, p, i));
    assert(holds_slot(m, st.cells, p, i, s as int));
}

// ---------------------------------------------------------------------------
// The body of a handler
// ---------------------------------------------------------------------------

/// Whether registers hold values of the given types.
pub open spec fn in_registers<V>(
    cells: spec_fn(StorageId, IRTypeId, nat) -> V,
    f: Frame,
    tys: Seq<IRTypeId>,
    vals: Seq<V>,
) -> bool {
    &&& vals.len() == tys.len()
    &&& forall|k: int|
        0 <= k < tys.len() ==> #[trigger] vals[k] == cells(
            f.reg(tys[k]),
            tys[k],
            register_index(tys, k) as nat,
        )
}

/// The reads of parameters fetch what registers hold.
proof fn lemma_param_reads<V, W, H: IrHashAlgorithm>(
    m: Machine<V, W>,
    p: IrPlan<H>,
    i: int,
    n: nat,
    pc: V,
    args: Seq<V>,
    st: IrState<V, W>,
)
    requires
        ready(p),
        numbers(m, p.frame.addr_ty, p.frame.bit_ty),
        0 <= i < p.blocks.len(),
        n <= p.blocks[i].params.len(),
        holds_table(m, st.cells, p),
        (m.number)(pc) == i,
        in_registers(st.cells, row_frame(p, i), p.blocks[i].params, args),
        2 * p.blocks[i].params.len() + 2 <= u32::MAX,
    ensures
        ({
            let (e, s) = run_stmts(
                m,
                param_reads(row_frame(p, i), p.blocks[i].params, n),
                seq![pc],
                st,
            );
            &&& s == st
            &&& e.len() == 1 + 2 * n
            &&& e[0] == pc
            &&& forall|k: int| 0 <= k < n ==> #[trigger] args[k] == e[2 * k + 2]
        }),
    decreases n,
{
    let f = row_frame(p, i);
    let params = p.blocks[i].params;
    if n > 0 {
        let k = (n - 1) as nat;
        lemma_param_reads(m, p, i, k, pc, args, st);
        let before = param_reads(f, params, k);
        let (e, s) = run_stmts(m, before, seq![pc], st);
        let ty = params[k as int];
        let x = f.slot_read(k, f.addr_ty);
        let y = StmtView::StorageRead { storage: f.reg(ty), ty, addr: IRVarId((2 * n - 1) as u32) };
        lemma_param_slot(p, i, k as int);
        lemma_slot_read(m, p, i, k, e, st);
        lemma_run_push(m, before, x, seq![pc], st);
        lemma_run_push(m, before.push(x), y, seq![pc], st);
        assert(param_reads(f, params, n) == before.push(x).push(y));
        let reg = (m.constant)(constant_of(register_index(params, k as int)), f.addr_ty);
        let e1 = e.push(reg);
        assert(at(IRVarId((2 * n - 1) as u32), e1) == reg);
        let e2 = e1.push(args[k as int]);
        assert(run_stmts(m, param_reads(f, params, n), seq![pc], st) == (e2, st));
        assert forall|q: int| 0 <= q < n implies #[trigger] args[q] == e2[2 * q + 2] by {
            if q < k {
                assert(args[q] == e[2 * q + 2]);
            }
        }
    }
}


/// The key and the block compute values of the same types.
proof fn lemma_key_like<H: IrHashAlgorithm>(p: IrPlan<H>, i: int)
    requires
        ready(p),
        0 <= i < p.blocks.len(),
    ensures
        ({
            let b = p.blocks[i];
            let key = ir_key(b);
            &&& key.params == b.params
            &&& key.stmts.len() == b.stmts.len()
            &&& forall|n: int|
                0 <= n < b.stmts.len() ==> #[trigger] key.stmts[n] == canon_stmt(b.stmts[n])
            &&& forall|n: int|
                0 <= n < b.stmts.len() ==> output_type(#[trigger] b.stmts[n]) == output_type(
                    key.stmts[n],
                )
            &&& forall|v: IRVarId| #[trigger] var_type(key, v) == var_type(b, v)
            &&& forall|n: int|
                0 <= n < b.stmts.len() ==> stmt_mapped(#[trigger] b.stmts[n], scope(key, n))
            &&& scoped(key)
            &&& typed_in(key, p.frame.file)
            &&& forall|n: int|
                0 <= n <= b.stmts.len() ==> stmt_slots(#[trigger] key.stmts.take(n)) == stmt_slots(
                    b.stmts.take(n),
                )
            &&& 2 * key.params.len() + 3 * key.stmts.len() + 8 + 3 * arms_width(
                arms(key.terminator),
            ) + check_room(p.check, row_slots(p, i).len()) <= u32::MAX
        }),
{
    reveal(ready);
    lemma_row(p, i);
    let b = p.blocks[i];
    let key = ir_key(b);
    let h = plan_rows(p)[i] as int;
    assert(p.keys[h] == key);
    assert(scoped(p.keys[h]));
    lemma_key_slots(b, p.frame.addr_ty, p.frame.bit_ty);
    assert forall|n: int| 0 <= n < b.stmts.len() implies stmt_mapped(
        #[trigger] b.stmts[n],
        scope(key, n),
    ) by {
        assert(key.stmts[n] == canon_stmt(b.stmts[n]));
        assert(stmt_mapped(key.stmts[n], scope(key, n)));
    }
    assert forall|n: int| 0 <= n <= b.stmts.len() implies stmt_slots(#[trigger] key.stmts.take(n))
        == stmt_slots(b.stmts.take(n)) by {
        let part = IRBlockView { stmts: b.stmts.take(n), ..b };
        lemma_key_slots(part, p.frame.addr_ty, p.frame.bit_ty);
        assert(ir_key(part).stmts =~= key.stmts.take(n));
    }
}

/// What is known while the body of a handler runs.
spec fn in_step<V, W, H: IrHashAlgorithm>(
    m: Machine<V, W>,
    p: IrPlan<H>,
    i: int,
    n: nat,
    pc: V,
    from: (Seq<V>, IrState<V, W>),
    to: (Seq<V>, IrState<V, W>),
) -> bool {
    let key = ir_key(p.blocks[i]);
    let body = handler_body(row_frame(p, i), key, n as int);
    &&& from.0.len() == key.params.len() + n
    &&& to.0.len() == 1 + body.stmts.len()
    &&& to.0[0] == pc
    &&& beside_table(m, from.1, to.1, p)
    &&& renames(scope(key, n as int), body.vars, from.0, to.0)
}

/// The body of a handler does what the statements of the block do.
proof fn lemma_handler_body<V, W, H: IrHashAlgorithm>(
    m: Machine<V, W>,
    p: IrPlan<H>,
    i: int,
    n: nat,
    pc: V,
    args: Seq<V>,
    st: IrState<V, W>,
    st2: IrState<V, W>,
)
    requires
        ready(p),
        adds_up(m),
        numbers(m, p.frame.addr_ty, p.frame.bit_ty),
        0 <= i < p.blocks.len(),
        n <= p.blocks[i].stmts.len(),
        (m.number)(pc) == i,
        in_registers(st2.cells, row_frame(p, i), p.blocks[i].params, args),
        beside_table(m, st, st2, p),
    ensures
        in_step(
            m,
            p,
            i,
            n,
            pc,
            run_stmts(m, p.blocks[i].stmts.take(n as int), args, st),
            run_stmts(
                m,
                handler_body(row_frame(p, i), ir_key(p.blocks[i]), n as int).stmts,
                seq![pc],
                st2,
            ),
        ),
    decreases n,
{
    lemma_key_like(p, i);
    let b = p.blocks[i];
    let key = ir_key(b);
    let f = row_frame(p, i);
    if n == 0 {
        assert(b.stmts.take(0) =~= Seq::empty());
        lemma_param_reads(m, p, i, key.params.len(), pc, args, st2);
        lemma_param_reads_len(f, key.params, key.params.len());
        let (e2, s2) = run_stmts(m, param_reads(f, key.params, key.params.len()), seq![pc], st2);
        let sc = scope(key, 0);
        let vars = param_vars(key.params.len());
        assert forall|v: IRVarId| #[trigger] var_mapped(v, sc) implies v.0 < vars.len() && at(v, args)
            == at(renamed_var(v, vars), e2) by {
            assert(args[v.0 as int] == e2[2 * v.0 + 2]);
        }
    } else {
        let k = (n - 1) as nat;
        lemma_handler_body(m, p, i, k, pc, args, st, st2);
        let before = handler_body(f, key, k as int);
        let after = handler_body(f, key, n as int);
        let (e, s) = run_stmts(m, b.stmts.take(k as int), args, st);
        let (e2, s2) = run_stmts(m, before.stmts, seq![pc], st2);
        let x = b.stmts[k as int];
        let kx = key.stmts[k as int];
        assert(kx == canon_stmt(x));
        assert(b.stmts.take(n as int).drop_last() =~= b.stmts.take(k as int));
        let (v, s1) = act(m, x, e, s);
        assert(run_stmts(m, b.stmts.take(n as int), args, st) == (e.push(v), s1));
        lemma_body(f, key, k as int);
        lemma_body(f, key, n as int);
        let slot = key.params.len() + stmt_slots(key.stmts.take(k as int)).len();
        let sc = scope(key, k as int);
        let sc2 = scope(key, n as int);
        assert(stmt_mapped(x, sc));
        assert(key.stmts.take(k as int) == key.stmts.take(n - 1));
        assert(after == body_step(f, before, kx, slot));
        match x {
            StmtView::Const(c, ty) => {
                lemma_const_slot(p, i, k as int);
                lemma_slot_read(m, p, i, slot, e2, s2);
                lemma_run_push(m, before.stmts, f.slot_read(slot, ty), seq![pc], st2);
                lemma_next_step(key, k as int, before, after, e, e2, seq![v], v);
            },
            StmtView::Poly { ty, coeffs, constant } => {
                lemma_const_slot(p, i, k as int);
                lemma_slot_read(m, p, i, slot, e2, s2);
                let x1 = f.slot_read(slot, ty);
                let x2 = StmtView::Poly {
                    ty,
                    coeffs: renamed_terms(coeffs, before.vars),
                    constant: zero_constant(),
                };
                let len = before.stmts.len();
                let one = IRVarId((len + 1) as u32);
                let two = IRVarId((len + 2) as u32);
                let x3 = StmtView::Poly {
                    ty,
                    coeffs: xor_terms(two, one),
                    constant: zero_constant(),
                };
                lemma_run_push(m, before.stmts, x1, seq![pc], st2);
                lemma_run_push(m, before.stmts.push(x1), x2, seq![pc], st2);
                lemma_run_push(m, before.stmts.push(x1).push(x2), x3, seq![pc], st2);
                let v1 = (m.constant)(constant, ty);
                let ea = e2.push(v1);
                assert(renames(sc, before.vars, e, ea)) by {
                    assert forall|w: IRVarId| #[trigger] var_mapped(w, sc) implies w.0
                        < before.vars.len() && at(w, e) == at(renamed_var(w, before.vars), ea) by {
                        assert(at(w, e) == at(renamed_var(w, before.vars), e2));
                        let j = w.0 as int;
                        assert(sc[j].0 != UNDEFINED_VAR);
                        assert(before.vars[j].0 <= before.stmts.len());
                    }
                }
                lemma_renamed_sum(m, ty, coeffs, sc, before.vars, e, ea);
                let v2 = sum(m, ty, coeffs, e);
                lemma_zero(m, ty, v2);
                let eb = ea.push(v2);
                lemma_xor(m, ty, two, one, eb);
                assert(at(two, eb) == v2);
                assert(at(one, eb) == v1);
                let ec = eb.push(v);
                assert(run_stmts(m, after.stmts, seq![pc], st2) == (ec, s2));
                assert(ec =~= e2 + seq![v1, v2, v]);
                lemma_next_step(key, k as int, before, after, e, e2, seq![v1, v2, v], v);
            },
            _ => {
                let y = renamed_stmt(x, before.vars);
                assert(kx == x);
                assert(after.stmts == before.stmts.push(y));
                lemma_renamed_stmt(m, x, sc, before.vars, e, e2, s2);
                assert(touched(x) matches Some(w) ==> !in_table(p, w)) by {
                    reveal(ready);
                    assert(p.blocks[i].stmts[k as int] == x);
                }
                lemma_act_beside(m, p, x, e, s, s2);
                lemma_run_push(m, before.stmts, y, seq![pc], st2);
                lemma_next_step(key, k as int, before, after, e, e2, seq![v], v);
                assert(e2.push(v) =~= e2 + seq![v]);
            },
        }
    }
}

/// A step of the body leaves every variable its value under its new name.
proof fn lemma_next_step<V>(
    key: IRBlockView,
    k: int,
    before: Body,
    after: Body,
    e: Seq<V>,
    e2: Seq<V>,
    more: Seq<V>,
    v: V,
)
    requires
        0 <= k < key.stmts.len(),
        key.var_space() < u32::MAX,
        e.len() == key.params.len() + k,
        e2.len() == 1 + before.stmts.len(),
        before.vars.len() == key.params.len() + k,
        after.vars.len() == before.vars.len() + 1,
        forall|j: int| 0 <= j < before.vars.len() ==> #[trigger] after.vars[j] == before.vars[j],
        forall|j: int|
            0 <= j < before.vars.len() ==> ((#[trigger] before.vars[j]).0 == UNDEFINED_VAR
                || before.vars[j].0 <= before.stmts.len()),
        forall|j: int|
            0 <= j < key.params.len() + k ==> ({
                let w = #[trigger] before.vars[j];
                if j < key.params.len() || output_type(key.stmts[j - key.params.len()]) is Some {
                    w.0 <= before.stmts.len()
                } else {
                    w.0 == UNDEFINED_VAR
                }
            }),
        renames(scope(key, k), before.vars, e, e2),
        more.len() > 0,
        more.last() == v,
        output_type(key.stmts[k]) is Some ==> after.vars.last().0 == before.stmts.len()
            + more.len(),
    ensures
        renames(scope(key, k + 1), after.vars, e.push(v), e2 + more),
{
    let sc = scope(key, k);
    let sc2 = scope(key, k + 1);
    assert forall|w: IRVarId| #[trigger] var_mapped(w, sc2) implies w.0 < after.vars.len() && at(
        w,
        e.push(v),
    ) == at(renamed_var(w, after.vars), e2 + more) by {
        let j = w.0 as int;
        if j < e.len() {
            assert(sc2[j] == sc[j]);
            assert(var_mapped(w, sc));
            assert(at(w, e) == at(renamed_var(w, before.vars), e2));
            assert(after.vars[j] == before.vars[j]);
            assert(before.vars[j].0 <= before.stmts.len());
        } else {
            assert(j == e.len());
            assert(sc2[j].0 != UNDEFINED_VAR);
            assert(output_type(key.stmts[k]) is Some);
            assert(after.vars[j] == after.vars.last());
            assert((e2 + more)[e2.len() + more.len() - 1] == v);
        }
    }
}

// ---------------------------------------------------------------------------
// Branches
// ---------------------------------------------------------------------------

/// The types of the registers that a branch writes.
proof fn lemma_arm_registers<H: IrHashAlgorithm>(p: IrPlan<H>, i: int, a: int)
    requires
        ready(p),
        0 <= i < p.blocks.len(),
        0 <= a < arms(p.blocks[i].terminator).len(),
    ensures
        ({
            let b = p.blocks[i];
            let arm = arms(b.terminator)[a];
            arm_registers(b, arm, p.blocks, p.types) == registers(var_types(b, arm.args))
        }),
{
    lemma_typed(p, i, a);
    lemma_bounds(p);
}

/// The type of an argument has registers.
proof fn lemma_arm_type<H: IrHashAlgorithm>(p: IrPlan<H>, i: int, a: int, k: int)
    requires
        ready(p),
        0 <= i < p.blocks.len(),
        0 <= a < arms(p.blocks[i].terminator).len(),
        0 <= k < arms(p.blocks[i].terminator)[a].args.len(),
    ensures
        p.frame.file.contains(
            var_types(p.blocks[i], arms(p.blocks[i].terminator)[a].args)[k],
        ),
{
    let b = p.blocks[i];
    let key = ir_key(b);
    lemma_key_like(p, i);
    lemma_key_slots(b, p.frame.addr_ty, p.frame.bit_ty);
    assert(arms(key.terminator)[a] == canon_branch(arms(b.terminator)[a]));
    assert(p.frame.file.contains(var_type(key, arms(key.terminator)[a].args[k])->0));
}

/// The writes of a branch put its arguments into the registers of its
/// destination.
#[verifier::rlimit(90)]
proof fn lemma_arm_writes<V, W, H: IrHashAlgorithm>(
    m: Machine<V, W>,
    p: IrPlan<H>,
    i: int,
    a: int,
    env: Seq<V>,
    vals: Seq<IRVarId>,
    n: nat,
    st: IrState<V, W>,
    st2: IrState<V, W>,
)
    requires
        ready(p),
        numbers(m, p.frame.addr_ty, p.frame.bit_ty),
        0 <= i < p.blocks.len(),
        0 <= a < arms(p.blocks[i].terminator).len(),
        n <= arms(p.blocks[i].terminator)[a].args.len() <= u32::MAX,
        vals.len() == arms(p.blocks[i].terminator)[a].args.len(),
        env.len() > 0,
        env.len() + 2 * n <= u32::MAX,
        (m.number)(env[0]) == i,
        forall|k: int| 0 <= k < vals.len() ==> (#[trigger] vals[k]).0 < env.len(),
        beside_table(m, st, st2, p),
    ensures
        ({
            let b = p.blocks[i];
            let arm = arms(b.terminator)[a];
            let tys = var_types(b, arm.args);
            let f = row_frame(p, i);
            let (e, s) = run_stmts(
                m,
                arm_writes(f, env.len(), arm_start(b, a), vals, tys, n),
                env,
                st2,
            );
            &&& e.len() == env.len() + 2 * n
            &&& forall|k: int| 0 <= k < env.len() ==> e[k] == #[trigger] env[k]
            &&& beside_table(m, st, s, p)
            &&& forall|k: int|
                0 <= k < n ==> (s.cells)(
                    f.reg(#[trigger] tys[k]),
                    tys[k],
                    register_index(tys, k) as nat,
                ) == at(vals[k], env)
        }),
    decreases n,
{
    lemma_bounds(p);
    let b = p.blocks[i];
    let arm = arms(b.terminator)[a];
    let tys = var_types(b, arm.args);
    let f = row_frame(p, i);
    let start = arm_start(b, a);
    if n > 0 {
        let k = (n - 1) as nat;
        lemma_arm_writes(m, p, i, a, env, vals, k, st, st2);
        let before = arm_writes(f, env.len(), start, vals, tys, k);
        let (e, s) = run_stmts(m, before, env, st2);
        let ty = tys[k as int];
        let x = f.slot_read((start + 2 + k) as nat, f.addr_ty);
        let y = StmtView::StorageWrite {
            storage: f.reg(ty),
            src: vals[k as int],
            ty,
            addr: IRVarId((env.len() + 2 * k) as u32),
        };
        lemma_arm_slot(p, i, a, 2 + k as int);
        lemma_arm_registers(p, i, a);
        let idx = register_index(tys, k as int);
        assert(arm_values(b, arm, p.blocks, p.types)[2 + k as int] == constant_of(idx));
        assert(e[0] == env[0]);
        lemma_slot_read(m, p, i, (start + 2 + k) as nat, e, s);
        lemma_run_push(m, before, x, env, st2);
        lemma_run_push(m, before.push(x), y, env, st2);
        let reg = (m.constant)(constant_of(idx), f.addr_ty);
        let e1 = e.push(reg);
        assert(run_stmts(m, before.push(x), env, st2) == (e1, s));
        let v = at(vals[k as int], env);
        assert(at(vals[k as int], e1) == v) by {
            assert(vals[k as int].0 < env.len());
        }
        assert(at(IRVarId((env.len() + 2 * k) as u32), e1) == reg);
        let c = stored(s.cells, f.reg(ty), ty, idx as nat, v);
        let s1 = IrState { cells: c, ..s };
        let e2 = e1.push(m.unit);
        assert(run_stmts(m, before.push(x).push(y), env, st2) == (e2, s1));
        lemma_arm_type(p, i, a, k as int);
        law_register_storages_distinct(p.frame.file, p.frame.base, ty, ty);
        lemma_table_kept(m, s.cells, p, f.reg(ty), ty, idx as nat, v);
        assert(in_table(p, f.reg(ty)));
        assert forall|q: int| 0 <= q < n implies (s1.cells)(
            f.reg(#[trigger] tys[q]),
            tys[q],
            register_index(tys, q) as nat,
        ) == at(vals[q], env) by {
            if q < k {
                law_registers_distinct(tys, q, k as int);
                assert(registers(tys)[q].idx == register_index(tys, q));
            }
        }
        assert forall|w: StorageId, t: IRTypeId, z: nat| !in_table(p, w) implies #[trigger] (
        st.cells)(w, t, z) == (s1.cells)(w, t, z) by {
            assert((st.cells)(w, t, z) == (s.cells)(w, t, z));
        }
    }
}

// ---------------------------------------------------------------------------
// Checks
// ---------------------------------------------------------------------------

/// What the checks of rows ask of a machine: differences of hashes and of
/// addresses are found out, the statements of the hash compute it and need no
/// further types, and hashes as constants denote what their bytes do.
pub open spec fn checkable<V, W, H: IrHashAlgorithm>(m: Machine<V, W>, p: IrPlan<H>) -> bool {
    p.check matches Some(c) ==> {
        &&& compares(m, c.hash_ty, p.frame.addr_ty)
        &&& compares(m, p.frame.addr_ty, p.frame.addr_ty)
        &&& computes_hash(m, c.algorithm, p.types, p.frame.bit_ty, c.key_tys)
        &&& adds_no_types(c.algorithm, p.types)
        &&& denotes_hashes(m, c.algorithm, c.hash_ty)
    }
}

/// The statements of the handler of a row with the check behind them, and the
/// variable of the difference.
pub open spec fn checked<H: IrHashAlgorithm>(p: IrPlan<H>, i: int, stmts: Seq<StmtView>) -> (
    EmitterView,
    Option<IRVarId>,
) {
    check_row_if(
        row_frame(p, i),
        draft(row_frame(p, i), stmts, p.types),
        row_slots(p, i),
        p.check,
    )
}

/// The check of a row finds no difference and changes nothing.
#[verifier::rlimit(40)]
proof fn lemma_checked<V, W, H: IrHashAlgorithm>(
    m: Machine<V, W>,
    p: IrPlan<H>,
    i: int,
    stmts: Seq<StmtView>,
    pc: V,
    st2: IrState<V, W>,
)
    requires
        ready(p),
        adds_up(m),
        numbers(m, p.frame.addr_ty, p.frame.bit_ty),
        checkable(m, p),
        0 <= i < p.blocks.len(),
        (m.number)(pc) == i,
        holds_table(m, run_stmts(m, stmts, seq![pc], st2).1.cells, p),
        holds_key(m, run_stmts(m, stmts, seq![pc], st2).1.cells, p),
        1 + stmts.len() + check_room(p.check, row_slots(p, i).len()) <= u32::MAX,
    ensures
        ({
            let (e2, d) = checked(p, i, stmts);
            let (env, s) = run_stmts(m, stmts, seq![pc], st2);
            let (env3, s3) = run_stmts(m, e2.block.stmts, seq![pc], st2);
            &&& s3 == s
            &&& env.len() == 1 + stmts.len()
            &&& env3.len() == e2.block.var_space()
            &&& env.len() <= env3.len() <= env.len() + check_room(
                p.check,
                row_slots(p, i).len(),
            )
            &&& forall|j: int| 0 <= j < env.len() ==> #[trigger] env3[j] == env[j]
            &&& d is Some == p.check is Some
            &&& d matches Some(v) ==> v.0 < env3.len() && (m.number)(at(v, env3)) == 0
            &&& e2.types == p.types
            &&& e2.block.params == seq![p.frame.addr_ty]
        }),
{
    lemma_bounds(p);
    lemma_run_length(m, stmts, seq![pc], st2);
    let f = row_frame(p, i);
    let e = draft(f, stmts, p.types);
    let slots = row_slots(p, i);
    let (env, s) = run_stmts(m, stmts, seq![pc], st2);
    if p.check is Some {
        let c = p.check->0;
        let values = slot_values(p.blocks[i], p.blocks, p.types);
        lemma_slot_values_len(
            p.blocks[i],
            p.blocks,
            p.types,
            p.frame.addr_ty,
            p.frame.bit_ty,
        );
        assert(env[0] == seq![pc][0]);
        assert(num(m, e, pc_var(), seq![pc], st2) == i);
        assert(holds_row(m, s.cells, p, i));
        assert(holds_parts(
            m,
            s.cells,
            f,
            slots,
            c,
            i as nat,
            plan_rows(p)[i],
            values,
            p.key,
        )) by {
            assert forall|x: int| 0 <= x < slots.len() implies #[trigger] (s.cells)(
                f.slots[x],
                slots[x].ty,
                i as nat,
            ) == (m.constant)(values[x], slots[x].ty) by {
                assert(holds_slot(m, s.cells, p, i, x));
            }
        }
        law_check_compares_hashes(
            m,
            f,
            e,
            slots,
            c,
            i as nat,
            plan_rows(p)[i],
            values,
            p.key,
            seq![pc],
            st2,
        );
        let key_bytes = Seq::new(
            p.key.len(),
            |k: int| constant_bytes(p.key[k], e.types[c.key_tys[k].0 as int]),
        );
        let row_bytes = seq![
            constant_bytes(constant_of(plan_rows(p)[i]), e.types[f.addr_ty.0 as int]),
        ] + Seq::new(
            slots.len(),
            |s: int| constant_bytes(values[s], e.types[slots[s].ty.0 as int]),
        );
        assert(row_digest(p, c, i) == c.algorithm.digest(key_bytes, row_bytes));
        let (e2, d) = check_row(f, e, slots, c);
        let (env3, s3) = run_stmts(m, e2.block.stmts, seq![pc], st2);
        let same = EmitterView { types: e.types, ..e2 };
        assert(ran(m, same, seq![pc], st2) == (env3, s3));
        assert forall|j: int| 0 <= j < env.len() implies #[trigger] env3[j] == env[j] by {
            let v = IRVarId(j as u32);
            assert(at(v, env3) == at(v, env));
        }
    }
}

/// Reading the key adds no types.
proof fn lemma_key_reads_types(
    e: EmitterView,
    storage: StorageId,
    key_tys: Seq<IRTypeId>,
    n: nat,
)
    ensures
        key_reads(e, storage, key_tys, n).0.types == e.types,
    decreases n,
{
    if n > 0 {
        lemma_key_reads_types(e, storage, key_tys, (n - 1) as nat);
    }
}

/// Reading slots adds no types.
proof fn lemma_slot_reads_types(f: Frame, e: EmitterView, slots: Seq<HandlerSlot>, n: nat)
    ensures
        slot_reads(f, e, slots, n).0.types == e.types,
    decreases n,
{
    if n > 0 {
        lemma_slot_reads_types(f, e, slots, (n - 1) as nat);
    }
}

/// A check adds no types.
proof fn lemma_check_types<H: IrHashAlgorithm>(
    f: Frame,
    e: EmitterView,
    slots: Seq<HandlerSlot>,
    c: Option<Check<H>>,
)
    requires
        c matches Some(x) ==> adds_no_types(x.algorithm, e.types),
    ensures
        check_row_if(f, e, slots, c).0.types == e.types,
{
    if c is Some {
        let x = c->0;
        let (e1, key) = match x.key_storage {
            Some(storage) => key_reads(e, storage, x.key_tys, x.key_tys.len()),
            None => (e, Seq::empty()),
        };
        if x.key_storage is Some {
            lemma_key_reads_types(e, x.key_storage->0, x.key_tys, x.key_tys.len());
        }
        let e2 = e1.push(
            StmtView::StorageRead { storage: f.bytecode, ty: f.addr_ty, addr: pc_var() },
        );
        lemma_slot_reads_types(f, e2, slots, slots.len());
    }
}

/// Handlers add no types.
proof fn lemma_settled<H: IrHashAlgorithm>(p: IrPlan<H>, n: int)
    requires
        p.check matches Some(c) ==> adds_no_types(c.algorithm, p.types),
    ensures
        handlers(p.frame, p.keys, p.check, p.types, n).types == p.types,
    decreases n,
{
    if n > 0 {
        lemma_settled(p, n - 1);
        let f = p.frame.handler_frame(p.keys, n - 1);
        let key = p.keys[n - 1];
        let slots = handler_slots(key, f.addr_ty, f.bit_ty);
        let body = handler_body(f, key, key.stmts.len() as int);
        reveal(handler);
        match key.terminator {
            TermView::Jmp { target } => {
                let stmts = body.stmts + arm_writes(
                    f,
                    1 + body.stmts.len(),
                    arm_start(key, 0),
                    renamed_vars(target.args, body.vars),
                    var_types(key, target.args),
                    target.args.len(),
                );
                lemma_check_types(f, draft(f, stmts, p.types), slots, p.check);
            },
            _ => {
                lemma_check_types(f, draft(f, body.stmts, p.types), slots, p.check);
            },
        }
    }
}

/// Adding nothing to an address leaves its number.
proof fn lemma_adds_nothing<V, W>(m: Machine<V, W>, ty: IRTypeId, a: V, b: V)
    requires
        adds_up(m),
        compares(m, ty, ty),
        (m.number)(b) == 0,
    ensures
        (m.number)((m.plus)(ty, a, b)) == (m.number)(a),
{
    let c = (m.plus)(ty, a, b);
    lemma_coefficients(m, ty, 1, 1, a);
    assert(1u8 ^ 1u8 == 0u8) by (bit_vector);
    lemma_coefficients(m, ty, 0, 0, a);
    assert((m.plus)(ty, a, a) == zero(m, ty));
    lemma_plus_commutes(m, ty, c, a);
    lemma_swap(m, ty, a, a, b);
    lemma_associates(m, ty, a, a, b);
    lemma_zero(m, ty, b);
    assert((m.plus)(ty, c, a) == b);
}

/// The reads at the end of a branch. A difference of nothing is added to the
/// row.
proof fn lemma_exit_reads<V, W, H: IrHashAlgorithm>(
    m: Machine<V, W>,
    p: IrPlan<H>,
    i: int,
    a: int,
    diff: Option<IRVarId>,
    env: Seq<V>,
    st: IrState<V, W>,
)
    requires
        ready(p),
        adds_up(m),
        checkable(m, p),
        0 <= i < p.blocks.len(),
        0 <= a < arms(p.blocks[i].terminator).len(),
        0 < env.len() <= u32::MAX,
        (m.number)(env[0]) == i,
        holds_table(m, st.cells, p),
        diff is Some ==> p.check is Some,
        diff matches Some(d) ==> d.0 < env.len() && (m.number)(at(d, env)) == 0,
    ensures
        ({
            let b = p.blocks[i];
            let arm = arms(b.terminator)[a];
            let f = row_frame(p, i);
            let read = env.push((m.constant)(exit_row(arm), f.addr_ty));
            let pc = exit_pc(m, p, arm, diff, env);
            let (e, s) = run_stmts(m, exit_reads(f, env.len(), arm_start(b, a), diff), env, st);
            &&& s == st
            &&& e == (match diff {
                Some(_) => read.push(pc),
                None => read,
            }).push((m.constant)(constant_of_bit(arm.dest is Return), f.bit_ty))
            &&& (m.number)(pc) == (m.number)((m.constant)(exit_row(arm), f.addr_ty))
        }),
{
    let b = p.blocks[i];
    let arm = arms(b.terminator)[a];
    let f = row_frame(p, i);
    let start = arm_start(b, a);
    let x = f.slot_read(start, f.addr_ty);
    let y = f.slot_read(start + 1, f.bit_ty);
    lemma_arm_slot(p, i, a, 0);
    lemma_arm_slot(p, i, a, 1);
    lemma_slot_read(m, p, i, start, env, st);
    let none = Seq::<StmtView>::empty();
    assert(run_stmts(m, none, env, st) == (env, st));
    lemma_run_push(m, none, x, env, st);
    let e = run_stmts(m, none.push(x), env, st).0;
    assert(e[0] == env[0]);
    match diff {
        Some(d) => {
            let at_pc = IRVarId(env.len() as u32);
            let z = StmtView::Poly {
                ty: f.addr_ty,
                coeffs: xor_terms(at_pc, d),
                constant: zero_constant(),
            };
            lemma_run_push(m, none.push(x), z, env, st);
            lemma_xor(m, f.addr_ty, at_pc, d, e);
            let row = (m.constant)(exit_row(arm), f.addr_ty);
            assert(at(at_pc, e) == row);
            assert(at(d, e) == at(d, env));
            lemma_adds_nothing(m, f.addr_ty, row, at(d, env));
            let e1 = run_stmts(m, none.push(x).push(z), env, st).0;
            assert(e1 == e.push(exit_pc(m, p, arm, diff, env)));
            assert(e1[0] == env[0]);
            lemma_slot_read(m, p, i, start + 1, e1, st);
            lemma_run_push(m, none.push(x).push(z), y, env, st);
            assert(exit_reads(f, env.len(), start, diff) =~= none.push(x).push(z).push(y));
        },
        None => {
            lemma_slot_read(m, p, i, start + 1, e, st);
            lemma_run_push(m, none.push(x), y, env, st);
            assert(exit_reads(f, env.len(), start, None) =~= none.push(x).push(y));
        },
    }
}

/// The row at the end of a branch.
spec fn exit_pc<V, W, H>(
    m: Machine<V, W>,
    p: IrPlan<H>,
    arm: BranchView,
    diff: Option<IRVarId>,
    env: Seq<V>,
) -> V {
    let row = (m.constant)(exit_row(arm), p.frame.addr_ty);
    match diff {
        Some(d) => (m.plus)(p.frame.addr_ty, row, at(d, env)),
        None => row,
    }
}

/// The row that a branch continues at.
pub open spec fn exit_row(arm: BranchView) -> Constant {
    match arm.dest {
        IRBlockTargetId::Block(t) => constant_of(t.0),
        _ => constant_of(0),
    }
}

// ---------------------------------------------------------------------------
// The blocks of the virtual program
// ---------------------------------------------------------------------------

/// The blocks of the virtual program.
pub open spec fn virtual_blocks<H: IrHashAlgorithm>(p: IrPlan<H>) -> Seq<IRBlockView> {
    module_blocks(p.frame, p.blocks[0].params, p.shape, p.keys, p.check, p.types)
}

/// The first of the further blocks of handler `h`.
pub open spec fn extras_at<H: IrHashAlgorithm>(p: IrPlan<H>, h: int) -> nat {
    (p.frame.first_handler() + p.keys.len() + handlers(
        p.frame,
        p.keys,
        p.check,
        p.types,
        h,
    ).extras.len()) as nat
}

/// Handler `h`.
pub open spec fn handler_at<H: IrHashAlgorithm>(p: IrPlan<H>, h: int) -> Handler {
    handler(
        p.frame.handler_frame(p.keys, h),
        p.keys[h],
        p.check,
        handlers(p.frame, p.keys, p.check, p.types, h).types,
        extras_at(p, h),
    )
}

/// Where handler `h` stands among the first `n`.
proof fn lemma_handler_among<H: IrHashAlgorithm>(p: IrPlan<H>, n: int, h: int)
    requires
        0 <= h < n <= p.keys.len(),
    ensures
        ({
            let all = handlers(p.frame, p.keys, p.check, p.types, n);
            let at = handlers(p.frame, p.keys, p.check, p.types, h).extras.len() as int;
            let own = handler_at(p, h).extras;
            &&& all.blocks.len() == n
            &&& all.blocks[h] == handler_at(p, h).block
            &&& at + own.len() <= all.extras.len()
            &&& forall|j: int| 0 <= j < own.len() ==> all.extras[at + j] == #[trigger] own[j]
        }),
    decreases n,
{
    lemma_handlers(p.frame, p.keys, p.check, p.types, n - 1);
    if h < n - 1 {
        lemma_handler_among(p, n - 1, h);
    }
}

/// Where the blocks of the virtual program stand.
pub proof fn lemma_places<H: IrHashAlgorithm>(p: IrPlan<H>, h: int)
    requires
        ready(p),
        0 <= h < p.keys.len(),
    ensures
        ({
            let f = p.frame;
            let vb = virtual_blocks(p);
            let own = handler_at(p, h).extras;
            let dispatch = dispatch_block(p.keys.len(), f.bytecode, f.addr_ty, f.first_handler());
            let ret = return_block(p.shape, f.file, f.base, f.addr_ty);
            &&& vb.len() <= u32::MAX
            &&& vb.len() >= f.first_handler() + p.keys.len()
            &&& vb[f.first_handler() + h] == handler_at(p, h).block
            &&& extras_at(p, h) + own.len() <= vb.len()
            &&& forall|j: int|
                0 <= j < own.len() ==> vb[extras_at(p, h) + j] == #[trigger] own[j]
            &&& vb[0] == setup_block(
                f.with_slots(p.keys.len(), Seq::empty()),
                p.blocks[0].params,
                p.check,
            )
            &&& f.direct ==> vb[DD_RETURN_BID as int] == ret && vb[DD_INIT_DISPATCH_BID as int]
                == dispatch
            &&& !f.direct ==> vb[DISPATCHER_BID as int] == dispatcher_block(f.addr_ty, f.bit_ty)
                && vb[RETURN_BID as int] == ret && vb[DISPATCH_BID as int] == dispatch
        }),
{
    lemma_bounds(p);
    let f = p.frame;
    let n = p.keys.len() as int;
    lemma_handler_among(p, n, h);
    lemma_handlers(f, p.keys, p.check, p.types, n);
    assert(p.keys.take(n) =~= p.keys);
    let head = module_head(f, p.blocks[0].params, p.shape, p.keys.len(), p.check);
    let all = handlers(f, p.keys, p.check, p.types, n);
    let vb = virtual_blocks(p);
    assert(vb == head + all.blocks + all.extras);
    assert(head.len() == f.first_handler());
    assert(vb[head.len() + h] == all.blocks[h]);
    let own = handler_at(p, h).extras;
    let at = handlers(f, p.keys, p.check, p.types, h).extras.len() as int;
    assert forall|j: int| 0 <= j < own.len() implies vb[extras_at(p, h) + j] == #[trigger] own[j] by {
        assert(vb[head.len() + all.blocks.len() + (at + j)] == all.extras[at + j]);
    }
    assert(vb[0] == head[0]);
    assert(vb[1] == head[1]);
    assert(vb[2] == head[2]);
    if !f.direct {
        assert(vb[3] == head[3]);
    }
}

/// The cases of a dispatch are those of the handlers.
proof fn lemma_dispatch_case(cases: Seq<(Constant, BranchView)>, n: nat, h: nat)
    requires
        n <= cases.len() <= u32::MAX,
        forall|k: int|
            0 <= k < cases.len() ==> (#[trigger] cases[k]).0 == constant_of(k as u32),
        h <= u32::MAX,
    ensures
        case_of(cases.take(n as int), h) == (if h < n {
            Some(h as int)
        } else {
            None
        }),
    decreases n,
{
    if n > 0 {
        let k = (n - 1) as nat;
        lemma_dispatch_case(cases, k, h);
        assert(cases.take(n as int).drop_last() =~= cases.take(k as int));
        assert(cases.take(n as int).last() == cases[k as int]);
        lemma_constant_number(k as u32);
    }
}

/// A dispatch block enters the handler of the row.
pub proof fn lemma_dispatch<V, W, H: IrHashAlgorithm>(
    m: Machine<V, W>,
    p: IrPlan<H>,
    x: int,
    pc: V,
    i: int,
    st: IrState<V, W>,
    fuel: nat,
)
    requires
        ready(p),
        numbers(m, p.frame.addr_ty, p.frame.bit_ty),
        0 <= i < p.blocks.len(),
        (m.number)(pc) == i,
        holds_table(m, st.cells, p),
        0 <= x < virtual_blocks(p).len(),
        virtual_blocks(p)[x] == dispatch_block(
            p.keys.len(),
            p.frame.bytecode,
            p.frame.addr_ty,
            p.frame.first_handler(),
        ),
    ensures
        run(m, virtual_blocks(p), x, seq![pc], st, fuel + 1) == run(
            m,
            virtual_blocks(p),
            p.frame.first_handler() + plan_rows(p)[i] as int,
            seq![pc],
            st,
            fuel,
        ),
{
    lemma_bounds(p);
    let f = p.frame;
    let vb = virtual_blocks(p);
    lemma_row(p, i);
    let h = plan_rows(p)[i];
    lemma_places(p, h as int);
    let block = vb[x];
    let none = Seq::<StmtView>::empty();
    let read = StmtView::StorageRead { storage: f.bytecode, ty: f.addr_ty, addr: pc_var() };
    assert(block.stmts =~= none.push(read));
    assert(run_stmts(m, none, seq![pc], st) == (seq![pc], st));
    lemma_run_push(m, none, read, seq![pc], st);
    assert(holds_row(m, st.cells, p, i));
    let v = (m.constant)(constant_of(h), f.addr_ty);
    let env = seq![pc].push(v);
    assert(run_stmts(m, block.stmts, seq![pc], st) == (env, st));
    let cases = block.terminator->cases;
    assert(p.keys.len() <= u32::MAX);
    lemma_dispatch_case(cases, cases.len(), h as nat);
    assert(cases.take(cases.len() as int) =~= cases);
    assert((m.number)(at(IRVarId(1), env)) == h);
    assert(taken(m, block.terminator, env) == Some(h as int));
    let arm = arms(block.terminator)[h as int];
    assert(arm == jump((f.first_handler() + h) as u32, seq![pc_var()]));
    assert(at_all(arm.args, env) =~= seq![pc]);
    lemma_one(
        m,
        vb,
        x,
        seq![pc],
        st,
        IRBlockId((f.first_handler() + h) as u32),
        seq![pc],
        st,
        fuel,
    );
}

/// The reads of the block that returns fetch what registers hold.
proof fn lemma_return_reads<V, W, H: IrHashAlgorithm>(
    m: Machine<V, W>,
    p: IrPlan<H>,
    n: nat,
    f: Frame,
    vals: Seq<V>,
    st: IrState<V, W>,
)
    requires
        ready(p),
        numbers(m, p.frame.addr_ty, p.frame.bit_ty),
        n <= p.shape.len(),
        f.file == p.frame.file,
        f.base == p.frame.base,
        in_registers(st.cells, f, p.shape, vals),
    ensures
        ({
            let (e, s) = run_stmts(
                m,
                return_reads(p.shape, p.frame.file, p.frame.base, p.frame.addr_ty, n),
                Seq::empty(),
                st,
            );
            &&& s == st
            &&& e.len() == 2 * n
            &&& forall|k: int| 0 <= k < n ==> #[trigger] vals[k] == e[2 * k + 1]
        }),
    decreases n,
{
    lemma_bounds(p);
    if n > 0 {
        let k = (n - 1) as nat;
        lemma_return_reads(m, p, k, f, vals, st);
        let tys = p.shape;
        let addr_ty = p.frame.addr_ty;
        let before = return_reads(tys, p.frame.file, p.frame.base, addr_ty, k);
        let (e, s) = run_stmts(m, before, Seq::empty(), st);
        let ty = tys[k as int];
        let idx = register_index(tys, k as int);
        let x = StmtView::Const(constant_of(idx), addr_ty);
        let y = StmtView::StorageRead {
            storage: f.reg(ty),
            ty,
            addr: IRVarId((2 * k) as u32),
        };
        lemma_run_push(m, before, x, Seq::empty(), st);
        lemma_run_push(m, before.push(x), y, Seq::empty(), st);
        let e1 = e.push((m.constant)(constant_of(idx), addr_ty));
        assert(at(IRVarId((2 * k) as u32), e1) == (m.constant)(constant_of(idx), addr_ty));
        let e2 = e1.push(vals[k as int]);
        assert(run_stmts(
            m,
            return_reads(tys, p.frame.file, p.frame.base, addr_ty, n),
            Seq::empty(),
            st,
        ) == (e2, st));
        assert forall|q: int| 0 <= q < n implies #[trigger] vals[q] == e2[2 * q + 1] by {
            if q < k {
                assert(vals[q] == e[2 * q + 1]);
            }
        }
    }
}

/// The block that returns returns what registers hold.
proof fn lemma_return<V, W, H: IrHashAlgorithm>(
    m: Machine<V, W>,
    p: IrPlan<H>,
    f: Frame,
    vals: Seq<V>,
    st: IrState<V, W>,
)
    requires
        ready(p),
        numbers(m, p.frame.addr_ty, p.frame.bit_ty),
        f.file == p.frame.file,
        f.base == p.frame.base,
        in_registers(st.cells, f, p.shape, vals),
    ensures
        run_block(
            m,
            return_block(p.shape, p.frame.file, p.frame.base, p.frame.addr_ty),
            Seq::empty(),
            st,
        ) == (Exit::Return(vals), st),
{
    lemma_bounds(p);
    let b = return_block(p.shape, p.frame.file, p.frame.base, p.frame.addr_ty);
    lemma_return_reads(m, p, p.shape.len(), f, vals, st);
    let (e, s) = run_stmts(m, b.stmts, Seq::empty(), st);
    let arm = arms(b.terminator)[0];
    let got = at_all(arm.args, e);
    assert forall|k: int| 0 <= k < vals.len() implies got[k] == vals[k] by {
        assert(vals[k] == e[2 * k + 1]);
        assert(arm.args[k].0 == 2 * k + 1);
    }
    assert(got =~= vals);
}

/// From the dispatcher with a row and whether to return.
pub proof fn lemma_dispatcher<V, W, H: IrHashAlgorithm>(
    m: Machine<V, W>,
    p: IrPlan<H>,
    pc: V,
    done: V,
    st: IrState<V, W>,
    fuel: nat,
)
    requires
        ready(p),
        !p.frame.direct,
    ensures
        (m.number)(done) == 0 ==> run(
            m,
            virtual_blocks(p),
            DISPATCHER_BID as int,
            seq![pc, done],
            st,
            fuel + 1,
        ) == run(m, virtual_blocks(p), DISPATCH_BID as int, seq![pc], st, fuel),
        (m.number)(done) == 1 ==> run(
            m,
            virtual_blocks(p),
            DISPATCHER_BID as int,
            seq![pc, done],
            st,
            fuel + 1,
        ) == run(m, virtual_blocks(p), RETURN_BID as int, Seq::empty(), st, fuel),
{
    lemma_bounds(p);
    lemma_row(p, 0);
    lemma_places(p, 0);
    let vb = virtual_blocks(p);
    let block = vb[DISPATCHER_BID as int];
    let env = seq![pc, done];
    assert(run_stmts(m, block.stmts, env, st) == (env, st));
    assert(at(IRVarId(1), env) == done);
    if (m.number)(done) == 0 {
        let arm = arms(block.terminator)[1];
        assert(at_all(arm.args, env) =~= seq![pc]);
        lemma_one(m, vb, 1, env, st, IRBlockId(DISPATCH_BID), seq![pc], st, fuel);
    } else if (m.number)(done) == 1 {
        let arm = arms(block.terminator)[0];
        assert(at_all(arm.args, env) =~= Seq::empty());
        lemma_one(m, vb, 1, env, st, IRBlockId(RETURN_BID), Seq::empty(), st, fuel);
    }
}

/// From the block that returns.
proof fn lemma_returned<V, W, H: IrHashAlgorithm>(
    m: Machine<V, W>,
    p: IrPlan<H>,
    f: Frame,
    vals: Seq<V>,
    st: IrState<V, W>,
    fuel: nat,
)
    requires
        ready(p),
        numbers(m, p.frame.addr_ty, p.frame.bit_ty),
        f.file == p.frame.file,
        f.base == p.frame.base,
        in_registers(st.cells, f, p.shape, vals),
    ensures
        run(
            m,
            virtual_blocks(p),
            if p.frame.direct {
                DD_RETURN_BID as int
            } else {
                RETURN_BID as int
            },
            Seq::empty(),
            st,
            fuel + 1,
        ) == Some((vals, st)),
{
    lemma_bounds(p);
    lemma_row(p, 0);
    lemma_places(p, 0);
    lemma_return(m, p, f, vals, st);
}

/// The number of blocks from the end of a branch to the next handler.
spec fn cost<H>(p: IrPlan<H>) -> nat {
    if p.frame.direct {
        2
    } else {
        3
    }
}

/// What the end of a branch leads to: the handler of the destination, or the
/// end of the program.
proof fn lemma_exit<V, W, H: IrHashAlgorithm>(
    m: Machine<V, W>,
    p: IrPlan<H>,
    i: int,
    a: int,
    x: int,
    xargs: Seq<V>,
    xst: IrState<V, W>,
    pre: Seq<StmtView>,
    diff: Option<IRVarId>,
    dispatch: u32,
    vals: Seq<V>,
    fuel: nat,
)
    requires
        ready(p),
        adds_up(m),
        checkable(m, p),
        numbers(m, p.frame.addr_ty, p.frame.bit_ty),
        0 <= i < p.blocks.len(),
        0 <= a < arms(p.blocks[i].terminator).len(),
        0 <= x < virtual_blocks(p).len(),
        ({
            let b = p.blocks[i];
            let arm = arms(b.terminator)[a];
            let f = row_frame(p, i);
            let (e, s) = run_stmts(m, pre, xargs, xst);
            let block = virtual_blocks(p)[x];
            &&& !(arm.dest is Dyn)
            &&& block.stmts == pre + exit_reads(f, e.len(), arm_start(b, a), diff)
            &&& block.terminator == exit_term(f, e.len(), diff, dispatch)
            &&& 0 < e.len()
            &&& e.len() + 3 <= u32::MAX
            &&& diff is Some ==> p.check is Some
            &&& diff matches Some(d) ==> d.0 < e.len() && (m.number)(at(d, e)) == 0
            &&& (m.number)(e[0]) == i
            &&& holds_table(m, s.cells, p)
            &&& p.frame.direct ==> dispatch < virtual_blocks(p).len()
                && virtual_blocks(p)[dispatch as int] == dispatch_block(
                p.keys.len(),
                p.frame.bytecode,
                p.frame.addr_ty,
                p.frame.first_handler(),
            )
            &&& arm.dest is Return ==> in_registers(s.cells, f, p.shape, vals)
        }),
    ensures
        ({
            let arm = arms(p.blocks[i].terminator)[a];
            let (e, s) = run_stmts(m, pre, xargs, xst);
            let got = run(m, virtual_blocks(p), x, xargs, xst, fuel + cost(p));
            match arm.dest {
                IRBlockTargetId::Block(t) => (m.number)(exit_pc(m, p, arm, diff, e)) == t.0
                    && got == run(
                    m,
                    virtual_blocks(p),
                    p.frame.first_handler() + plan_rows(p)[t.0 as int] as int,
                    seq![exit_pc(m, p, arm, diff, e)],
                    s,
                    fuel,
                ),
                _ => got == Some((vals, s)),
            }
        }),
{
    lemma_bounds(p);
    let b = p.blocks[i];
    let arm = arms(b.terminator)[a];
    let f = row_frame(p, i);
    let vb = virtual_blocks(p);
    let (e, s) = run_stmts(m, pre, xargs, xst);
    let block = vb[x];
    let tail = exit_reads(f, e.len(), arm_start(b, a), diff);
    lemma_exit_reads(m, p, i, a, diff, e, s);
    lemma_run_both(m, pre, tail, xargs, xst);
    let pc = exit_pc(m, p, arm, diff, e);
    let done = (m.constant)(constant_of_bit(arm.dest is Return), f.bit_ty);
    let env = run_stmts(m, block.stmts, xargs, xst).0;
    assert(run_stmts(m, block.stmts, xargs, xst) == (env, s));
    let (vpc, vdone) = match diff {
        Some(_) => (IRVarId((e.len() + 1) as u32), IRVarId((e.len() + 2) as u32)),
        None => (IRVarId(e.len() as u32), IRVarId((e.len() + 1) as u32)),
    };
    assert(at(vpc, env) == pc);
    assert(at(vdone, env) == done);
    assert((m.number)(done) == (if arm.dest is Return {
        1nat
    } else {
        0
    }));
    lemma_row(p, 0);
    lemma_places(p, 0);
    lemma_typed(p, i, a);
    if p.frame.direct {
        match arm.dest {
            IRBlockTargetId::Block(t) => {
                let out = arms(block.terminator)[1];
                assert(out == jump(dispatch, seq![vpc]));
                assert(at_all(out.args, env) =~= seq![pc]);
                lemma_dispatch(m, p, dispatch as int, pc, t.0 as int, s, fuel);
                lemma_one(m, vb, x, xargs, xst, IRBlockId(dispatch), seq![pc], s, fuel + 1);
            },
            _ => {
                let out = arms(block.terminator)[0];
                assert(at_all(out.args, env) =~= Seq::empty());
                lemma_returned(m, p, f, vals, s, fuel);
                lemma_one(
                    m,
                    vb,
                    x,
                    xargs,
                    xst,
                    IRBlockId(DD_RETURN_BID),
                    Seq::empty(),
                    s,
                    fuel + 1,
                );
            },
        }
    } else {
        let out = arms(block.terminator)[0];
        assert(out == jump(DISPATCHER_BID, seq![vpc, vdone]));
        assert(at_all(out.args, env) =~= seq![pc, done]);
        match arm.dest {
            IRBlockTargetId::Block(t) => {
                lemma_dispatch(m, p, DISPATCH_BID as int, pc, t.0 as int, s, fuel);
                lemma_dispatcher(m, p, pc, done, s, fuel + 1);
            },
            _ => {
                lemma_returned(m, p, f, vals, s, fuel);
                lemma_dispatcher(m, p, pc, done, s, fuel + 1);
            },
        }
        lemma_one(
            m,
            vb,
            x,
            xargs,
            xst,
            IRBlockId(DISPATCHER_BID),
            seq![pc, done],
            s,
            fuel + 2,
        );
    }
}

/// The same for a branch with a dynamic destination, the block `t`.
proof fn lemma_dyn_exit<V, W, H: IrHashAlgorithm>(
    m: Machine<V, W>,
    p: IrPlan<H>,
    i: int,
    t: int,
    x: int,
    xargs: Seq<V>,
    xst: IrState<V, W>,
    pre: Seq<StmtView>,
    v: IRVarId,
    ty: IRTypeId,
    fuel: nat,
)
    requires
        ready(p),
        numbers(m, p.frame.addr_ty, p.frame.bit_ty),
        0 <= i < p.blocks.len(),
        0 <= t < p.blocks.len(),
        0 <= x < virtual_blocks(p).len(),
        ({
            let f = row_frame(p, i);
            let (e, s) = run_stmts(m, pre, xargs, xst);
            let block = virtual_blocks(p)[x];
            &&& block.stmts == pre + dyn_exit(f, v, ty)
            &&& block.terminator == dyn_exit_term(f, e.len())
            &&& v.0 < e.len()
            &&& e.len() + 2 <= u32::MAX
            &&& (m.number)(at(v, e)) == t
            &&& holds_table(m, s.cells, p)
        }),
    ensures
        ({
            let (e, s) = run_stmts(m, pre, xargs, xst);
            run(m, virtual_blocks(p), x, xargs, xst, fuel + cost(p)) == run(
                m,
                virtual_blocks(p),
                p.frame.first_handler() + plan_rows(p)[t] as int,
                seq![(m.transmute)(ty, p.frame.addr_ty, at(v, e))],
                s,
                fuel,
            )
        }),
{
    lemma_bounds(p);
    let f = row_frame(p, i);
    let vb = virtual_blocks(p);
    let (e, s) = run_stmts(m, pre, xargs, xst);
    let block = vb[x];
    let tail = dyn_exit(f, v, ty);
    let x1 = StmtView::Transmute { src: v, src_ty: ty, dst_ty: f.addr_ty };
    let none = Seq::<StmtView>::empty();
    assert(run_stmts(m, none, e, s) == (e, s));
    lemma_run_push(m, none, x1, e, s);
    lemma_run_both(m, pre, tail, xargs, xst);
    let pc = (m.transmute)(ty, f.addr_ty, at(v, e));
    let e1 = e.push(pc);
    let vpc = IRVarId(e.len() as u32);
    lemma_row(p, 0);
    lemma_places(p, 0);
    if p.frame.direct {
        assert(tail =~= none.push(x1));
        assert(run_stmts(m, block.stmts, xargs, xst) == (e1, s));
        let out = arms(block.terminator)[0];
        assert(at_all(out.args, e1) =~= seq![pc]);
        lemma_dispatch(m, p, DD_INIT_DISPATCH_BID as int, pc, t, s, fuel);
        lemma_one(m, vb, x, xargs, xst, IRBlockId(DD_INIT_DISPATCH_BID), seq![pc], s, fuel + 1);
    } else {
        let x2 = StmtView::Const(constant_of_bit(false), f.bit_ty);
        lemma_run_push(m, none.push(x1), x2, e, s);
        assert(tail =~= none.push(x1).push(x2));
        let done = (m.constant)(constant_of_bit(false), f.bit_ty);
        let e2 = e1.push(done);
        assert(run_stmts(m, block.stmts, xargs, xst) == (e2, s));
        let out = arms(block.terminator)[0];
        assert(at_all(out.args, e2) =~= seq![pc, done]);
        lemma_dispatch(m, p, DISPATCH_BID as int, pc, t, s, fuel);
        lemma_dispatcher(m, p, pc, done, s, fuel + 1);
        lemma_one(
            m,
            vb,
            x,
            xargs,
            xst,
            IRBlockId(DISPATCHER_BID),
            seq![pc, done],
            s,
            fuel + 2,
        );
    }
}

// ---------------------------------------------------------------------------
// Handlers
// ---------------------------------------------------------------------------

/// Whether the virtual program, from block `x` on, reaches what `exit` leads to
/// in `d` blocks: the end of the program, or the handler of the next block with
/// its row `pc` and its values in registers. The state of the program is then
/// `st`, that of the virtual one `s2`.
spec fn reaches<V, W, H: IrHashAlgorithm>(
    m: Machine<V, W>,
    p: IrPlan<H>,
    x: int,
    xargs: Seq<V>,
    xst: IrState<V, W>,
    exit: Exit<V>,
    st: IrState<V, W>,
    to: (nat, V, IrState<V, W>),
    fuel: nat,
) -> bool {
    let (d, pc, s2) = to;
    let got = run(m, virtual_blocks(p), x, xargs, xst, fuel + d);
    match exit {
        Exit::Return(vals) => got == Some((vals, s2)) && beside_table(m, st, s2, p),
        Exit::Block(b, next) => enters(m, p, got, b.0 as int, next, st, pc, s2, fuel),
        Exit::Dynamic(n, tys, next) => n < p.blocks.len() && p.blocks[n as int].params == tys
            ==> enters(m, p, got, n as int, next, st, pc, s2, fuel),
        Exit::Nowhere => true,
    }
}

/// Whether `got` is what the virtual program returns from the handler of block
/// `t` on.
spec fn enters<V, W, H: IrHashAlgorithm>(
    m: Machine<V, W>,
    p: IrPlan<H>,
    got: Option<(Seq<V>, IrState<V, W>)>,
    t: int,
    next: Seq<V>,
    st: IrState<V, W>,
    pc: V,
    s2: IrState<V, W>,
    fuel: nat,
) -> bool {
    &&& 0 <= t < p.blocks.len()
    &&& (m.number)(pc) == t
    &&& beside_table(m, st, s2, p)
    &&& in_registers(s2.cells, row_frame(p, t), p.blocks[t].params, next)
    &&& got == run(
        m,
        virtual_blocks(p),
        p.frame.first_handler() + plan_rows(p)[t] as int,
        seq![pc],
        s2,
        fuel,
    )
}

/// The statements and the end of the block of a branch: it writes the arguments
/// behind `pre`, and then computes where to continue, behind the statements of
/// `all`, their number of variables, and the difference that they find.
spec fn ends_branch<H: IrHashAlgorithm>(
    p: IrPlan<H>,
    i: int,
    a: int,
    block: IRBlockView,
    pre: Seq<StmtView>,
    at: nat,
    vals: Seq<IRVarId>,
    v: IRVarId,
    all: (Seq<StmtView>, nat, Option<IRVarId>),
    dispatch: u32,
) -> bool {
    let b = p.blocks[i];
    let arm = arms(b.terminator)[a];
    let f = row_frame(p, i);
    let n = arm.args.len();
    let writes = arm_writes(f, at, arm_start(b, a), vals, var_types(b, arm.args), n);
    match arm.dest {
        IRBlockTargetId::Dyn(w) => {
            &&& block.stmts == pre + writes + dyn_exit(f, v, var_type(b, w)->0)
            &&& block.terminator == dyn_exit_term(f, at + 2 * n)
        },
        _ => {
            let (stmts, len, diff) = all;
            &&& block.stmts == stmts + exit_reads(f, len, arm_start(b, a), diff)
            &&& block.terminator == exit_term(f, len, diff, dispatch)
        },
    }
}

/// Whether the statements of `all` leave the state that writing the arguments
/// behind `pre` leaves, and find no difference.
spec fn finds_nothing<V, W, H: IrHashAlgorithm>(
    m: Machine<V, W>,
    p: IrPlan<H>,
    i: int,
    a: int,
    xargs: Seq<V>,
    xst: IrState<V, W>,
    pre: Seq<StmtView>,
    vals: Seq<IRVarId>,
    all: (Seq<StmtView>, nat, Option<IRVarId>),
) -> bool {
    let b = p.blocks[i];
    let arm = arms(b.terminator)[a];
    let at0 = run_stmts(m, pre, xargs, xst).0.len();
    let writes = arm_writes(
        row_frame(p, i),
        at0,
        arm_start(b, a),
        vals,
        var_types(b, arm.args),
        arm.args.len(),
    );
    let (env3, s3) = run_stmts(m, all.0, xargs, xst);
    &&& s3 == run_stmts(m, pre + writes, xargs, xst).1
    &&& env3.len() == all.1
    &&& 0 < env3.len()
    &&& env3.len() + 3 <= u32::MAX
    &&& (m.number)(env3[0]) == i
    &&& all.2 is Some ==> p.check is Some
    &&& all.2 matches Some(d) ==> d.0 < env3.len() && (m.number)(at(d, env3)) == 0
}

/// A block that ends a branch leads to what the branch leads to.
#[verifier::rlimit(90)]
proof fn lemma_branch<V, W, H: IrHashAlgorithm>(
    m: Machine<V, W>,
    p: IrPlan<H>,
    i: int,
    a: int,
    x: int,
    xargs: Seq<V>,
    xst: IrState<V, W>,
    pre: Seq<StmtView>,
    vals: Seq<IRVarId>,
    v: IRVarId,
    all: (Seq<StmtView>, nat, Option<IRVarId>),
    dispatch: u32,
    e: Seq<V>,
    st: IrState<V, W>,
) -> (to: (nat, V, IrState<V, W>))
    requires
        ready(p),
        adds_up(m),
        checkable(m, p),
        numbers(m, p.frame.addr_ty, p.frame.bit_ty),
        0 <= i < p.blocks.len(),
        0 <= a < arms(p.blocks[i].terminator).len(),
        arms(p.blocks[i].terminator)[a].args.len() == vals.len(),
        0 <= x < virtual_blocks(p).len(),
        ({
            let b = p.blocks[i];
            let arm = arms(b.terminator)[a];
            let (env, s0) = run_stmts(m, pre, xargs, xst);
            &&& ends_branch(p, i, a, virtual_blocks(p)[x], pre, env.len(), vals, v, all, dispatch)
            &&& !(arm.dest is Dyn) ==> finds_nothing(m, p, i, a, xargs, xst, pre, vals, all)
            &&& env.len() > 0
            &&& env.len() + 2 * vals.len() + 2 <= u32::MAX
            &&& (m.number)(env[0]) == i
            &&& beside_table(m, st, s0, p)
            &&& forall|k: int|
                0 <= k < vals.len() ==> (#[trigger] vals[k]).0 < env.len() && at(vals[k], env) == at(
                    arm.args[k],
                    e,
                )
            &&& arm.dest matches IRBlockTargetId::Dyn(w) ==> v.0 < env.len() && at(v, env) == at(
                w,
                e,
            )
            &&& p.frame.direct && !(arm.dest is Dyn) ==> dispatch < virtual_blocks(p).len()
                && virtual_blocks(p)[dispatch as int] == dispatch_block(
                p.keys.len(),
                p.frame.bytecode,
                p.frame.addr_ty,
                p.frame.first_handler(),
            )
        }),
    ensures
        forall|fuel: nat| #[trigger]
            reaches(
                m,
                p,
                x,
                xargs,
                xst,
                follow(m, p.blocks[i], arms(p.blocks[i].terminator)[a], e),
                st,
                to,
                fuel,
            ),
{
    lemma_bounds(p);
    let b = p.blocks[i];
    let arm = arms(b.terminator)[a];
    let f = row_frame(p, i);
    let n = arm.args.len();
    let tys = var_types(b, arm.args);
    let next = at_all(arm.args, e);
    let (env, s0) = run_stmts(m, pre, xargs, xst);
    let writes = arm_writes(f, env.len(), arm_start(b, a), vals, tys, n);
    lemma_arm_writes(m, p, i, a, env, vals, n, st, s0);
    lemma_run_both(m, pre, writes, xargs, xst);
    let (env2, s2) = run_stmts(m, pre + writes, xargs, xst);
    assert(in_registers(s2.cells, f, tys, next)) by {
        assert forall|k: int| 0 <= k < tys.len() implies #[trigger] next[k] == (s2.cells)(
            f.reg(tys[k]),
            tys[k],
            register_index(tys, k) as nat,
        ) by {
            assert((s2.cells)(f.reg(tys[k]), tys[k], register_index(tys, k) as nat) == at(
                vals[k],
                env,
            ));
            assert(vals[k].0 < env.len());
        }
    }
    lemma_typed(p, i, a);
    assert(env2[0] == env[0]);
    let exit = follow(m, b, arm, e);
    match arm.dest {
        IRBlockTargetId::Block(t) => {
            let env3 = run_stmts(m, all.0, xargs, xst).0;
            let to = (cost(p), exit_pc(m, p, arm, all.2, env3), s2);
            assert forall|fuel: nat| #[trigger]
                reaches(m, p, x, xargs, xst, exit, st, to, fuel) by {
                lemma_exit(m, p, i, a, x, xargs, xst, all.0, all.2, dispatch, next, fuel);
            }
            to
        },
        IRBlockTargetId::Return => {
            let to = (cost(p), m.unit, s2);
            assert forall|fuel: nat| #[trigger]
                reaches(m, p, x, xargs, xst, exit, st, to, fuel) by {
                lemma_exit(m, p, i, a, x, xargs, xst, all.0, all.2, dispatch, next, fuel);
            }
            to
        },
        IRBlockTargetId::Dyn(w) => {
            let t = (m.number)(at(w, e));
            assert(env2[v.0 as int] == env[v.0 as int]);
            let ty = var_type(b, w)->0;
            let to = (cost(p), (m.transmute)(ty, p.frame.addr_ty, at(v, env2)), s2);
            assert forall|fuel: nat| #[trigger]
                reaches(m, p, x, xargs, xst, exit, st, to, fuel) by {
                if t < p.blocks.len() && p.blocks[t as int].params == tys {
                    lemma_dyn_exit(
                        m,
                        p,
                        i,
                        t as int,
                        x,
                        xargs,
                        xst,
                        pre + writes,
                        v,
                        ty,
                        fuel,
                    );
                }
            }
            to
        },
    }
}

/// Where the blocks of branch `a` stand among those of the first `n`.
proof fn lemma_branch_among(f: Frame, key: IRBlockView, n: int, a: int, checked: bool, first: nat)
    requires
        0 <= a < n <= arms(key.terminator).len(),
    ensures
        ({
            let all = arms_blocks(f, key, n, checked, first);
            let at = arms_blocks(f, key, a, checked, first).len() as int;
            let own = arm_blocks(f, key, a, checked, (first + at) as nat);
            &&& at + own.len() <= all.len()
            &&& forall|j: int| 0 <= j < own.len() ==> all[at + j] == #[trigger] own[j]
        }),
    decreases n,
{
    if a < n - 1 {
        lemma_branch_among(f, key, n - 1, a, checked, first);
    }
}

/// What a variable that has a value holds in the body of a handler.
proof fn lemma_body_var<V>(
    f: Frame,
    key: IRBlockView,
    v: IRVarId,
    e: Seq<V>,
    e2: Seq<V>,
)
    requires
        var_type(key, v) is Some,
        key.var_space() < u32::MAX,
        2 * key.params.len() + 3 * key.stmts.len() + 1 < u32::MAX,
        renames(
            scope(key, key.stmts.len() as int),
            handler_body(f, key, key.stmts.len() as int).vars,
            e,
            e2,
        ),
    ensures
        ({
            let body = handler_body(f, key, key.stmts.len() as int);
            &&& v.0 < body.vars.len()
            &&& body.vars[v.0 as int].0 <= body.stmts.len()
            &&& at(body.vars[v.0 as int], e2) == at(v, e)
        }),
{
    let n = key.stmts.len() as int;
    lemma_body(f, key, n);
    let sc = scope(key, n);
    assert(sc[v.0 as int] == v);
    assert(var_mapped(v, sc));
}

/// What is known of a branch of the key of a block.
proof fn lemma_key_branch<H: IrHashAlgorithm>(p: IrPlan<H>, i: int, a: int)
    requires
        ready(p),
        0 <= i < p.blocks.len(),
        0 <= a < arms(p.blocks[i].terminator).len(),
    ensures
        ({
            let b = p.blocks[i];
            let key = ir_key(b);
            let arm = arms(b.terminator)[a];
            &&& a < arms(key.terminator).len()
            &&& arms(key.terminator)[a] == canon_branch(arm)
            &&& arm_start(key, a) == arm_start(b, a)
            &&& var_types(key, arm.args) == var_types(b, arm.args)
            &&& forall|k: int|
                0 <= k < arm.args.len() ==> var_type(key, #[trigger] arm.args[k]) is Some
            &&& arm.dest matches IRBlockTargetId::Dyn(v) ==> var_type(key, v) is Some
            &&& arm.args.len() + 2 <= arms_width(arms(key.terminator))
        }),
{
    let b = p.blocks[i];
    let key = ir_key(b);
    let arm = arms(b.terminator)[a];
    lemma_key_like(p, i);
    lemma_key_slots(b, p.frame.addr_ty, p.frame.bit_ty);
    assert(arms(key.terminator)[a] == canon_branch(arm));
    assert(vars_typed(key, arms(key.terminator)[a].args));
    assert(var_types(key, arm.args) =~= var_types(b, arm.args)) by {
        assert forall|k: int| 0 <= k < arm.args.len() implies var_types(key, arm.args)[k]
            == var_types(b, arm.args)[k] by {
            assert(var_type(key, arm.args[k]) == var_type(b, arm.args[k]));
        }
    }
    crate::virt::schema::lemma_arms_width_take(arms(key.terminator), a + 1, a + 1);
    assert(arms(key.terminator).take(a + 1).drop_last() =~= arms(key.terminator).take(a));
}

/// The handler of a block that jumps.
#[verifier::rlimit(90)]
proof fn lemma_jump_handled<V, W, H: IrHashAlgorithm>(
    m: Machine<V, W>,
    p: IrPlan<H>,
    i: int,
    pc: V,
    e: Seq<V>,
    st: IrState<V, W>,
    st2: IrState<V, W>,
) -> (to: (nat, V, IrState<V, W>))
    requires
        ready(p),
        adds_up(m),
        checkable(m, p),
        numbers(m, p.frame.addr_ty, p.frame.bit_ty),
        0 <= i < p.blocks.len(),
        p.blocks[i].terminator is Jmp,
        (m.number)(pc) == i,
        in_step(
            m,
            p,
            i,
            p.blocks[i].stmts.len(),
            pc,
            (e, st),
            run_stmts(
                m,
                handler_body(
                    row_frame(p, i),
                    ir_key(p.blocks[i]),
                    p.blocks[i].stmts.len() as int,
                ).stmts,
                seq![pc],
                st2,
            ),
        ),
    ensures
        forall|fuel: nat| #[trigger]
            reaches(
                m,
                p,
                p.frame.first_handler() + plan_rows(p)[i] as int,
                seq![pc],
                st2,
                leave(m, p.blocks[i], e),
                st,
                to,
                fuel,
            ),
{
    lemma_bounds(p);
    let b = p.blocks[i];
    let key = ir_key(b);
    let f = row_frame(p, i);
    let h = plan_rows(p)[i] as int;
    lemma_row(p, i);
    lemma_places(p, h);
    lemma_key_like(p, i);
    lemma_key_branch(p, i, 0);
    let arm = arms(b.terminator)[0];
    let n = key.stmts.len() as int;
    let body = handler_body(f, key, n);
    let (env, s0) = run_stmts(m, body.stmts, seq![pc], st2);
    let vals = renamed_vars(arm.args, body.vars);
    lemma_body(f, key, n);
    assert forall|k: int| 0 <= k < vals.len() implies (#[trigger] vals[k]).0 < env.len() && at(
        vals[k],
        env,
    ) == at(arm.args[k], e) by {
        assert(var_type(key, arm.args[k]) is Some);
        lemma_body_var(f, key, arm.args[k], e, env);
    }
    let x = p.frame.first_handler() + h;
    let first = extras_at(p, h);
    let own = handler_at(p, h);
    lemma_settled(p, h);
    lemma_key_slots(b, p.frame.addr_ty, p.frame.bit_ty);
    let target = canon_branch(arm);
    assert(key.terminator == (TermView::Jmp { target }));
    assert(own == jump_handler(f, key, target, p.check, p.types, first)) by {
        reveal(handler);
    }
    let writes = arm_writes(f, env.len(), arm_start(b, 0), vals, var_types(b, arm.args), arm.args.len());
    crate::virt::handler::lemma_arm_writes_len(
        f,
        env.len(),
        arm_start(b, 0),
        vals,
        var_types(b, arm.args),
        arm.args.len(),
    );
    let v = match arm.dest {
        IRBlockTargetId::Dyn(w) => body.vars[w.0 as int],
        _ => IRVarId(0),
    };
    if arm.dest is Dyn {
        lemma_body_var(f, key, arm.dest->Dyn_0, e, env);
        assert(var_type(key, arm.dest->Dyn_0) == var_type(b, arm.dest->Dyn_0));
    } else if p.frame.direct {
        assert(own.extras.len() == 1);
        assert(virtual_blocks(p)[extras_at(p, h) + 0int] == own.extras[0]);
    }
    let stmts = body.stmts + writes;
    let (e2, d) = checked(p, i, stmts);
    let all = (e2.block.stmts, e2.block.var_space(), d);
    lemma_arm_writes(m, p, i, 0, env, vals, arm.args.len(), st, s0);
    lemma_run_both(m, body.stmts, writes, seq![pc], st2);
    lemma_checked(m, p, i, stmts, pc, st2);
    assert(ends_branch(p, i, 0, own.block, body.stmts, env.len(), vals, v, all, first as u32));
    assert(finds_nothing(m, p, i, 0, seq![pc], st2, body.stmts, vals, all)) by {
        let env3 = run_stmts(m, all.0, seq![pc], st2).0;
        assert(env3[0] == run_stmts(m, stmts, seq![pc], st2).0[0]);
    }
    lemma_branch(
        m,
        p,
        i,
        0,
        x,
        seq![pc],
        st2,
        body.stmts,
        vals,
        v,
        all,
        first as u32,
        e,
        st,
    )
}

/// The block of a handler that decides goes to the block of the branch that the
/// program takes.
#[verifier::rlimit(90)]
proof fn lemma_decides<V, W, H: IrHashAlgorithm>(
    m: Machine<V, W>,
    p: IrPlan<H>,
    i: int,
    pc: V,
    e: Seq<V>,
    env: Seq<V>,
    a: int,
)
    requires
        ready(p),
        checkable(m, p),
        0 <= i < p.blocks.len(),
        !(p.blocks[i].terminator is Jmp),
        renames(
            scope(ir_key(p.blocks[i]), p.blocks[i].stmts.len() as int),
            handler_body(
                row_frame(p, i),
                ir_key(p.blocks[i]),
                p.blocks[i].stmts.len() as int,
            ).vars,
            e,
            env,
        ),
        taken(m, p.blocks[i].terminator, e) == Some(a),
    ensures
        ({
            let b = p.blocks[i];
            let key = ir_key(b);
            let f = row_frame(p, i);
            let h = plan_rows(p)[i] as int;
            let body = handler_body(f, key, key.stmts.len() as int);
            let own = handler_at(p, h);
            let (e2, d) = checked(p, i, body.stmts);
            &&& 0 <= a < arms(b.terminator).len()
            &&& own.block.stmts == e2.block.stmts
            &&& own.extras == arms_blocks(
                f,
                key,
                arms(b.terminator).len() as int,
                p.check is Some,
                extras_at(p, h),
            )
            &&& leave(m, own.block, env) == Exit::Block(
                IRBlockId(arm_bid(f, key, a, p.check is Some, extras_at(p, h))),
                at_all(call_args(canon_branch(arms(b.terminator)[a]), body.vars, d), env),
            )
        }),
{
    lemma_bounds(p);
    let b = p.blocks[i];
    let key = ir_key(b);
    let f = row_frame(p, i);
    let h = plan_rows(p)[i] as int;
    lemma_row(p, i);
    lemma_key_like(p, i);
    lemma_key_slots(b, p.frame.addr_ty, p.frame.bit_ty);
    let n = key.stmts.len() as int;
    let body = handler_body(f, key, n);
    let own = handler_at(p, h);
    let first = extras_at(p, h);
    lemma_settled(p, h);
    reveal(handler);
    match b.terminator {
        TermView::JumpCond { condition, then_target, else_target } => {
            assert(var_type(key, condition) is Some);
            lemma_body_var(f, key, condition, e, env);
            assert(arms(b.terminator)[a] == (if a == 0 {
                then_target
            } else {
                else_target
            }));
        },
        TermView::JumpTable { index, cases } => {
            assert(var_type(key, index) is Some);
            lemma_body_var(f, key, index, e, env);
            let cases2 = own.block.terminator->cases;
            lemma_same_case(cases, cases2, (m.number)(at(index, e)));
            assert(arms(b.terminator)[a] == cases[a].1);
            assert(arms(own.block.terminator)[a] == cases2[a].1);
        },
        _ => {},
    }
}

/// What variables hold in the body of a handler, they hold behind the check.
proof fn lemma_renames_checked<V, W, H: IrHashAlgorithm>(
    m: Machine<V, W>,
    p: IrPlan<H>,
    i: int,
    e: Seq<V>,
    env0: Seq<V>,
    env: Seq<V>,
)
    requires
        ready(p),
        0 <= i < p.blocks.len(),
        ({
            let key = ir_key(p.blocks[i]);
            let n = key.stmts.len() as int;
            let body = handler_body(row_frame(p, i), key, n);
            &&& renames(scope(key, n), body.vars, e, env0)
            &&& env0.len() == 1 + body.stmts.len()
        }),
        forall|j: int| 0 <= j < env0.len() ==> #[trigger] env[j] == env0[j],
    ensures
        ({
            let key = ir_key(p.blocks[i]);
            let n = key.stmts.len() as int;
            renames(scope(key, n), handler_body(row_frame(p, i), key, n).vars, e, env)
        }),
{
    let key = ir_key(p.blocks[i]);
    let n = key.stmts.len() as int;
    let f = row_frame(p, i);
    let body = handler_body(f, key, n);
    lemma_key_like(p, i);
    assert forall|v: IRVarId| #[trigger] var_mapped(v, scope(key, n)) implies v.0
        < body.vars.len() && at(v, e) == at(renamed_var(v, body.vars), env) by {
        assert(var_type(key, v) is Some);
        lemma_body_var(f, key, v, e, env0);
        let w = body.vars[v.0 as int];
        assert(env[w.0 as int] == env0[w.0 as int]);
    }
}

/// What the block of the branch that a handler decides for leads to.
#[verifier::rlimit(100)]
proof fn lemma_chosen<V, W, H: IrHashAlgorithm>(
    m: Machine<V, W>,
    p: IrPlan<H>,
    i: int,
    pc: V,
    e: Seq<V>,
    st: IrState<V, W>,
    env: Seq<V>,
    s0: IrState<V, W>,
    d: Option<IRVarId>,
    a: int,
) -> (to: (nat, V, IrState<V, W>))
    requires
        ready(p),
        adds_up(m),
        checkable(m, p),
        numbers(m, p.frame.addr_ty, p.frame.bit_ty),
        0 <= i < p.blocks.len(),
        !(p.blocks[i].terminator is Jmp),
        0 <= a < arms(p.blocks[i].terminator).len(),
        (m.number)(pc) == i,
        env.len() > 0,
        env[0] == pc,
        beside_table(m, st, s0, p),
        d is Some == p.check is Some,
        d matches Some(v) ==> v.0 < env.len() && (m.number)(at(v, env)) == 0,
        handler_at(p, plan_rows(p)[i] as int).extras == arms_blocks(
            row_frame(p, i),
            ir_key(p.blocks[i]),
            arms(p.blocks[i].terminator).len() as int,
            p.check is Some,
            extras_at(p, plan_rows(p)[i] as int),
        ),
        ({
            let key = ir_key(p.blocks[i]);
            let n = key.stmts.len() as int;
            renames(scope(key, n), handler_body(row_frame(p, i), key, n).vars, e, env)
        }),
    ensures
        ({
            let key = ir_key(p.blocks[i]);
            let f = row_frame(p, i);
            let h = plan_rows(p)[i] as int;
            let body = handler_body(f, key, key.stmts.len() as int);
            let arm = arms(p.blocks[i].terminator)[a];
            let x = arm_bid(f, key, a, p.check is Some, extras_at(p, h));
            let xargs = at_all(call_args(canon_branch(arm), body.vars, d), env);
            forall|fuel: nat| #[trigger]
                reaches(
                    m,
                    p,
                    x as int,
                    xargs,
                    s0,
                    follow(m, p.blocks[i], arm, e),
                    st,
                    to,
                    fuel,
                )
        }),
{
    lemma_bounds(p);
    let b = p.blocks[i];
    let key = ir_key(b);
    let f = row_frame(p, i);
    let h = plan_rows(p)[i] as int;
    let vb = virtual_blocks(p);
    lemma_row(p, i);
    lemma_places(p, h);
    lemma_key_like(p, i);
    lemma_key_branch(p, i, a);
    let body = handler_body(f, key, key.stmts.len() as int);
    let is_checked = p.check is Some;
    let arm = arms(b.terminator)[a];
    let karm = canon_branch(arm);
    let own = handler_at(p, h);
    let first = extras_at(p, h);
    let count = arms(b.terminator).len() as int;
    lemma_key_slots(b, p.frame.addr_ty, p.frame.bit_ty);
    lemma_branch_among(f, key, count, a, is_checked, first);
    let off = arms_blocks(f, key, a, is_checked, first).len() as int;
    let bid = (first + off) as nat;
    let mine = arm_blocks(f, key, a, is_checked, bid);
    assert(own.extras[off + 0] == mine[0]);
    let x = extras_at(p, h) + off;
    assert(vb[extras_at(p, h) + (off + 0)] == own.extras[off + 0]);
    assert(arm_bid(f, key, a, is_checked, first) == x);
    let args = call_args(karm, body.vars, d);
    let xargs = at_all(args, env);
    let tys = var_types(b, arm.args);
    let width = (if arm.dest is Dyn || is_checked {
        2int
    } else {
        1
    });
    let vals = Seq::new(tys.len(), |k: int| IRVarId((width + k) as u32));
    assert(args[0] == pc_var());
    assert(xargs[0] == pc);
    assert forall|k: int| 0 <= k < vals.len() implies (#[trigger] vals[k]).0 < xargs.len() && at(
        vals[k],
        xargs,
    ) == at(arm.args[k], e) by {
        assert(var_type(key, arm.args[k]) is Some);
        lemma_body_var(f, key, arm.args[k], e, env);
        assert(args[width + k] == body.vars[arm.args[k].0 as int]);
        assert(xargs[width + k] == at(args[width + k], env));
    }
    let none = Seq::<StmtView>::empty();
    assert(run_stmts(m, none, xargs, s0) == (xargs, s0));
    let writes = arm_writes(f, xargs.len(), arm_start(b, a), vals, tys, arm.args.len());
    assert(none + writes =~= writes);
    let diff = if is_checked {
        Some(IRVarId(1))
    } else {
        None
    };
    let all = (writes, xargs.len() + 2 * arm.args.len(), diff);
    crate::virt::handler::lemma_arm_writes_len(
        f,
        xargs.len(),
        arm_start(b, a),
        vals,
        tys,
        arm.args.len(),
    );
    if arm.dest is Dyn {
        let w = arm.dest->Dyn_0;
        lemma_body_var(f, key, w, e, env);
        assert(args[1] == body.vars[w.0 as int]);
        assert(xargs[1] == at(args[1], env));
        assert(var_type(key, w) == var_type(b, w));
        assert(vb[x] == dyn_arm_block(f, arm_start(key, a), var_type(key, w)->0, tys));
        let vals2 = Seq::new(tys.len(), |k: int| IRVarId((2 + k) as u32));
        assert(vals =~= vals2);
    } else {
        assert(vb[x] == arm_block(f, arm_start(key, a), tys, is_checked, (bid + 1) as u32));
        let head = if is_checked {
            seq![f.addr_ty, f.addr_ty]
        } else {
            seq![f.addr_ty]
        };
        let vals2 = Seq::new(tys.len(), |k: int| IRVarId((head.len() + k) as u32));
        assert(vals =~= vals2);
        if is_checked {
            assert(args[1] == d->0);
            assert(xargs[1] == at(args[1], env));
        }
        if p.frame.direct {
            assert(own.extras[off + 1] == mine[1]);
            assert(vb[extras_at(p, h) + (off + 1)] == own.extras[off + 1]);
        }
        assert(finds_nothing(m, p, i, a, xargs, s0, none, vals, all)) by {
            lemma_run_length(m, writes, xargs, s0);
            let env3 = run_stmts(m, writes, xargs, s0).0;
            assert(env3[0] == xargs[0]);
            if is_checked {
                assert(env3[1] == xargs[1]);
            }
        }
    }
    assert(ends_branch(
        p,
        i,
        a,
        vb[x],
        none,
        xargs.len(),
        vals,
        IRVarId(1),
        all,
        (bid + 1) as u32,
    ));
    lemma_branch(
        m,
        p,
        i,
        a,
        x,
        xargs,
        s0,
        none,
        vals,
        IRVarId(1),
        all,
        (bid + 1) as u32,
        e,
        st,
    )
}

/// The handler of a block that decides.
#[verifier::rlimit(90)]
proof fn lemma_choice_handled<V, W, H: IrHashAlgorithm>(
    m: Machine<V, W>,
    p: IrPlan<H>,
    i: int,
    pc: V,
    e: Seq<V>,
    st: IrState<V, W>,
    st2: IrState<V, W>,
    a: int,
) -> (to: (nat, V, IrState<V, W>))
    requires
        ready(p),
        adds_up(m),
        checkable(m, p),
        numbers(m, p.frame.addr_ty, p.frame.bit_ty),
        0 <= i < p.blocks.len(),
        !(p.blocks[i].terminator is Jmp),
        taken(m, p.blocks[i].terminator, e) == Some(a),
        (m.number)(pc) == i,
        in_step(
            m,
            p,
            i,
            p.blocks[i].stmts.len(),
            pc,
            (e, st),
            run_stmts(
                m,
                handler_body(
                    row_frame(p, i),
                    ir_key(p.blocks[i]),
                    p.blocks[i].stmts.len() as int,
                ).stmts,
                seq![pc],
                st2,
            ),
        ),
    ensures
        forall|fuel: nat| #[trigger]
            reaches(
                m,
                p,
                p.frame.first_handler() + plan_rows(p)[i] as int,
                seq![pc],
                st2,
                leave(m, p.blocks[i], e),
                st,
                to,
                fuel,
            ),
{
    lemma_bounds(p);
    let b = p.blocks[i];
    let key = ir_key(b);
    let f = row_frame(p, i);
    let h = plan_rows(p)[i] as int;
    let vb = virtual_blocks(p);
    lemma_row(p, i);
    lemma_places(p, h);
    lemma_key_like(p, i);
    let n = key.stmts.len() as int;
    let body = handler_body(f, key, n);
    let (env0, s0) = run_stmts(m, body.stmts, seq![pc], st2);
    lemma_body(f, key, n);
    lemma_checked(m, p, i, body.stmts, pc, st2);
    let (e2, d) = checked(p, i, body.stmts);
    let env = run_stmts(m, e2.block.stmts, seq![pc], st2).0;
    assert(env[0] == env0[0]);
    lemma_renames_checked(m, p, i, e, env0, env);
    lemma_decides(m, p, i, pc, e, env, a);
    let to = lemma_chosen(m, p, i, pc, e, st, env, s0, d, a);
    let arm = arms(b.terminator)[a];
    let x = arm_bid(f, key, a, p.check is Some, extras_at(p, h));
    let xargs = at_all(call_args(canon_branch(arm), body.vars, d), env);
    let exit = leave(m, b, e);
    let to2 = (to.0 + 1, to.1, to.2);
    let start = p.frame.first_handler() + h;
    assert forall|fuel: nat| #[trigger]
        reaches(m, p, start, seq![pc], st2, exit, st, to2, fuel) by {
        assert(reaches(m, p, x as int, xargs, s0, exit, st, to, fuel));
        lemma_one(m, vb, start, seq![pc], st2, IRBlockId(x), xargs, s0, fuel + to.0);
        assert(fuel + to2.0 == (fuel + to.0) + 1);
    }
    to2
}

/// What a program returns from block `i` on, the virtual one returns from the
/// handler of the block on.
pub proof fn lemma_simulates<V, W, H: IrHashAlgorithm>(
    m: Machine<V, W>,
    p: IrPlan<H>,
    i: int,
    pc: V,
    args: Seq<V>,
    st: IrState<V, W>,
    st2: IrState<V, W>,
    fuel: nat,
) -> (d: nat)
    requires
        ready(p),
        adds_up(m),
        checkable(m, p),
        numbers(m, p.frame.addr_ty, p.frame.bit_ty),
        0 <= i < p.blocks.len(),
        (m.number)(pc) == i,
        in_registers(st2.cells, row_frame(p, i), p.blocks[i].params, args),
        beside_table(m, st, st2, p),
        run(m, p.blocks, i, args, st, fuel) is Some,
    ensures
        ({
            let want = run(m, p.blocks, i, args, st, fuel)->0;
            let got = run(
                m,
                virtual_blocks(p),
                p.frame.first_handler() + plan_rows(p)[i] as int,
                seq![pc],
                st2,
                d,
            );
            got matches Some((vals, s)) && vals == want.0 && s.world == want.1.world
        }),
    decreases fuel, 1nat,
{
    let b = p.blocks[i];
    let len = b.stmts.len();
    lemma_handler_body(m, p, i, len, pc, args, st, st2);
    assert(b.stmts.take(len as int) =~= b.stmts);
    let (e, s) = run_stmts(m, b.stmts, args, st);
    let exit = leave(m, b, e);
    assert(run_block(m, b, args, st) == (exit, s));
    let x = p.frame.first_handler() + plan_rows(p)[i] as int;
    if b.terminator is Jmp {
        let to = lemma_jump_handled(m, p, i, pc, e, s, st2);
        lemma_goes_on(m, p, x, pc, st2, exit, s, to, i, args, st, fuel)
    } else {
        let a = taken(m, b.terminator, e)->0;
        let to = lemma_choice_handled(m, p, i, pc, e, s, st2, a);
        lemma_goes_on(m, p, x, pc, st2, exit, s, to, i, args, st, fuel)
    }
}

/// From the handler of a block on to the end.
proof fn lemma_goes_on<V, W, H: IrHashAlgorithm>(
    m: Machine<V, W>,
    p: IrPlan<H>,
    x: int,
    pc: V,
    st2: IrState<V, W>,
    exit: Exit<V>,
    s: IrState<V, W>,
    to: (nat, V, IrState<V, W>),
    i: int,
    args: Seq<V>,
    st: IrState<V, W>,
    fuel: nat,
) -> (d: nat)
    requires
        ready(p),
        adds_up(m),
        checkable(m, p),
        numbers(m, p.frame.addr_ty, p.frame.bit_ty),
        0 <= i < p.blocks.len(),
        x == p.frame.first_handler() + plan_rows(p)[i] as int,
        run_block(m, p.blocks[i], args, st) == (exit, s),
        run(m, p.blocks, i, args, st, fuel) is Some,
        forall|k: nat| #[trigger] reaches(m, p, x, seq![pc], st2, exit, s, to, k),
    ensures
        ({
            let want = run(m, p.blocks, i, args, st, fuel)->0;
            let got = run(m, virtual_blocks(p), x, seq![pc], st2, d);
            got matches Some((vals, s)) && vals == want.0 && s.world == want.1.world
        }),
    decreases fuel, 0nat,
{
    let less = (fuel - 1) as nat;
    match exit {
        Exit::Return(vals) => {
            assert(reaches(m, p, x, seq![pc], st2, exit, s, to, 0));
            0 + to.0
        },
        Exit::Block(t, next) => {
            assert(reaches(m, p, x, seq![pc], st2, exit, s, to, 0));
            let rest = lemma_simulates(m, p, t.0 as int, to.1, next, s, to.2, less);
            assert(reaches(m, p, x, seq![pc], st2, exit, s, to, rest));
            rest + to.0
        },
        Exit::Dynamic(t, tys, next) => {
            assert(reaches(m, p, x, seq![pc], st2, exit, s, to, 0));
            let rest = lemma_simulates(m, p, t as int, to.1, next, s, to.2, less);
            assert(reaches(m, p, x, seq![pc], st2, exit, s, to, rest));
            rest + to.0
        },
        Exit::Nowhere => { 0 },
    }
}

} // verus!
