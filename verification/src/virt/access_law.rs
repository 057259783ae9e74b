//! Virtualised modules keep to the storage access that they declare.

use vstd::prelude::*;

use crate::common::{Constant, IrTypeView, PreInitView, StorageAccess, StorageId, StorageTable};
use crate::boolar::{BIrBlockView, BIrBlocks, BIrStmtView};
use crate::ir::{IRBlockTargetId, IRBlockView, IRBlocks, IRTypeId, IRVarId, StmtView, TermView};
use crate::virt::adaptive_emit::{adaptive_plan, lemma_split_rows, split_rows};
use crate::virt::bir::{
    bir_block_keys, bir_generated_access, bir_handler, bir_module, bir_plan, bir_ready,
    bir_setup_block, bir_storage, bir_written, dispatcher_nodes, first_slot, handler_vars,
    is_handler, leaves_table, n_targets, virtualizes_bir, BirFrame,
};
use crate::virt::canon::{bir_key, ir_key, zero_constant};
use crate::virt::config::VirtualizeConfig;
use crate::virt::cse::{
    bir_merged_prefix, merged_bir_block, merged_block, merged_prefix, reads_in_range,
};
use crate::virt::ctx::{
    bir_blocks_violation, bir_stmt_violation, bir_stmts_violation, blocks_violation, distinct,
    law_distinct, stmt_violation, stmts_violation, VirtOutput,
};
use crate::virt::emit::{pc_var, return_reads};
use crate::virt::handler::{
    arm_block, arm_blocks, arm_writes, arms_blocks, check_row, check_row_if, draft, dyn_exit,
    exit_reads, handler, handler_body, jump_handler, key_reads, param_reads, scoped, slot_reads,
    typed_in, Check, Frame,
};
use crate::virt::hash::{CommitmentConfig, EmitterView, IrHashAlgorithm};
use crate::virt::hash_sip::{
    absorb_ir, bits_of, block_ir, compress_ir, finish_ir, init_ir, ripple, rotated, round_ir,
    rounds_ir, sum64, sum_of, sum_with, u64_view, SipHash48, SipVars,
};
use crate::virt::hash_xor::{fold_steps, u32_view, XorFoldHash32};
use crate::virt::ir::{
    block_keys, emits, generated_access, has_regions, key_storage_of, merged_blocks, plan_lane,
    plan_ready, plan_rows, plan_storage, virtualizable, virtualized, IrPlan,
};
use crate::virt::ir_law::output_plan;
use crate::virt::ir_sim::{in_table, keeps_off, touched};
use crate::virt::module::{
    entry_writes, handlers, key_params, key_writes, module_blocks, module_head, setup_block,
    setup_key_writes, ModuleFrame,
};
use crate::virt::pieces::{lemma_next, next_row, piece, pieces, row_in, rows_in, Row};
use crate::virt::preinit::{handler_lanes, table_lanes, table_values, with_lane};
use crate::virt::regs::{arms, register_storage, var_type, var_types};
use crate::virt::remap::{renamed_bir_stmt, renamed_stmt, renamed_vars};
use crate::virt::schema::{arm_start, handler_slots, lemma_slots_width_take, slots_width, HandlerSlot};
use crate::virt::split::split_view;

verus! {

// ---------------------------------------------------------------------------
// Statements
// ---------------------------------------------------------------------------

/// Whether no statement writes a storage that is declared read-only.
pub open spec fn respects(s: Seq<StmtView>, t: StorageTable) -> bool {
    forall|k: int| 0 <= k < s.len() ==> stmt_violation(#[trigger] s[k], t) is None
}

/// Whether no block does.
pub open spec fn all_respect(b: Seq<IRBlockView>, t: StorageTable) -> bool {
    forall|i: int| 0 <= i < b.len() ==> respects((#[trigger] b[i]).stmts, t)
}

/// A list has no offending statement exactly when there is no first one.
proof fn lemma_stmts_violation(s: Seq<StmtView>, t: StorageTable)
    ensures
        respects(s, t) <==> stmts_violation(s, t) is None,
    decreases s.len(),
{
    if s.len() > 0 {
        let rest = s.drop_first();
        lemma_stmts_violation(rest, t);
        if stmts_violation(s, t) is None {
            assert forall|k: int| 0 <= k < s.len() implies stmt_violation(
                #[trigger] s[k],
                t,
            ) is None by {
                if k > 0 {
                    assert(rest[k - 1] == s[k]);
                }
            }
        }
    }
}

/// A list has no offending block exactly when there is no first one.
proof fn lemma_blocks_violation(b: Seq<IRBlockView>, t: StorageTable)
    ensures
        all_respect(b, t) <==> blocks_violation(b, t) is None,
    decreases b.len(),
{
    if b.len() > 0 {
        let rest = b.drop_first();
        lemma_blocks_violation(rest, t);
        lemma_stmts_violation(b[0].stmts, t);
        if blocks_violation(b, t) is None {
            assert forall|i: int| 0 <= i < b.len() implies respects((#[trigger] b[i]).stmts, t) by {
                if i > 0 {
                    assert(rest[i - 1] == b[i]);
                }
            }
        }
    }
}

/// Two lists one behind the other.
proof fn lemma_both(a: Seq<StmtView>, b: Seq<StmtView>, t: StorageTable)
    requires
        respects(a, t),
        respects(b, t),
    ensures
        respects(a + b, t),
{
    assert forall|k: int| 0 <= k < (a + b).len() implies stmt_violation(
        #[trigger] (a + b)[k],
        t,
    ) is None by {
        if k < a.len() {
            assert((a + b)[k] == a[k]);
        } else {
            assert((a + b)[k] == b[k - a.len()]);
        }
    }
}

/// Two lists of blocks one behind the other.
proof fn lemma_both_blocks(a: Seq<IRBlockView>, b: Seq<IRBlockView>, t: StorageTable)
    requires
        all_respect(a, t),
        all_respect(b, t),
    ensures
        all_respect(a + b, t),
{
    assert forall|k: int| 0 <= k < (a + b).len() implies respects(
        (#[trigger] (a + b)[k]).stmts,
        t,
    ) by {
        if k < a.len() {
            assert((a + b)[k] == a[k]);
        } else {
            assert((a + b)[k] == b[k - a.len()]);
        }
    }
}

/// Merging oracle calls adds no write.
proof fn lemma_merged_respects(b: IRBlockView, n: int, t: StorageTable)
    requires
        respects(b.stmts, t),
        n <= b.stmts.len(),
    ensures
        respects(merged_prefix(b, n).stmts, t),
    decreases n,
{
    if n > 0 {
        lemma_merged_respects(b, n - 1, t);
        let p = merged_prefix(b, n - 1);
        let x = b.stmts[n - 1];
        assert(stmt_violation(x, t) is None);
        assert(stmt_violation(renamed_stmt(x, p.names), t) is None);
    }
}

/// Cutting blocks adds no write.
proof fn lemma_pieces_respect(blocks: Seq<IRBlockView>, rows: Seq<Row>, t: StorageTable)
    requires
        rows_in(rows, blocks),
        all_respect(blocks, t),
    ensures
        all_respect(pieces(blocks, rows), t),
{
    let ps = pieces(blocks, rows);
    assert forall|k: int| 0 <= k < ps.len() implies respects((#[trigger] ps[k]).stmts, t) by {
        let r = rows[k];
        assert(ps[k] == piece(blocks, rows, k));
        assert(row_in(r, blocks));
        let b = blocks[r.block as int];
        lemma_next(rows, r, rows.len() as int);
        if let Some(j) = next_row(rows, r) {
            assert(row_in(rows[j], blocks));
        }
        assert forall|n: int| 0 <= n < ps[k].stmts.len() implies stmt_violation(
            #[trigger] ps[k].stmts[n],
            t,
        ) is None by {
            assert(ps[k].stmts[n] == b.stmts[r.start + n]);
        }
    }
}

/// Lifting constants out adds no write.
proof fn lemma_keys_respect(blocks: Seq<IRBlockView>, t: StorageTable)
    requires
        all_respect(blocks, t),
    ensures
        all_respect(distinct(block_keys(blocks)), t),
{
    let keys = block_keys(blocks);
    let all = distinct(keys);
    law_distinct(keys);
    assert forall|h: int| 0 <= h < all.len() implies respects((#[trigger] all[h]).stmts, t) by {
        assert(all.contains(all[h]));
        assert(keys.contains(all[h]));
        let i = choose|i: int| 0 <= i < keys.len() && keys[i] == all[h];
        assert(keys[i] == ir_key(blocks[i]));
        assert forall|k: int| 0 <= k < all[h].stmts.len() implies stmt_violation(
            #[trigger] all[h].stmts[k],
            t,
        ) is None by {
            assert(stmt_violation(blocks[i].stmts[k], t) is None);
        }
    }
}

// ---------------------------------------------------------------------------
// Hash algorithms
// ---------------------------------------------------------------------------

/// Whether the statements of a hash algorithm write no storage that is declared
/// read-only.
pub open spec fn writes_nothing<H: IrHashAlgorithm>(alg: H) -> bool {
    forall|
        e: EmitterView,
        key: Seq<(IRVarId, IRTypeId)>,
        words: Seq<(IRVarId, IRTypeId)>,
        t: StorageTable,
    |
        respects(e.block.stmts, t) ==> #[trigger] respects(
            alg.emission(e, key, words).0.block.stmts,
            t,
        )
}

/// The statements of the fold write nothing.
pub proof fn law_xor_fold_writes_nothing(alg: XorFoldHash32)
    ensures
        writes_nothing(alg),
{
    assert forall|
        e: EmitterView,
        key: Seq<(IRVarId, IRTypeId)>,
        words: Seq<(IRVarId, IRTypeId)>,
        t: StorageTable,
    |
        respects(e.block.stmts, t) implies #[trigger] respects(
        alg.emission(e, key, words).0.block.stmts,
        t,
    ) by {
        let ty = e.type_id(u32_view());
        let e1 = e.with_type(u32_view());
        let e2 = e1.push(StmtView::Const(Constant { hi: 0, lo: alg.seed as u128 }, ty));
        lemma_fold_respects(e2, e1.next(), words, ty, t);
    }
}

/// Folding writes nothing.
proof fn lemma_fold_respects(
    e: EmitterView,
    h: IRVarId,
    words: Seq<(IRVarId, IRTypeId)>,
    ty: IRTypeId,
    t: StorageTable,
)
    requires
        respects(e.block.stmts, t),
    ensures
        respects(fold_steps(e, h, words, ty).0.block.stmts, t),
    decreases words.len(),
{
    if words.len() > 0 {
        lemma_fold_respects(e, h, words.drop_last(), ty, t);
    }
}

/// The statements of the keyed hash write nothing.
pub proof fn law_sip_writes_nothing(alg: SipHash48)
    ensures
        writes_nothing(alg),
{
    assert forall|
        e: EmitterView,
        key: Seq<(IRVarId, IRTypeId)>,
        words: Seq<(IRVarId, IRTypeId)>,
        t: StorageTable,
    |
        respects(e.block.stmts, t) implies #[trigger] respects(
        alg.emission(e, key, words).0.block.stmts,
        t,
    ) by {
        let ty = e.type_id(u64_view());
        let (e1, v) = init_ir(e.with_type(u64_view()), key[0].0, key[1].0, ty);
        assert(respects(e1.block.stmts, t));
        let e0 = e1.push(StmtView::Const(zero_constant(), ty));
        lemma_compress_respects(e0, v, e1.next(), ty, t);
        lemma_absorb_respects(e1, v, words, words.len(), ty, t);
        let (e2, w) = if words.len() == 0 {
            compress_ir(e0, v, e1.next(), ty)
        } else {
            absorb_ir(e1, v, words, words.len(), ty)
        };
        lemma_finish_respects(e2, w, ty, t);
    }
}

/// Taking bits writes nothing.
proof fn lemma_bits_respect(e: EmitterView, a: IRVarId, n: nat, t: StorageTable)
    requires
        respects(e.block.stmts, t),
    ensures
        respects(bits_of(e, a, n).0.block.stmts, t),
    decreases n,
{
    if n > 0 {
        lemma_bits_respect(e, a, (n - 1) as nat, t);
    }
}

/// Adding bits writes nothing.
proof fn lemma_ripple_respects(
    e: EmitterView,
    a: Seq<IRVarId>,
    b: Seq<IRVarId>,
    carry: IRVarId,
    n: nat,
    t: StorageTable,
)
    requires
        respects(e.block.stmts, t),
    ensures
        respects(ripple(e, a, b, carry, n).0.block.stmts, t),
    decreases n,
{
    if n > 0 {
        lemma_ripple_respects(e, a, b, carry, (n - 1) as nat, t);
    }
}

/// Adding words writes nothing.
proof fn lemma_sum64_respects(e: EmitterView, a: IRVarId, b: IRVarId, ty: IRTypeId, t: StorageTable)
    requires
        respects(e.block.stmts, t),
    ensures
        respects(sum64(e, a, b, ty).0.block.stmts, t),
{
    let (e1, bits_a) = bits_of(e, a, 64);
    let (e2, bits_b) = bits_of(e1, b, 64);
    let e3 = e2.push(StmtView::Const(zero_constant(), e.bit_ty));
    lemma_bits_respect(e, a, 64, t);
    lemma_bits_respect(e1, b, 64, t);
    lemma_ripple_respects(e3, bits_a, bits_b, e2.next(), 64, t);
}

/// Rounds write nothing.
proof fn lemma_rounds_respect(e: EmitterView, v: SipVars, n: nat, ty: IRTypeId, t: StorageTable)
    requires
        respects(e.block.stmts, t),
    ensures
        respects(rounds_ir(e, v, n, ty).0.block.stmts, t),
    decreases n,
{
    if n > 0 {
        lemma_rounds_respect(e, v, (n - 1) as nat, ty, t);
        let (a, v) = rounds_ir(e, v, (n - 1) as nat, ty);
        reveal(round_ir);
        let (e1, w1) = sum64(a, v.v0, v.v1, ty);
        lemma_sum64_respects(a, v.v0, v.v1, ty, t);
        let (e2, w2) = rotated(e1, v.v1, 13, ty);
        let (e3, w3) = sum_of(e2, w2, w1, ty);
        let (e4, w4) = rotated(e3, w1, 32, ty);
        lemma_sum64_respects(e4, v.v2, v.v3, ty, t);
        let (e5, w5) = sum64(e4, v.v2, v.v3, ty);
        let (e6, w6) = rotated(e5, v.v3, 16, ty);
        let (e7, w7) = sum_of(e6, w6, w5, ty);
        lemma_sum64_respects(e7, w4, w7, ty, t);
        let (e8, w8) = sum64(e7, w4, w7, ty);
        let (e9, w9) = rotated(e8, w7, 21, ty);
        let (e10, w10) = sum_of(e9, w9, w8, ty);
        lemma_sum64_respects(e10, w5, w3, ty, t);
    }
}

/// Taking in a word writes nothing.
proof fn lemma_compress_respects(
    e: EmitterView,
    v: SipVars,
    x: IRVarId,
    ty: IRTypeId,
    t: StorageTable,
)
    requires
        respects(e.block.stmts, t),
    ensures
        respects(compress_ir(e, v, x, ty).0.block.stmts, t),
{
    reveal(compress_ir);
    let (e1, w3) = sum_of(e, v.v3, x, ty);
    lemma_rounds_respect(e1, SipVars { v3: w3, ..v }, 4, ty, t);
}

/// Taking in words writes nothing.
proof fn lemma_absorb_respects(
    e: EmitterView,
    v: SipVars,
    words: Seq<(IRVarId, IRTypeId)>,
    n: nat,
    ty: IRTypeId,
    t: StorageTable,
)
    requires
        respects(e.block.stmts, t),
    ensures
        respects(absorb_ir(e, v, words, n, ty).0.block.stmts, t),
    decreases n,
{
    if n > 0 {
        lemma_absorb_respects(e, v, words, (n - 1) as nat, ty, t);
        let (e1, v1) = absorb_ir(e, v, words, (n - 1) as nat, ty);
        let (e2, x) = block_ir(e1, words, n - 1, ty);
        lemma_compress_respects(e2, v1, x, ty, t);
    }
}

/// The end of the hash writes nothing.
proof fn lemma_finish_respects(e: EmitterView, v: SipVars, ty: IRTypeId, t: StorageTable)
    requires
        respects(e.block.stmts, t),
    ensures
        respects(finish_ir(e, v, ty).0.block.stmts, t),
{
    reveal(finish_ir);
    let (e1, w2) = sum_with(e, v.v2, 0xff, ty);
    lemma_rounds_respect(e1, SipVars { v2: w2, ..v }, 8, ty, t);
}

// ---------------------------------------------------------------------------
// Emitted blocks
// ---------------------------------------------------------------------------

/// Whether the registers may be written.
spec fn open_registers(file: Seq<IRTypeId>, base: u32, t: StorageTable) -> bool {
    forall|ty: IRTypeId|
        file.contains(ty) ==> t.access(#[trigger] register_storage(file, base, ty))
            != StorageAccess::ReadOnly
}

/// Whether the storage of a key may be written.
spec fn open_key<H>(check: Option<Check<H>>, t: StorageTable) -> bool {
    check matches Some(c) ==> (c.key_storage matches Some(s) ==> t.access(s)
        != StorageAccess::ReadOnly)
}

/// Fetching parameters writes nothing.
proof fn lemma_param_reads(f: Frame, params: Seq<IRTypeId>, n: nat, t: StorageTable)
    ensures
        respects(param_reads(f, params, n), t),
    decreases n,
{
    if n > 0 {
        lemma_param_reads(f, params, (n - 1) as nat, t);
    }
}

/// The statements of a key are emitted without further writes.
proof fn lemma_body_respects(f: Frame, key: IRBlockView, n: int, t: StorageTable)
    requires
        respects(key.stmts, t),
        n <= key.stmts.len(),
    ensures
        respects(handler_body(f, key, n).stmts, t),
    decreases n,
{
    if n <= 0 {
        lemma_param_reads(f, key.params, key.params.len(), t);
    } else {
        lemma_body_respects(f, key, n - 1, t);
        let b = handler_body(f, key, n - 1);
        let x = key.stmts[n - 1];
        assert(stmt_violation(x, t) is None);
        assert(stmt_violation(renamed_stmt(x, b.vars), t) is None);
    }
}

/// Arguments are written to registers.
proof fn lemma_arm_writes(
    f: Frame,
    at: nat,
    start: nat,
    vals: Seq<IRVarId>,
    tys: Seq<IRTypeId>,
    n: nat,
    t: StorageTable,
)
    requires
        open_registers(f.file, f.base, t),
        n <= tys.len(),
        forall|i: int| 0 <= i < tys.len() ==> f.file.contains(#[trigger] tys[i]),
    ensures
        respects(arm_writes(f, at, start, vals, tys, n), t),
    decreases n,
{
    if n > 0 {
        lemma_arm_writes(f, at, start, vals, tys, (n - 1) as nat, t);
        assert(f.file.contains(tys[n - 1]));
        assert(t.access(register_storage(f.file, f.base, tys[n - 1])) != StorageAccess::ReadOnly);
    }
}

/// What a branch passes on has registers.
proof fn lemma_arm_types(key: IRBlockView, file: Seq<IRTypeId>, a: int)
    requires
        typed_in(key, file),
        0 <= a < arms(key.terminator).len(),
    ensures
        ({
            let tys = var_types(key, arms(key.terminator)[a].args);
            &&& tys.len() == arms(key.terminator)[a].args.len()
            &&& forall|i: int| 0 <= i < tys.len() ==> file.contains(#[trigger] tys[i])
        }),
{
    let arm = arms(key.terminator)[a];
    let tys = var_types(key, arm.args);
    assert forall|i: int| 0 <= i < tys.len() implies file.contains(#[trigger] tys[i]) by {
        assert(file.contains(var_type(key, arms(key.terminator)[a].args[i])->0));
    }
}

/// The blocks of branches write registers only.
proof fn lemma_arms_respect(
    f: Frame,
    key: IRBlockView,
    n: int,
    checked: bool,
    first: nat,
    t: StorageTable,
)
    requires
        typed_in(key, f.file),
        open_registers(f.file, f.base, t),
        n <= arms(key.terminator).len(),
    ensures
        all_respect(arms_blocks(f, key, n, checked, first), t),
    decreases n,
{
    if n > 0 {
        lemma_arms_respect(f, key, n - 1, checked, first, t);
        let before = arms_blocks(f, key, n - 1, checked, first);
        let arm = arms(key.terminator)[n - 1];
        let tys = var_types(key, arm.args);
        let bid = first + before.len();
        let blocks = arm_blocks(f, key, n - 1, checked, bid);
        lemma_arm_types(key, f.file, n - 1);
        let start = arm_start(key, n - 1);
        match arm.dest {
            IRBlockTargetId::Dyn(v) => {
                let vals = Seq::new(tys.len(), |i: int| IRVarId((2 + i) as u32));
                lemma_arm_writes(f, 2 + tys.len(), start, vals, tys, tys.len(), t);
                let writes = arm_writes(f, 2 + tys.len(), start, vals, tys, tys.len());
                let tail = dyn_exit(f, IRVarId(1), var_type(key, v)->0);
                assert(respects(tail, t));
                lemma_both(writes, tail, t);
                assert(respects(blocks[0].stmts, t));
            },
            _ => {
                let head: nat = if checked {
                    2
                } else {
                    1
                };
                let at = head + tys.len();
                let diff = if checked {
                    Some(IRVarId(1))
                } else {
                    None
                };
                let vals = Seq::new(tys.len(), |i: int| IRVarId((head + i) as u32));
                lemma_arm_writes(f, at, start, vals, tys, tys.len(), t);
                let tail = exit_reads(f, at + 2 * tys.len(), start, diff);
                assert(respects(tail, t));
                lemma_both(arm_writes(f, at, start, vals, tys, tys.len()), tail, t);
                let block = arm_block(f, start, tys, checked, (bid + 1) as u32);
                if checked {
                    assert(seq![f.addr_ty, f.addr_ty].len() == head);
                } else {
                    assert(seq![f.addr_ty].len() == head);
                }
                assert(respects(block.stmts, t));
            },
        }
        lemma_both_blocks(before, blocks, t);
    }
}

/// Fetching key words writes nothing.
proof fn lemma_key_reads(
    e: EmitterView,
    storage: StorageId,
    key_tys: Seq<IRTypeId>,
    n: nat,
    t: StorageTable,
)
    requires
        respects(e.block.stmts, t),
    ensures
        respects(key_reads(e, storage, key_tys, n).0.block.stmts, t),
    decreases n,
{
    if n > 0 {
        lemma_key_reads(e, storage, key_tys, (n - 1) as nat, t);
    }
}

/// Fetching slots writes nothing.
proof fn lemma_slot_reads(
    f: Frame,
    e: EmitterView,
    slots: Seq<HandlerSlot>,
    n: nat,
    t: StorageTable,
)
    requires
        respects(e.block.stmts, t),
    ensures
        respects(slot_reads(f, e, slots, n).0.block.stmts, t),
    decreases n,
{
    if n > 0 {
        lemma_slot_reads(f, e, slots, (n - 1) as nat, t);
    }
}

/// Checks write nothing.
proof fn lemma_check_respects<H: IrHashAlgorithm>(
    f: Frame,
    e: EmitterView,
    slots: Seq<HandlerSlot>,
    check: Option<Check<H>>,
    t: StorageTable,
)
    requires
        respects(e.block.stmts, t),
        check matches Some(c) ==> writes_nothing(c.algorithm),
    ensures
        respects(check_row_if(f, e, slots, check).0.block.stmts, t),
{
    if let Some(c) = check {
        let (e1, key) = match c.key_storage {
            Some(storage) => key_reads(e, storage, c.key_tys, c.key_tys.len()),
            None => (e, Seq::empty()),
        };
        if let Some(storage) = c.key_storage {
            lemma_key_reads(e, storage, c.key_tys, c.key_tys.len(), t);
        }
        let e2 = e1.push(
            StmtView::StorageRead { storage: f.bytecode, ty: f.addr_ty, addr: pc_var() },
        );
        lemma_slot_reads(f, e2, slots, slots.len(), t);
        let (e3, words) = slot_reads(f, e2, slots, slots.len());
        let all = seq![(e1.next(), f.addr_ty)] + words;
        assert(respects(c.algorithm.emission(e3, key, all).0.block.stmts, t));
        assert(respects(check_row(f, e, slots, c).0.block.stmts, t));
    }
}

/// A handler writes what its key writes, and registers.
proof fn lemma_handler_respects<H: IrHashAlgorithm>(
    f: Frame,
    key: IRBlockView,
    check: Option<Check<H>>,
    types: Seq<IrTypeView>,
    first: nat,
    t: StorageTable,
)
    requires
        respects(key.stmts, t),
        typed_in(key, f.file),
        open_registers(f.file, f.base, t),
        check matches Some(c) ==> writes_nothing(c.algorithm),
    ensures
        respects(handler(f, key, check, types, first).block.stmts, t),
        all_respect(handler(f, key, check, types, first).extras, t),
{
    reveal(handler);
    let n = key.stmts.len() as int;
    let body = handler_body(f, key, n);
    let slots = handler_slots(key, f.addr_ty, f.bit_ty);
    lemma_body_respects(f, key, n, t);
    match key.terminator {
        TermView::Jmp { target } => {
            let start = arm_start(key, 0);
            let tys = var_types(key, target.args);
            assert(arms(key.terminator)[0] == target);
            lemma_arm_types(key, f.file, 0);
            let vals = renamed_vars(target.args, body.vars);
            let at = 1 + body.stmts.len();
            lemma_arm_writes(f, at, start, vals, tys, target.args.len(), t);
            let writes = arm_writes(f, at, start, vals, tys, target.args.len());
            lemma_both(body.stmts, writes, t);
            let stmts = body.stmts + writes;
            let h = jump_handler(f, key, target, check, types, first);
            match target.dest {
                IRBlockTargetId::Dyn(v) => {
                    let tail = dyn_exit(
                        f,
                        body.vars[v.0 as int],
                        var_type(key, v)->0,
                    );
                    assert(respects(tail, t));
                    lemma_both(stmts, tail, t);
                },
                _ => {
                    lemma_check_respects(f, draft(f, stmts, types), slots, check, t);
                    let (e, diff) = check_row_if(f, draft(f, stmts, types), slots, check);
                    let tail = exit_reads(f, e.block.var_space(), start, diff);
                    assert(respects(tail, t));
                    lemma_both(e.block.stmts, tail, t);
                    assert(all_respect(h.extras, t));
                },
            }
        },
        TermView::JumpCond { condition, then_target, else_target } => {
            lemma_check_respects(f, draft(f, body.stmts, types), slots, check, t);
            lemma_arms_respect(f, key, 2, check is Some, first, t);
        },
        TermView::JumpTable { index, cases } => {
            lemma_check_respects(f, draft(f, body.stmts, types), slots, check, t);
            lemma_arms_respect(f, key, cases.len() as int, check is Some, first, t);
        },
    }
}

/// Handlers write what their keys write, and registers.
proof fn lemma_handlers_respect<H: IrHashAlgorithm>(
    f: ModuleFrame,
    keys: Seq<IRBlockView>,
    check: Option<Check<H>>,
    types: Seq<IrTypeView>,
    n: int,
    t: StorageTable,
)
    requires
        n <= keys.len(),
        all_respect(keys, t),
        forall|h: int| 0 <= h < keys.len() ==> typed_in(#[trigger] keys[h], f.file),
        open_registers(f.file, f.base, t),
        check matches Some(c) ==> writes_nothing(c.algorithm),
    ensures
        all_respect(handlers(f, keys, check, types, n).blocks, t),
        all_respect(handlers(f, keys, check, types, n).extras, t),
    decreases n,
{
    if n > 0 {
        lemma_handlers_respect(f, keys, check, types, n - 1, t);
        let before = handlers(f, keys, check, types, n - 1);
        let first = (f.first_handler() + keys.len() + before.extras.len()) as nat;
        let frame = f.handler_frame(keys, n - 1);
        lemma_handler_respects(frame, keys[n - 1], check, before.types, first, t);
        let h = handler(frame, keys[n - 1], check, before.types, first);
        lemma_both_blocks(before.extras, h.extras, t);
    }
}

/// The key is written to its storage.
proof fn lemma_key_writes(
    storage: StorageId,
    key_tys: Seq<IRTypeId>,
    addr_ty: IRTypeId,
    at: nat,
    n: nat,
    t: StorageTable,
)
    requires
        t.access(storage) != StorageAccess::ReadOnly,
    ensures
        respects(key_writes(storage, key_tys, addr_ty, at, n), t),
    decreases n,
{
    if n > 0 {
        lemma_key_writes(storage, key_tys, addr_ty, at, (n - 1) as nat, t);
    }
}

/// Inputs are written to registers.
proof fn lemma_entry_writes(
    params: Seq<IRTypeId>,
    file: Seq<IRTypeId>,
    base: u32,
    addr_ty: IRTypeId,
    n_key: nat,
    at: nat,
    n: nat,
    t: StorageTable,
)
    requires
        open_registers(file, base, t),
        n <= params.len(),
        forall|i: int| 0 <= i < params.len() ==> file.contains(#[trigger] params[i]),
    ensures
        respects(entry_writes(params, file, base, addr_ty, n_key, at, n), t),
    decreases n,
{
    if n > 0 {
        lemma_entry_writes(params, file, base, addr_ty, n_key, at, (n - 1) as nat, t);
        assert(file.contains(params[n - 1]));
        assert(t.access(register_storage(file, base, params[n - 1])) != StorageAccess::ReadOnly);
    }
}

/// Fetching results writes nothing.
proof fn lemma_return_reads(
    tys: Seq<IRTypeId>,
    file: Seq<IRTypeId>,
    base: u32,
    addr_ty: IRTypeId,
    n: nat,
    t: StorageTable,
)
    ensures
        respects(return_reads(tys, file, base, addr_ty, n), t),
    decreases n,
{
    if n > 0 {
        lemma_return_reads(tys, file, base, addr_ty, (n - 1) as nat, t);
    }
}

/// The first blocks write the key and registers.
proof fn lemma_head_respects<H: IrHashAlgorithm>(
    f: ModuleFrame,
    entry: Seq<IRTypeId>,
    shape: Seq<IRTypeId>,
    n: nat,
    check: Option<Check<H>>,
    t: StorageTable,
)
    requires
        open_registers(f.file, f.base, t),
        open_key(check, t),
        forall|i: int| 0 <= i < entry.len() ==> f.file.contains(#[trigger] entry[i]),
    ensures
        all_respect(module_head(f, entry, shape, n, check), t),
{
    let frame = f.with_slots(n, Seq::empty());
    let key = key_params(check);
    let params = key + entry;
    let keys = setup_key_writes(check, f.addr_ty, params.len());
    if let Some(c) = check {
        if let Some(s) = c.key_storage {
            lemma_key_writes(s, c.key_tys, f.addr_ty, params.len(), c.key_tys.len(), t);
        }
    }
    let at = params.len() + keys.len();
    lemma_entry_writes(entry, f.file, f.base, f.addr_ty, key.len(), at, entry.len(), t);
    lemma_both(
        keys,
        entry_writes(entry, f.file, f.base, f.addr_ty, key.len(), at, entry.len()),
        t,
    );
    assert(respects(setup_block(frame, entry, check).stmts, t));
    lemma_return_reads(shape, f.file, f.base, f.addr_ty, shape.len(), t);
}

// ---------------------------------------------------------------------------
// Declared access
// ---------------------------------------------------------------------------

/// The lanes of a table lie in the rows.
proof fn lemma_lanes_in_rows<H>(p: IrPlan<H>, n: int, i: int)
    requires
        0 <= n <= p.keys.len(),
        p.frame.base == p.frame.bytecode.0 + 1 + slots_width(
            p.keys,
            p.frame.addr_ty,
            p.frame.bit_ty,
        ),
        ({
            let values = table_values(p.blocks, p.types);
            let f = p.frame;
            0 <= i < table_lanes(
                p.keys,
                f.addr_ty,
                f.bit_ty,
                f.bytecode,
                plan_rows(p),
                values,
                n,
            ).len()
        }),
    ensures
        ({
            let values = table_values(p.blocks, p.types);
            let f = p.frame;
            in_table(
                p,
                table_lanes(p.keys, f.addr_ty, f.bit_ty, f.bytecode, plan_rows(p), values, n)[i].storage,
            )
        }),
    decreases n,
{
    let f = p.frame;
    let values = table_values(p.blocks, p.types);
    let rows = plan_rows(p);
    if n > 0 {
        let before = table_lanes(p.keys, f.addr_ty, f.bit_ty, f.bytecode, rows, values, n - 1);
        let lanes = handler_lanes(p.keys, f.addr_ty, f.bit_ty, f.bytecode, rows, values, n - 1);
        if i < before.len() {
            lemma_lanes_in_rows(p, n - 1, i);
        } else {
            let s = i - before.len();
            lemma_slots_width_take(p.keys, f.addr_ty, f.bit_ty, n, p.keys.len() as int);
            assert(p.keys.take(p.keys.len() as int) =~= p.keys);
            assert(p.keys.take(n).drop_last() =~= p.keys.take(n - 1));
            assert(p.keys.take(n).last() == p.keys[n - 1]);
            assert((before + lanes)[i] == lanes[s]);
        }
    }
}

/// A lane that is put in its place is there, and so are the others.
proof fn lemma_with_lane(s: Seq<PreInitView>, l: PreInitView, i: int)
    requires
        0 <= i < with_lane(s, l).len(),
    ensures
        with_lane(s, l)[i].storage == l.storage || exists|j: int|
            0 <= j < s.len() && (#[trigger] s[j]).storage == with_lane(s, l)[i].storage,
    decreases s.len(),
{
    if s.len() > 0 {
        let rest = s.drop_first();
        let all = with_lane(s, l);
        if all[i].storage == l.storage {
        } else if all[i].storage == s[0].storage {
        } else {
            if all == seq![l] + s {
                assert(all[i] == s[i - 1]);
            } else if all == seq![s[0]] + with_lane(rest, l) {
                lemma_with_lane(rest, l, i - 1);
                let j = choose|j: int|
                    0 <= j < rest.len() && (#[trigger] rest[j]).storage == with_lane(
                        rest,
                        l,
                    )[i - 1].storage;
                assert(s[j + 1] == rest[j]);
            } else {
                assert(s[i].storage == all[i].storage);
            }
        }
    }
}

/// What is declared of a storage outside the table is what the caller declared.
proof fn lemma_caller_access<P: Clone + Default, H: IrHashAlgorithm>(
    blocks: IRBlocks<P>,
    p: IrPlan<H>,
    commitment: Option<CommitmentConfig<H>>,
    caller: StorageTable,
    r: VirtOutput<IRBlocks<P>>,
    s: StorageId,
)
    requires
        emits(blocks, p, commitment, caller, r),
        p.frame.base == p.frame.bytecode.0 + 1 + slots_width(
            p.keys,
            p.frame.addr_ty,
            p.frame.bit_ty,
        ),
        !in_table(p, s),
        caller.access(s) != StorageAccess::ReadOnly,
    ensures
        r.storage_access.access(s) != StorageAccess::ReadOnly,
{
    let f = p.frame;
    let lanes = table_lanes(
        p.keys,
        f.addr_ty,
        f.bit_ty,
        f.bytecode,
        plan_rows(p),
        table_values(p.blocks, p.types),
        p.keys.len() as int,
    );
    let all = plan_storage(p, commitment);
    assert forall|i: int| 0 <= i < all.len() implies (#[trigger] all[i]).storage != s by {
        match plan_lane(p, commitment) {
            Some(l) => {
                lemma_with_lane(lanes, l, i);
                if all[i].storage != l.storage {
                    let j = choose|j: int|
                        0 <= j < lanes.len() && (#[trigger] lanes[j]).storage == all[i].storage;
                    lemma_lanes_in_rows(p, p.keys.len() as int, j);
                }
            },
            None => {
                lemma_lanes_in_rows(p, p.keys.len() as int, i);
            },
        }
    }
    assert(r.storage_access.declared(s) == r.storage_access.declared(s));
    assert(generated_access(
        s,
        all,
        f.bytecode,
        f.base,
        f.file.len(),
        key_storage_of(commitment),
    ) != Some(StorageAccess::ReadOnly));
}

/// Registers and the key may be written.
proof fn lemma_open<P: Clone + Default, H: IrHashAlgorithm>(
    blocks: IRBlocks<P>,
    p: IrPlan<H>,
    commitment: Option<CommitmentConfig<H>>,
    caller: StorageTable,
    r: VirtOutput<IRBlocks<P>>,
)
    requires
        emits(blocks, p, commitment, caller, r),
        p.frame.base + p.frame.file.len() <= u32::MAX,
        p.check matches Some(c) ==> c.key_storage == key_storage_of(commitment),
    ensures
        open_registers(p.frame.file, p.frame.base, r.storage_access),
        open_key(p.check, r.storage_access),
{
    let f = p.frame;
    assert forall|ty: IRTypeId| f.file.contains(ty) implies r.storage_access.access(
        #[trigger] register_storage(f.file, f.base, ty),
    ) != StorageAccess::ReadOnly by {
        f.file.index_of_first_ensures(ty);
        let s = register_storage(f.file, f.base, ty);
        assert(r.storage_access.declared(s) == r.storage_access.declared(s));
    }
    if let Some(c) = p.check {
        if let Some(s) = c.key_storage {
            assert(r.storage_access.declared(s) == r.storage_access.declared(s));
        }
    }
}

/// What virtualisation yields writes no storage that its own table declares
/// read-only, if the module writes none that the caller declared read-only and
/// keeps off the table and the registers. The handler indices are declared
/// read-only, unless the caller says otherwise or keeps the key there.
pub proof fn law_virtualize_ir_output_keeps_to_declared_access<
    P: Clone + Default,
    H: IrHashAlgorithm,
>(
    blocks: IRBlocks<P>,
    types: Seq<IrTypeView>,
    cfg: VirtualizeConfig,
    commitment: Option<CommitmentConfig<H>>,
    r: VirtOutput<IRBlocks<P>>,
    new_types: Seq<IrTypeView>,
    p: IrPlan<H>,
)
    requires
        virtualizable(blocks@, types, cfg, commitment),
        virtualized(blocks, types, cfg, commitment, r, new_types),
        p == output_plan(blocks@, types, cfg, commitment),
        keeps_off(blocks@.blocks, p),
        blocks_violation(blocks@.blocks, cfg.storage_access) is None,
        commitment matches Some(c) ==> writes_nothing(c.algorithm),
    ensures
        blocks_violation(r.blocks@.blocks, r.storage_access) is None,
        cfg.storage_access.declared(cfg.bytecode_storage) != Some(StorageAccess::ReadWrite)
            && key_storage_of(commitment) != Some(cfg.bytecode_storage)
            ==> r.storage_access.access(cfg.bytecode_storage) == StorageAccess::ReadOnly,
{
    let prog = blocks@.blocks;
    let t = r.storage_access;
    let c = if has_regions(blocks@, cfg) {
        None
    } else {
        commitment
    };
    assert(plan_ready(blocks@, p, c));
    assert(emits(blocks, p, c, cfg.storage_access, r));
    lemma_open(blocks, p, c, cfg.storage_access, r);
    lemma_blocks_violation(prog, cfg.storage_access);
    assert(all_respect(prog, t)) by {
        assert forall|i: int| 0 <= i < prog.len() implies respects((#[trigger] prog[i]).stmts, t) by {
            assert(reads_in_range(prog[i]));
            assert(respects(prog[i].stmts, cfg.storage_access));
            assert forall|k: int| 0 <= k < prog[i].stmts.len() implies stmt_violation(
                #[trigger] prog[i].stmts[k],
                t,
            ) is None by {
                let x = prog[i].stmts[k];
                assert(stmt_violation(x, cfg.storage_access) is None);
                if let StmtView::StorageWrite { storage, .. } = x {
                    assert(touched(x) == Some(storage));
                    lemma_caller_access(blocks, p, c, cfg.storage_access, r, storage);
                }
            }
        }
    }
    let merged = merged_blocks(prog);
    assert forall|i: int| 0 <= i < merged.len() implies respects((#[trigger] merged[i]).stmts, t) by {
        assert(merged[i] == merged_block(prog[i]));
        lemma_merged_respects(prog[i], prog[i].stmts.len() as int, t);
    }
    if has_regions(blocks@, cfg) {
        let s = split_view(merged, cfg.adaptive_split);
        assert forall|b: int| 0 <= b < merged.len() implies (#[trigger] merged[b]).var_space()
            <= u32::MAX by {
            assert(scoped(merged[b]));
        }
        lemma_split_rows(s, merged);
        lemma_pieces_respect(merged, split_rows(s, merged), t);
        assert(p == adaptive_plan::<H>(prog, types, cfg));
    }
    lemma_keys_respect(p.blocks, t);
    assert forall|i: int| 0 <= i < p.blocks[0].params.len() implies p.frame.file.contains(
        #[trigger] p.blocks[0].params[i],
    ) by {}
    lemma_head_respects(p.frame, p.blocks[0].params, p.shape, p.keys.len(), p.check, t);
    let n = p.keys.len() as int;
    lemma_handlers_respect(p.frame, p.keys, p.check, p.types, n, t);
    let all = handlers(p.frame, p.keys, p.check, p.types, n);
    let head = module_head(p.frame, p.blocks[0].params, p.shape, p.keys.len(), p.check);
    lemma_both_blocks(head, all.blocks, t);
    lemma_both_blocks(head + all.blocks, all.extras, t);
    assert(r.blocks@.blocks == module_blocks(
        p.frame,
        p.blocks[0].params,
        p.shape,
        p.keys,
        p.check,
        p.types,
    ));
    lemma_blocks_violation(r.blocks@.blocks, t);
    assert(t.declared(cfg.bytecode_storage) == t.declared(cfg.bytecode_storage));
}

// ---------------------------------------------------------------------------
// Boolean modules
// ---------------------------------------------------------------------------

/// Whether no boolean statement writes a storage that is declared read-only.
pub open spec fn bir_respects(s: Seq<BIrStmtView>, t: StorageTable) -> bool {
    forall|k: int| 0 <= k < s.len() ==> bir_stmt_violation(#[trigger] s[k], t) is None
}

/// Whether no boolean block does.
pub open spec fn bir_all_respect(b: Seq<BIrBlockView>, t: StorageTable) -> bool {
    forall|i: int| 0 <= i < b.len() ==> bir_respects((#[trigger] b[i]).stmts, t)
}

/// A list has no offending boolean statement exactly when there is no first
/// one.
proof fn lemma_bir_stmts_violation(s: Seq<BIrStmtView>, t: StorageTable)
    ensures
        bir_respects(s, t) <==> bir_stmts_violation(s, t) is None,
    decreases s.len(),
{
    if s.len() > 0 {
        let rest = s.drop_first();
        lemma_bir_stmts_violation(rest, t);
        if bir_stmts_violation(s, t) is None {
            assert forall|k: int| 0 <= k < s.len() implies bir_stmt_violation(
                #[trigger] s[k],
                t,
            ) is None by {
                if k > 0 {
                    assert(rest[k - 1] == s[k]);
                }
            }
        }
    }
}

/// A list has no offending boolean block exactly when there is no first one.
proof fn lemma_bir_blocks_violation(b: Seq<BIrBlockView>, t: StorageTable)
    ensures
        bir_all_respect(b, t) <==> bir_blocks_violation(b, t) is None,
    decreases b.len(),
{
    if b.len() > 0 {
        let rest = b.drop_first();
        lemma_bir_blocks_violation(rest, t);
        lemma_bir_stmts_violation(b[0].stmts, t);
        if bir_blocks_violation(b, t) is None {
            assert forall|i: int| 0 <= i < b.len() implies bir_respects(
                (#[trigger] b[i]).stmts,
                t,
            ) by {
                if i > 0 {
                    assert(rest[i - 1] == b[i]);
                }
            }
        }
    }
}

/// Merging oracle calls adds no write.
proof fn lemma_bir_merged_respects(b: BIrBlockView, n: int, t: StorageTable)
    requires
        bir_respects(b.stmts, t),
        n <= b.stmts.len(),
    ensures
        bir_respects(bir_merged_prefix(b, n).stmts, t),
    decreases n,
{
    if n > 0 {
        lemma_bir_merged_respects(b, n - 1, t);
        let p = bir_merged_prefix(b, n - 1);
        let x = b.stmts[n - 1];
        assert(bir_stmt_violation(x, t) is None);
        assert(bir_stmt_violation(renamed_bir_stmt(x, p.names), t) is None);
    }
}

/// Tests of the handler index write nothing.
proof fn lemma_test_respects(f: BirFrame, i: nat, n: nat, t: StorageTable)
    ensures
        bir_respects(is_handler(f, i, n).stmts, t),
    decreases n,
{
    if n > 1 {
        lemma_test_respects(f, i, (n - 1) as nat, t);
    }
}

/// The dispatcher writes nothing.
proof fn lemma_dispatcher_respects(f: BirFrame, t: StorageTable)
    ensures
        bir_all_respect(dispatcher_nodes(f), t),
{
    let nodes = dispatcher_nodes(f);
    let reads = f.index_reads();
    assert forall|k: int| 0 <= k < nodes.len() implies bir_respects(
        (#[trigger] nodes[k]).stmts,
        t,
    ) by {
        if f.n_handlers > 1 {
            let test = is_handler(f, k as nat, f.handler_bits).stmts;
            lemma_test_respects(f, k as nat, f.handler_bits, t);
            assert forall|i: int| 0 <= i < nodes[k].stmts.len() implies bir_stmt_violation(
                #[trigger] nodes[k].stmts[i],
                t,
            ) is None by {
                if i < reads.len() {
                    assert(nodes[k].stmts[i] == reads[i]);
                } else {
                    assert(nodes[k].stmts[i] == test[i - reads.len()]);
                }
            }
        }
    }
}

/// A handler writes what its key writes.
proof fn lemma_bir_handler_respects(f: BirFrame, key: BIrBlockView, slot: nat, t: StorageTable)
    requires
        bir_respects(key.stmts, t),
    ensures
        bir_respects(bir_handler(f, key, slot).stmts, t),
{
    let n = n_targets(key) * f.pc_bits;
    let h = bir_handler(f, key, slot).stmts;
    assert forall|k: int| 0 <= k < h.len() implies bir_stmt_violation(
        #[trigger] h[k],
        t,
    ) is None by {
        if k < n {
            assert(h[k] == f.read(slot + k));
        } else {
            let i = k - n;
            assert(bir_stmt_violation(key.stmts[i], t) is None);
            assert(h[k] == renamed_bir_stmt(
                key.stmts[i],
                handler_vars(f, f.full() + n, i as nat),
            ));
        }
    }
}

/// What virtualisation of a boolean module yields writes no storage that its
/// own table declares read-only, if the module writes none that the caller
/// declared read-only. The handler indices are declared read-only, unless the
/// caller says otherwise.
pub proof fn law_virtualize_bir_output_keeps_to_declared_access<P: Clone + Default>(
    blocks: BIrBlocks<P>,
    base: StorageId,
    caller: StorageTable,
    r: VirtOutput<BIrBlocks<P>>,
)
    requires
        bir_ready(blocks@, bir_plan(blocks@.blocks, base)),
        virtualizes_bir(blocks, bir_plan(blocks@.blocks, base), caller, r),
        bir_blocks_violation(blocks@.blocks, caller) is None,
    ensures
        bir_blocks_violation(r.blocks@.blocks, r.storage_access) is None,
        caller.declared(base) != Some(StorageAccess::ReadWrite) ==> r.storage_access.access(base)
            == StorageAccess::ReadOnly,
{
    let p = bir_plan(blocks@.blocks, base);
    let prog = blocks@.blocks;
    let t = r.storage_access;
    let f = p.frame;
    assert(t.declared(base) == t.declared(base));
    lemma_bir_blocks_violation(prog, caller);
    let keys = bir_block_keys(p.blocks);
    law_distinct(keys);
    let module = bir_module(f, p.keys);
    let front = seq![bir_setup_block(f)] + dispatcher_nodes(f);
    lemma_dispatcher_respects(f, t);
    assert forall|i: int| 0 <= i < module.len() implies bir_respects(
        (#[trigger] module[i]).stmts,
        t,
    ) by {
        if i == 0 {
        } else if i < front.len() {
            assert(module[i] == dispatcher_nodes(f)[i - 1]);
        } else {
            let h = i - front.len();
            let slot = first_slot(f, p.keys, h);
            assert(module[i] == bir_handler(f, p.keys[h], slot));
            assert(p.keys.contains(p.keys[h]));
            assert(keys.contains(p.keys[h]));
            let j = choose|j: int| 0 <= j < keys.len() && keys[j] == p.keys[h];
            let b = p.blocks[j];
            assert(keys[j] == bir_key(b));
            assert(b == merged_bir_block(prog[j]));
            assert(bir_respects(prog[j].stmts, caller));
            lemma_bir_merged_respects(prog[j], prog[j].stmts.len() as int, caller);
            assert(leaves_table(b, bir_storage(p), f.base));
            assert forall|k: int| 0 <= k < b.stmts.len() implies bir_stmt_violation(
                #[trigger] b.stmts[k],
                t,
            ) is None by {
                let x = b.stmts[k];
                assert(bir_stmt_violation(x, caller) is None);
                if let Some(s) = bir_written(x) {
                    assert(t.declared(s) == t.declared(s));
                    assert(bir_generated_access(s, bir_storage(p), f.base) is None);
                }
            }
            lemma_bir_handler_respects(f, p.keys[h], slot, t);
        }
    }
    lemma_bir_blocks_violation(module, t);
}

} // verus!
