//! The law of virtualisation of typed programs.

use vstd::prelude::*;

use crate::common::{interned, interned_index, Constant, IrTypeView, PreInitView, StorageId};
use crate::ir::{
    output_type, BranchView, IRBlockId, IRBlockTargetId, IRBlockView, IRBlocks, IRBlocksView,
    IRTypeId, IRVarId, StmtView, TermView,
};
use crate::virt::config::VirtualizeConfig;
use crate::virt::cse::{
    identity_map, lemma_merged_prefix, merged_block, merged_prefix, reads_in_range,
};
use crate::virt::ctx::VirtOutput;
use crate::virt::emit::{DD_INIT_DISPATCH_BID, DISPATCHER_BID, DISPATCH_BID};
use crate::virt::adaptive_emit::{adaptive_plan, lemma_split_rows, split_rows};
use crate::virt::handler::{scoped, Check};
use crate::virt::hash::{constant_bytes, constant_of_bytes, CommitmentConfig, IrHashAlgorithm};
use crate::virt::ir::{
    addr_view, bit_view, commitment_ready, has_regions, interned_all, interned_ids, ir_plan,
    key_words, merged_blocks, plan_key_params, plan_lane, plan_of, plan_ready, plan_rows, row_hash,
    row_words, virtual_module, virtualizable, virtualized, with_addr_and_bit, IrPlan,
};
use crate::virt::pieces::{
    carried, lemma_next, lemma_piece_types, lemma_pieces, next_row, piece, pieces, row_in, rows_in,
    types_before, Row,
};
use crate::virt::ir_run::{
    act, adds_up, at, at_all, initial_cell, initial_cells, leave, lemma_one, lemma_renamed_list,
    lemma_renamed_stmt, lemma_run_both, lemma_run_length, lemma_run_push, lemma_same_case, numbers,
    renames, results, run, run_block, run_stmts, stored, taken, Exit, IrState, Machine,
};
use crate::virt::ir_sim::{
    beside_table, branch_typed, branches_typed, check_apart, checkable, holds_key, holds_row,
    holds_slot, holds_table, in_check, in_registers, in_rows, in_table, keeps_off, lemma_bounds,
    lemma_dispatch, lemma_dispatcher, lemma_places, lemma_row, lemma_simulates, lemma_slot_storage,
    lemma_table_kept, ready, row_digest, row_frame, row_slots, touched,
    virtual_blocks,
};
use crate::virt::module::{entry_writes, key_params, key_writes, setup_block, setup_key_writes};
use crate::virt::preinit::{handler_lanes, slot_lane, table_lanes, table_values, with_lane};
use crate::virt::regs::{
    arms, law_register_storages_distinct, law_registers_distinct, register_index, registers,
    returns_agree, var_type, var_types, vars_typed,
};
use crate::virt::remap::{
    branch_mapped, renamed_branch, renamed_stmt, renamed_var, renamed_vars, stmt_mapped,
    var_mapped,
};
use crate::virt::schema::{
    constant_of, constant_of_bit, handler_slots, lemma_key_slots, lemma_slots_width_take,
    slot_storages, slot_values, slots_width, storage_behind,
};
use crate::virt::split::split_view;

verus! {

// ---------------------------------------------------------------------------
// Merged oracle calls
// ---------------------------------------------------------------------------

/// Whether statements use variables only behind their definitions.
pub open spec fn defined_before_use(b: IRBlockView) -> bool {
    forall|k: int|
        0 <= k < b.stmts.len() ==> stmt_mapped(
            #[trigger] b.stmts[k],
            identity_map((b.params.len() + k) as nat),
        )
}

/// Whether calls of one oracle have results of one type.
pub open spec fn calls_agree(b: IRBlockView) -> bool {
    forall|i: int, j: int|
        0 <= i < b.stmts.len() && 0 <= j < b.stmts.len() ==> match (
            #[trigger] b.stmts[i],
            #[trigger] b.stmts[j],
        ) {
            (
                StmtView::OracleCall { name: n1, result_ty: r1, .. },
                StmtView::OracleCall { name: n2, result_ty: r2, .. },
            ) => n1 == n2 ==> r1 == r2,
            _ => true,
        }
}

/// Whether a block may jump where a value says.
pub open spec fn jumps_dynamically(b: IRBlockView) -> bool {
    exists|a: int|
        0 <= a < arms(b.terminator).len() && (#[trigger] arms(b.terminator)[a]).dest is Dyn
}

/// Whether a block means the same with its repeated oracle calls merged: it
/// uses variables only behind their definitions and, since a dynamic jump goes
/// by the types of what it hands over, its calls agree if it has one.
pub open spec fn mergeable(b: IRBlockView) -> bool {
    &&& reads_in_range(b)
    &&& b.var_space() < u32::MAX
    &&& defined_before_use(b)
    &&& jumps_dynamically(b) ==> calls_agree(b)
}

/// After `n` statements: what was left gives every variable its value under its
/// new name, and every first call the handle of the call.
#[verifier::rlimit(90)]
proof fn lemma_merged_run<V, W>(
    m: Machine<V, W>,
    b: IRBlockView,
    n: int,
    args: Seq<V>,
    st: IrState<V, W>,
)
    requires
        adds_up(m),
        mergeable(b),
        0 <= n <= b.stmts.len(),
        args.len() == b.params.len(),
    ensures
        ({
            let p = merged_prefix(b, n);
            let (e, s) = run_stmts(m, b.stmts.take(n), args, st);
            let (e2, s2) = run_stmts(m, p.stmts, args, st);
            &&& s == s2
            &&& e.len() == b.params.len() + n
            &&& e2.len() == b.params.len() + p.stmts.len()
            &&& renames(identity_map((b.params.len() + n) as nat), p.names, e, e2)
            &&& forall|v: int|
                0 <= v < b.params.len() + n ==> (#[trigger] p.names[v]).0 < e2.len()
            &&& forall|c: (Seq<char>, Seq<IRVarId>)| #[trigger]
                p.calls.contains_key(c) ==> e2[p.calls[c].0 as int] == (m.oracle)(
                    c.0,
                    at_all(c.1, e2),
                ) && forall|k: int| 0 <= k < c.1.len() ==> (#[trigger] c.1[k]).0 < e2.len()
        }),
    decreases n,
{
    lemma_merged_prefix(b, n);
    lemma_run_length(m, b.stmts.take(n), args, st);
    lemma_run_length(m, merged_prefix(b, n).stmts, args, st);
    let q = merged_prefix(b, n);
    if n == 0 {
        assert(b.stmts.take(0) =~= Seq::empty());
        assert(q.stmts =~= Seq::empty());
    } else {
        let k = n - 1;
        lemma_merged_run(m, b, k, args, st);
        lemma_merged_prefix(b, k);
        let p = merged_prefix(b, k);
        let x = b.stmts[k];
        let sc = identity_map((b.params.len() + k) as nat);
        let sc2 = identity_map((b.params.len() + n) as nat);
        assert(b.stmts.take(n).drop_last() =~= b.stmts.take(k));
        let (e, s) = run_stmts(m, b.stmts.take(k), args, st);
        let (e2, s2) = run_stmts(m, p.stmts, args, st);
        assert(stmt_mapped(x, sc));
        lemma_renamed_stmt(m, x, sc, p.names, e, e2, s);
        let (v, s3) = act(m, x, e, s);
        assert(run_stmts(m, b.stmts.take(n), args, st) == (e.push(v), s3));
        let place = b.params.len() + k;
        let again = x matches StmtView::OracleCall { name, args: a, .. } && p.calls.contains_key(
            (name, renamed_vars(a, p.names)),
        );
        if again {
            let a = x->OracleCall_args;
            let c = (x->OracleCall_name, renamed_vars(a, p.names));
            lemma_renamed_list(a, sc, p.names, e, e2);
            assert(q.names == p.names.update(place, p.calls[c]));
            assert(q.stmts == p.stmts);
            assert(q.calls == p.calls);
            assert(v == e2[p.calls[c].0 as int]);
            lemma_names_step(b, k, p.names, q.names, e, e2, e2, v);
        } else {
            let y = renamed_stmt(x, p.names);
            assert(q.stmts =~= p.stmts.push(y));
            lemma_run_push(m, p.stmts, y, args, st);
            let e3 = e2.push(v);
            assert(run_stmts(m, q.stmts, args, st) == (e3, s3));
            let fresh = IRVarId((b.params.len() + p.stmts.len()) as u32);
            assert(q.names == p.names.update(place, fresh));
            lemma_names_step(b, k, p.names, q.names, e, e2, e3, v);
            assert forall|c: (Seq<char>, Seq<IRVarId>)| #[trigger]
                q.calls.contains_key(c) implies e3[q.calls[c].0 as int] == (m.oracle)(
                c.0,
                at_all(c.1, e3),
            ) && forall|i: int| 0 <= i < c.1.len() ==> (#[trigger] c.1[i]).0 < e3.len() by {
                if p.calls.contains_key(c) && q.calls[c] == p.calls[c] {
                    assert(at_all(c.1, e3) =~= at_all(c.1, e2)) by {
                        assert forall|i: int| 0 <= i < c.1.len() implies at_all(c.1, e3)[i]
                            == at_all(c.1, e2)[i] by {
                            assert(c.1[i].0 < e2.len());
                        }
                    }
                    assert(p.calls[c].0 < b.params.len() + p.stmts.len());
                } else {
                    let a = x->OracleCall_args;
                    assert(c == (x->OracleCall_name, renamed_vars(a, p.names)));
                    lemma_renamed_list(a, sc, p.names, e, e2);
                    assert forall|i: int| 0 <= i < c.1.len() implies (#[trigger] c.1[i]).0
                        < e2.len() by {
                        assert(var_mapped(a[i], sc));
                        assert(c.1[i] == p.names[a[i].0 as int]);
                    }
                    assert(at_all(c.1, e3) =~= at_all(c.1, e2)) by {
                        assert forall|i: int| 0 <= i < c.1.len() implies at_all(c.1, e3)[i]
                            == at_all(c.1, e2)[i] by {
                            assert(c.1[i].0 < e2.len());
                        }
                    }
                }
            }
        }
    }
}

/// One more variable has its value under its new name.
proof fn lemma_names_step<V>(
    b: IRBlockView,
    k: int,
    names: Seq<IRVarId>,
    names2: Seq<IRVarId>,
    e: Seq<V>,
    e2: Seq<V>,
    e3: Seq<V>,
    v: V,
)
    requires
        0 <= k < b.stmts.len(),
        b.var_space() < u32::MAX,
        e.len() == b.params.len() + k,
        names.len() == b.var_space(),
        names2.len() == names.len(),
        forall|j: int|
            0 <= j < names.len() && j != e.len() ==> #[trigger] names2[j] == names[j],
        forall|j: int| 0 <= j < e.len() ==> (#[trigger] names[j]).0 < e2.len(),
        e2.len() <= e3.len(),
        forall|j: int| 0 <= j < e2.len() ==> #[trigger] e3[j] == e2[j],
        renames(identity_map((b.params.len() + k) as nat), names, e, e2),
        names2[e.len() as int].0 < e3.len(),
        at(names2[e.len() as int], e3) == v,
    ensures
        renames(identity_map((b.params.len() + k + 1) as nat), names2, e.push(v), e3),
        forall|j: int| 0 <= j < b.params.len() + k + 1 ==> (#[trigger] names2[j]).0 < e3.len(),
{
    let sc = identity_map((b.params.len() + k) as nat);
    let sc2 = identity_map((b.params.len() + k + 1) as nat);
    assert forall|w: IRVarId| #[trigger] var_mapped(w, sc2) implies w.0 < names2.len() && at(
        w,
        e.push(v),
    ) == at(renamed_var(w, names2), e3) by {
        let j = w.0 as int;
        if j < e.len() {
            assert(sc[j] == sc2[j]);
            assert(var_mapped(w, sc));
            assert(at(w, e) == at(renamed_var(w, names), e2));
            assert(names2[j] == names[j]);
            assert(names[j].0 < e2.len());
            assert(e3[names[j].0 as int] == e2[names[j].0 as int]);
        }
    }
    assert forall|j: int| 0 <= j < b.params.len() + k + 1 implies (#[trigger] names2[j]).0
        < e3.len() by {
        if j < e.len() {
            assert(names2[j] == names[j]);
        }
    }
}

/// The statements that are left, and the type of each variable under its new
/// name if calls agree.
proof fn lemma_merged_types(b: IRBlockView, n: int)
    requires
        mergeable(b),
        0 <= n <= b.stmts.len(),
    ensures
        ({
            let p = merged_prefix(b, n);
            let c = IRBlockView { stmts: p.stmts, ..b };
            &&& forall|k: int|
                0 <= k < p.stmts.len() ==> {
                    let from = p.kept[k];
                    &&& 0 <= from < n
                    &&& output_type(#[trigger] p.stmts[k]) == output_type(b.stmts[from])
                    &&& touched(p.stmts[k]) == touched(b.stmts[from])
                    &&& p.stmts[k] matches StmtView::OracleCall { name, result_ty, .. }
                        ==> b.stmts[from] matches StmtView::OracleCall {
                        name: name2,
                        result_ty: result2,
                        ..
                    } && name == name2 && result_ty == result2
                }
            &&& calls_agree(b) ==> forall|v: int|
                0 <= v < b.params.len() + n ==> var_type(c, #[trigger] p.names[v]) == var_type(
                    b,
                    IRVarId(v as u32),
                )
        }),
    decreases n,
{
    lemma_merged_prefix(b, n);
    let q = merged_prefix(b, n);
    let c = IRBlockView { stmts: q.stmts, ..b };
    if n > 0 {
        let k = n - 1;
        lemma_merged_types(b, k);
        lemma_merged_prefix(b, k);
        let p = merged_prefix(b, k);
        let c0 = IRBlockView { stmts: p.stmts, ..b };
        let x = b.stmts[k];
        let place = b.params.len() + k;
        let again = x matches StmtView::OracleCall { name, args: a, .. } && p.calls.contains_key(
            (name, renamed_vars(a, p.names)),
        );
        if again {
            let call = (x->OracleCall_name, renamed_vars(x->OracleCall_args, p.names));
            let w = p.calls[call];
            let at = w.0 - b.params.len();
            let from = p.kept[at];
            assert(p.stmts[at] is OracleCall);
            assert(output_type(p.stmts[at]) == output_type(b.stmts[from]));
            assert(b.stmts[from] is OracleCall);
            assert(q.names == p.names.update(place, w));
            assert forall|v: int|
                calls_agree(b) && 0 <= v < b.params.len() + n implies var_type(
                c,
                #[trigger] q.names[v],
            ) == var_type(b, IRVarId(v as u32)) by {
                if v < place {
                    assert(q.names[v] == p.names[v]);
                }
            }
        } else {
            let y = renamed_stmt(x, p.names);
            assert(q.stmts =~= p.stmts.push(y));
            assert(q.kept =~= p.kept.push(k));
            assert(output_type(y) == output_type(x));
            assert(touched(y) == touched(x));
            let fresh = IRVarId((b.params.len() + p.stmts.len()) as u32);
            assert(q.names == p.names.update(place, fresh));
            assert forall|j: int| 0 <= j < q.stmts.len() implies ({
                let from = q.kept[j];
                &&& 0 <= from < n
                &&& output_type(#[trigger] q.stmts[j]) == output_type(b.stmts[from])
                &&& touched(q.stmts[j]) == touched(b.stmts[from])
                &&& q.stmts[j] matches StmtView::OracleCall { name, result_ty, .. }
                    ==> b.stmts[from] matches StmtView::OracleCall {
                    name: name2,
                    result_ty: result2,
                    ..
                } && name == name2 && result_ty == result2
            }) by {
                if j < p.stmts.len() {
                    assert(q.stmts[j] == p.stmts[j]);
                    assert(q.kept[j] == p.kept[j]);
                }
            }
            assert forall|v: int|
                calls_agree(b) && 0 <= v < b.params.len() + n implies var_type(
                c,
                #[trigger] q.names[v],
            ) == var_type(b, IRVarId(v as u32)) by {
                if v < place {
                    assert(q.names[v] == p.names[v]);
                    let w = p.names[v];
                    assert(var_type(c0, w) == var_type(b, IRVarId(v as u32)));
                    lemma_names_below(b, k, v);
                    if b.params.len() <= w.0 {
                        assert(q.stmts[w.0 - b.params.len()] == p.stmts[w.0 - b.params.len()]);
                    }
                }
            }
        }
    }
}

/// Names of variables that are defined name something defined.
proof fn lemma_names_below(b: IRBlockView, n: int, v: int)
    requires
        b.var_space() < u32::MAX,
        0 <= n <= b.stmts.len(),
        0 <= v < b.params.len() + n,
    ensures
        merged_prefix(b, n).names.len() == b.var_space(),
        merged_prefix(b, n).names[v].0 < b.params.len() + merged_prefix(b, n).stmts.len(),
    decreases n,
{
    lemma_merged_prefix(b, n);
    if n > 0 {
        lemma_merged_prefix(b, n - 1);
        if v < b.params.len() + n - 1 {
            lemma_names_below(b, n - 1, v);
        }
    }
}

/// A block runs the same way with its repeated oracle calls merged: oracles are
/// pure.
pub proof fn law_merged_ir_block<V, W>(
    m: Machine<V, W>,
    b: IRBlockView,
    args: Seq<V>,
    st: IrState<V, W>,
)
    requires
        adds_up(m),
        mergeable(b),
        args.len() == b.params.len(),
    ensures
        run_block(m, merged_block(b), args, st) == run_block(m, b, args, st),
{
    let n = b.stmts.len() as int;
    lemma_merged_run(m, b, n, args, st);
    lemma_merged_types(b, n);
    assert(b.stmts.take(n) =~= b.stmts);
    let p = merged_prefix(b, n);
    lemma_merged_prefix(b, n);
    let c = merged_block(b);
    let (e, s) = run_stmts(m, b.stmts, args, st);
    let (e2, s2) = run_stmts(m, p.stmts, args, st);
    let sc = identity_map(b.var_space());
    assert(taken(m, c.terminator, e2) == taken(m, b.terminator, e)) by {
        match b.terminator {
            TermView::JumpCond { condition, .. } => {
                assert(var_mapped(condition, sc));
            },
            TermView::JumpTable { index, cases } => {
                assert(var_mapped(index, sc));
                lemma_same_case(cases, c.terminator->cases, (m.number)(at(index, e)));
            },
            _ => {},
        }
    }
    match taken(m, b.terminator, e) {
        Some(a) => {
            let arm = arms(b.terminator)[a];
            match b.terminator {
                TermView::JumpTable { index, cases } => {
                    lemma_same_case(cases, cases, (m.number)(at(index, e)));
                },
                _ => {},
            }
            assert(0 <= a < arms(b.terminator).len());
            assert(arms(c.terminator)[a] == renamed_branch(arm, p.names));
            assert(branch_mapped(arm, sc)) by {
                match b.terminator {
                    TermView::JumpTable { cases, .. } => {
                        assert(branch_mapped(cases[a].1, sc));
                    },
                    _ => {},
                }
            }
            lemma_renamed_list(arm.args, sc, p.names, e, e2);
            match arm.dest {
                IRBlockTargetId::Dyn(v) => {
                    assert(arms(b.terminator)[a].dest is Dyn);
                    assert(calls_agree(b));
                    assert(var_mapped(v, sc));
                    assert(at(v, e) == at(renamed_var(v, p.names), e2));
                    let args2 = renamed_vars(arm.args, p.names);
                    let c0 = IRBlockView { stmts: p.stmts, ..b };
                    assert(var_types(c, args2) =~= var_types(b, arm.args)) by {
                        assert forall|k: int| 0 <= k < arm.args.len() implies var_types(
                            c,
                            args2,
                        )[k] == var_types(b, arm.args)[k] by {
                            let w = arm.args[k];
                            assert(var_mapped(w, sc));
                            assert(args2[k] == p.names[w.0 as int]);
                            assert(var_type(c0, p.names[w.0 as int]) == var_type(b, w));
                            assert(var_type(c, args2[k]) == var_type(c0, args2[k]));
                        }
                    }
                },
                _ => {},
            }
        },
        None => {},
    }
}

/// A program runs the same way with the repeated oracle calls of its blocks
/// merged.
pub proof fn law_merged_ir_program<V, W>(
    m: Machine<V, W>,
    blocks: Seq<IRBlockView>,
    i: int,
    args: Seq<V>,
    st: IrState<V, W>,
    fuel: nat,
)
    requires
        adds_up(m),
        forall|k: int| 0 <= k < blocks.len() ==> mergeable(#[trigger] blocks[k]),
        forall|k: int, a: int|
            0 <= k < blocks.len() && 0 <= a < arms(blocks[k].terminator).len() ==> hands_over(
                #[trigger] arms(blocks[k].terminator)[a],
                blocks,
            ),
        0 <= i < blocks.len(),
        args.len() == blocks[i].params.len(),
    ensures
        run(m, merged_blocks(blocks), i, args, st, fuel) == run(m, blocks, i, args, st, fuel),
    decreases fuel,
{
    if fuel > 0 {
        let b = blocks[i];
        assert(merged_blocks(blocks)[i] == merged_block(b));
        law_merged_ir_block(m, b, args, st);
        let (e, s) = run_stmts(m, b.stmts, args, st);
        let exit = leave(m, b, e);
        match taken(m, b.terminator, e) {
            Some(a) => {
                match b.terminator {
                    TermView::JumpTable { index, cases } => {
                        lemma_same_case(cases, cases, (m.number)(at(index, e)));
                    },
                    _ => {},
                }
                assert(hands_over(arms(b.terminator)[a], blocks));
                match exit {
                    Exit::Block(t, next) => {
                        law_merged_ir_program(m, blocks, t.0 as int, next, s, (fuel - 1) as nat);
                    },
                    Exit::Dynamic(t, tys, next) => {
                        if t < blocks.len() {
                            assert(merged_blocks(blocks)[t as int].params == blocks[t as int].params);
                            if blocks[t as int].params == tys {
                                law_merged_ir_program(
                                    m,
                                    blocks,
                                    t as int,
                                    next,
                                    s,
                                    (fuel - 1) as nat,
                                );
                            }
                        }
                    },
                    _ => {},
                }
            },
            None => {},
        }
    }
}

/// Whether a branch names a block of the program and hands over as many values
/// as it takes.
pub open spec fn hands_over(arm: BranchView, blocks: Seq<IRBlockView>) -> bool {
    arm.dest matches IRBlockTargetId::Block(t) ==> t.0 < blocks.len() && arm.args.len()
        == blocks[t.0 as int].params.len()
}

// ---------------------------------------------------------------------------
// Entry
// ---------------------------------------------------------------------------

/// Whether the second state is the first one with the table beside it, the key
/// aside.
spec fn beside_rows<V, W, H: IrHashAlgorithm>(
    m: Machine<V, W>,
    st: IrState<V, W>,
    st2: IrState<V, W>,
    p: IrPlan<H>,
) -> bool {
    &&& st.world == st2.world
    &&& forall|s: StorageId, ty: IRTypeId, a: nat|
        !in_table(p, s) ==> #[trigger] (st.cells)(s, ty, a) == (st2.cells)(s, ty, a)
    &&& holds_table(m, st2.cells, p)
}

/// The values of the words of a key.
pub open spec fn key_values<V, W>(m: Machine<V, W>, key: Seq<(Constant, IRTypeId)>) -> Seq<V> {
    key.map_values(|k: (Constant, IRTypeId)| (m.constant)(k.0, k.1))
}

/// The writes of the setup block store the first `n` words of the key.
#[verifier::rlimit(90)]
proof fn lemma_key_writes<V, W, H: IrHashAlgorithm>(
    m: Machine<V, W>,
    p: IrPlan<H>,
    c: Check<H>,
    storage: StorageId,
    n: nat,
    env: Seq<V>,
    st: IrState<V, W>,
    st2: IrState<V, W>,
)
    requires
        ready(p),
        numbers(m, p.frame.addr_ty, p.frame.bit_ty),
        p.check == Some(c),
        c.key_storage == Some(storage),
        n <= p.key.len() <= env.len(),
        env.len() + 2 * p.key.len() <= u32::MAX,
        forall|k: int|
            0 <= k < p.key.len() ==> #[trigger] env[k] == (m.constant)(p.key[k], c.key_tys[k]),
        beside_rows(m, st, st2, p),
    ensures
        ({
            let (e, s) = run_stmts(
                m,
                key_writes(storage, c.key_tys, p.frame.addr_ty, env.len(), n),
                env,
                st2,
            );
            &&& e.len() == env.len() + 2 * n
            &&& forall|k: int| 0 <= k < env.len() ==> e[k] == #[trigger] env[k]
            &&& beside_rows(m, st, s, p)
            &&& forall|k: int|
                0 <= k < n ==> #[trigger] (s.cells)(storage, c.key_tys[k], k as nat) == (
                m.constant)(p.key[k], c.key_tys[k])
        }),
    decreases n,
{
    lemma_bounds(p);
    if n > 0 {
        let k = (n - 1) as nat;
        lemma_key_writes(m, p, c, storage, k, env, st, st2);
        let before = key_writes(storage, c.key_tys, p.frame.addr_ty, env.len(), k);
        let (e, s) = run_stmts(m, before, env, st2);
        let ty = c.key_tys[k as int];
        let x = StmtView::Const(constant_of(k as u32), p.frame.addr_ty);
        let y = StmtView::StorageWrite {
            storage,
            src: IRVarId(k as u32),
            ty,
            addr: IRVarId((env.len() + 2 * k) as u32),
        };
        lemma_run_push(m, before, x, env, st2);
        lemma_run_push(m, before.push(x), y, env, st2);
        let reg = (m.constant)(constant_of(k as u32), p.frame.addr_ty);
        let e1 = e.push(reg);
        assert(run_stmts(m, before.push(x), env, st2) == (e1, s));
        let v = (m.constant)(p.key[k as int], ty);
        assert(at(IRVarId(k as u32), e1) == env[k as int]);
        assert(at(IRVarId((env.len() + 2 * k) as u32), e1) == reg);
        let s1 = IrState { cells: stored(s.cells, storage, ty, k, v), ..s };
        assert(run_stmts(m, before.push(x).push(y), env, st2) == (e1.push(m.unit), s1));
        assert(in_check(p, storage));
        lemma_table_kept(m, s.cells, p, storage, ty, k, v);
        assert forall|w: StorageId, t: IRTypeId, z: nat| !in_table(p, w) implies #[trigger] (
        st.cells)(w, t, z) == (s1.cells)(w, t, z) by {
            assert((st.cells)(w, t, z) == (s.cells)(w, t, z));
        }
        assert forall|q: int| 0 <= q < n implies #[trigger] (s1.cells)(
            storage,
            c.key_tys[q],
            q as nat,
        ) == (m.constant)(p.key[q], c.key_tys[q]) by {
            if q < k {
                assert((s.cells)(storage, c.key_tys[q], q as nat) == (m.constant)(
                    p.key[q],
                    c.key_tys[q],
                ));
            }
        }
    }
}

/// A state in which the first `n` inputs are in the registers of the entry
/// block.
spec fn inputs_stored<V, W, H: IrHashAlgorithm>(
    p: IrPlan<H>,
    inputs: Seq<V>,
    s: IrState<V, W>,
    n: int,
) -> bool {
    let entry = p.blocks[0].params;
    forall|k: int|
        0 <= k < n ==> (s.cells)(
            row_frame(p, 0).reg(#[trigger] entry[k]),
            entry[k],
            register_index(entry, k) as nat,
        ) == inputs[k]
}

/// One more input is put into its register.
proof fn lemma_input_stored<V, W, H: IrHashAlgorithm>(
    m: Machine<V, W>,
    p: IrPlan<H>,
    k: int,
    inputs: Seq<V>,
    st: IrState<V, W>,
    s: IrState<V, W>,
)
    requires
        ready(p),
        inputs.len() == p.blocks[0].params.len(),
        0 <= k < inputs.len(),
        beside_table(m, st, s, p),
        inputs_stored(p, inputs, s, k),
    ensures
        ({
            let ty = p.blocks[0].params[k];
            let idx = register_index(p.blocks[0].params, k);
            let c = stored(s.cells, row_frame(p, 0).reg(ty), ty, idx as nat, inputs[k]);
            let s1 = IrState { cells: c, ..s };
            &&& beside_table(m, st, s1, p)
            &&& inputs_stored(p, inputs, s1, k + 1)
        }),
{
    let f = p.frame;
    let r = row_frame(p, 0);
    let entry = p.blocks[0].params;
    let ty = entry[k];
    let idx = register_index(entry, k);
    let v = inputs[k];
    let s1 = IrState { cells: stored(s.cells, r.reg(ty), ty, idx as nat, v), ..s };
    lemma_bounds(p);
    assert(f.file.contains(ty)) by {
        reveal(ready);
        assert(p.blocks[0].params[k] == ty);
    }
    law_register_storages_distinct(f.file, f.base, ty, ty);
    assert(in_table(p, r.reg(ty)));
    lemma_table_kept(m, s.cells, p, r.reg(ty), ty, idx as nat, v);
    assert forall|q: int| 0 <= q < k + 1 implies (s1.cells)(
        r.reg(#[trigger] entry[q]),
        entry[q],
        register_index(entry, q) as nat,
    ) == inputs[q] by {
        if q < k {
            law_registers_distinct(entry, q, k);
            assert(registers(entry)[q].idx == register_index(entry, q));
        }
    }
    assert forall|w: StorageId, t: IRTypeId, z: nat| !in_table(p, w) implies #[trigger] (
    st.cells)(w, t, z) == (s1.cells)(w, t, z) by {
        assert((st.cells)(w, t, z) == (s.cells)(w, t, z));
    }
}

/// The writes of the setup block put the inputs, which stand behind `n_key`
/// values, into the registers of the entry block.
#[verifier::rlimit(40)]
proof fn lemma_entry_writes<V, W, H: IrHashAlgorithm>(
    m: Machine<V, W>,
    p: IrPlan<H>,
    n: nat,
    n_key: nat,
    env: Seq<V>,
    inputs: Seq<V>,
    st: IrState<V, W>,
    st2: IrState<V, W>,
)
    requires
        ready(p),
        numbers(m, p.frame.addr_ty, p.frame.bit_ty),
        inputs.len() == p.blocks[0].params.len(),
        n <= inputs.len(),
        n_key + inputs.len() <= env.len(),
        env.len() + 2 * inputs.len() <= u32::MAX,
        forall|k: int| 0 <= k < inputs.len() ==> #[trigger] inputs[k] == env[n_key + k],
        beside_table(m, st, st2, p),
    ensures
        ({
            let f = p.frame;
            let entry = p.blocks[0].params;
            let (e, s) = run_stmts(
                m,
                entry_writes(entry, f.file, f.base, f.addr_ty, n_key, env.len(), n),
                env,
                st2,
            );
            &&& e.len() == env.len() + 2 * n
            &&& forall|k: int| 0 <= k < env.len() ==> e[k] == #[trigger] env[k]
            &&& beside_table(m, st, s, p)
            &&& inputs_stored(p, inputs, s, n as int)
        }),
    decreases n,
{
    let f = p.frame;
    let r = row_frame(p, 0);
    let entry = p.blocks[0].params;
    lemma_bounds(p);
    if n > 0 {
        let k = (n - 1) as nat;
        lemma_entry_writes(m, p, k, n_key, env, inputs, st, st2);
        let before = entry_writes(entry, f.file, f.base, f.addr_ty, n_key, env.len(), k);
        let (e, s) = run_stmts(m, before, env, st2);
        let ty = entry[k as int];
        let idx = register_index(entry, k as int);
        let x = StmtView::Const(constant_of(idx), f.addr_ty);
        let y = StmtView::StorageWrite {
            storage: r.reg(ty),
            src: IRVarId((n_key + n - 1) as u32),
            ty,
            addr: IRVarId((env.len() + 2 * (n - 1)) as u32),
        };
        lemma_run_push(m, before, x, env, st2);
        lemma_run_push(m, before.push(x), y, env, st2);
        let reg = (m.constant)(constant_of(idx), f.addr_ty);
        let e1 = e.push(reg);
        assert(run_stmts(m, before.push(x), env, st2) == (e1, s));
        let v = inputs[k as int];
        assert(at(IRVarId((n_key + n - 1) as u32), e1) == env[n_key + k as int]);
        assert(at(IRVarId((env.len() + 2 * (n - 1)) as u32), e1) == reg);
        let c = stored(s.cells, r.reg(ty), ty, idx as nat, v);
        let s1 = IrState { cells: c, ..s };
        assert(run_stmts(m, before.push(x).push(y), env, st2) == (e1.push(m.unit), s1));
        lemma_input_stored(m, p, k as int, inputs, st, s);
    }
}

/// The words of the key, as values.
spec fn key_of<V, W, H: IrHashAlgorithm>(m: Machine<V, W>, p: IrPlan<H>) -> Seq<V> {
    Seq::new(p.key.len(), |k: int| (m.constant)(p.key[k], key_params(p.check)[k]))
}

/// The writes of the setup block: the key is stored and the inputs are in
/// registers.
proof fn lemma_setup_writes<V, W, H: IrHashAlgorithm>(
    m: Machine<V, W>,
    p: IrPlan<H>,
    inputs: Seq<V>,
    st: IrState<V, W>,
    st2: IrState<V, W>,
)
    requires
        ready(p),
        numbers(m, p.frame.addr_ty, p.frame.bit_ty),
        inputs.len() == p.blocks[0].params.len(),
        beside_rows(m, st, st2, p),
    ensures
        ({
            let f = p.frame;
            let entry = p.blocks[0].params;
            let args = key_of(m, p) + inputs;
            let keys = setup_key_writes(p.check, f.addr_ty, args.len());
            let writes = keys + entry_writes(
                entry,
                f.file,
                f.base,
                f.addr_ty,
                p.key.len(),
                args.len() + keys.len(),
                entry.len(),
            );
            let (e, s) = run_stmts(m, writes, args, st2);
            &&& e.len() == args.len() + writes.len()
            &&& e.len() <= 3 * args.len()
            &&& beside_table(m, st, s, p)
            &&& in_registers(s.cells, row_frame(p, 0), entry, inputs)
        }),
{
    let f = p.frame;
    let entry = p.blocks[0].params;
    lemma_bounds(p);
    let args = key_of(m, p) + inputs;
    let keys = setup_key_writes(p.check, f.addr_ty, args.len());
    let (e0, s0) = run_stmts(m, keys, args, st2);
    lemma_run_length(m, keys, args, st2);
    if p.check is Some && p.check->0.key_storage is Some {
        let c = p.check->0;
        let storage = c.key_storage->0;
        assert forall|k: int| 0 <= k < p.key.len() implies #[trigger] args[k] == (m.constant)(
            p.key[k],
            c.key_tys[k],
        ) by {}
        lemma_key_writes(m, p, c, storage, p.key.len(), args, st, st2);
        crate::virt::module::lemma_key_writes_len(
            storage,
            c.key_tys,
            f.addr_ty,
            args.len(),
            p.key.len(),
        );
        assert(holds_key(m, s0.cells, p));
    } else {
        assert(keys =~= Seq::empty());
        assert(p.key.len() == 0);
    }
    assert(beside_table(m, st, s0, p));
    assert forall|k: int| 0 <= k < inputs.len() implies #[trigger] inputs[k] == e0[p.key.len()
        + k] by {
        assert(args[p.key.len() + k] == inputs[k]);
        assert(e0[p.key.len() + k] == args[p.key.len() + k]);
    }
    lemma_entry_writes(m, p, entry.len(), p.key.len(), e0, inputs, st, s0);
    let rest = entry_writes(
        entry,
        f.file,
        f.base,
        f.addr_ty,
        p.key.len(),
        args.len() + keys.len(),
        entry.len(),
    );
    lemma_run_both(m, keys, rest, args, st2);
    crate::virt::module::lemma_entry_writes_len(
        entry,
        f.file,
        f.base,
        f.addr_ty,
        p.key.len(),
        args.len() + keys.len(),
        entry.len(),
    );
    let s = run_stmts(m, rest, e0, s0).1;
    assert(in_registers(s.cells, row_frame(p, 0), entry, inputs)) by {
        assert forall|k: int| 0 <= k < entry.len() implies #[trigger] inputs[k] == (s.cells)(
            row_frame(p, 0).reg(entry[k]),
            entry[k],
            register_index(entry, k) as nat,
        ) by {
            assert((s.cells)(
                row_frame(p, 0).reg(entry[k]),
                entry[k],
                register_index(entry, k) as nat,
            ) == inputs[k]);
        }
    }
}

/// The setup block, which takes the key and the inputs, leads to the handler of
/// the entry block, with the inputs in its registers.
#[verifier::rlimit(90)]
proof fn lemma_setup<V, W, H: IrHashAlgorithm>(
    m: Machine<V, W>,
    p: IrPlan<H>,
    inputs: Seq<V>,
    st: IrState<V, W>,
    st2: IrState<V, W>,
) -> (s: IrState<V, W>)
    requires
        ready(p),
        numbers(m, p.frame.addr_ty, p.frame.bit_ty),
        inputs.len() == p.blocks[0].params.len(),
        beside_rows(m, st, st2, p),
    ensures
        beside_table(m, st, s, p),
        in_registers(s.cells, row_frame(p, 0), p.blocks[0].params, inputs),
        forall|fuel: nat| #[trigger]
            run(m, virtual_blocks(p), 0, key_of(m, p) + inputs, st2, fuel + 3) == run(
                m,
                virtual_blocks(p),
                p.frame.first_handler() + plan_rows(p)[0] as int,
                seq![(m.constant)(constant_of(0), p.frame.addr_ty)],
                s,
                if p.frame.direct {
                    fuel + 1
                } else {
                    fuel
                },
            ),
{
    let f = p.frame;
    let entry = p.blocks[0].params;
    let vb = virtual_blocks(p);
    let args = key_of(m, p) + inputs;
    lemma_bounds(p);
    lemma_row(p, 0);
    lemma_places(p, 0);
    lemma_setup_writes(m, p, inputs, st, st2);
    let frame = f.with_slots(p.keys.len(), Seq::empty());
    let block = setup_block(frame, entry, p.check);
    assert(vb[0] == block);
    let keys = setup_key_writes(p.check, f.addr_ty, args.len());
    let writes = keys + entry_writes(
        entry,
        f.file,
        f.base,
        f.addr_ty,
        p.key.len(),
        args.len() + keys.len(),
        entry.len(),
    );
    let n = args.len() + writes.len();
    let (e, s) = run_stmts(m, writes, args, st2);
    let x = StmtView::Const(constant_of(0), f.addr_ty);
    lemma_run_push(m, writes, x, args, st2);
    let pc = (m.constant)(constant_of(0), f.addr_ty);
    let e1 = e.push(pc);
    let vpc = IRVarId(n as u32);
    assert(at(vpc, e1) == pc);
    if f.direct {
        assert(block.stmts =~= writes.push(x));
        let out = arms(block.terminator)[0];
        assert(out.args =~= seq![vpc]);
        assert(at_all(out.args, e1) =~= seq![pc]);
        assert(run_block(m, block, args, st2) == (
            Exit::Block(IRBlockId(DD_INIT_DISPATCH_BID), seq![pc]),
            s,
        ));
        assert forall|fuel: nat| #[trigger] run(m, vb, 0, args, st2, fuel + 3) == run(
            m,
            vb,
            f.first_handler() + plan_rows(p)[0] as int,
            seq![pc],
            s,
            fuel + 1,
        ) by {
            lemma_dispatch(m, p, DD_INIT_DISPATCH_BID as int, pc, 0, s, fuel + 1);
            lemma_one(
                m,
                vb,
                0,
                args,
                st2,
                IRBlockId(DD_INIT_DISPATCH_BID),
                seq![pc],
                s,
                fuel + 2,
            );
        }
    } else {
        let y = StmtView::Const(constant_of_bit(false), f.bit_ty);
        lemma_run_push(m, writes.push(x), y, args, st2);
        let done = (m.constant)(constant_of_bit(false), f.bit_ty);
        let e2 = e1.push(done);
        assert(block.stmts =~= writes.push(x).push(y));
        let vdone = IRVarId((n + 1) as u32);
        let out = arms(block.terminator)[0];
        assert(out.args =~= seq![vpc, vdone]);
        assert(at_all(out.args, e2) =~= seq![pc, done]);
        assert(run_block(m, block, args, st2) == (
            Exit::Block(IRBlockId(DISPATCHER_BID), seq![pc, done]),
            s,
        ));
        assert forall|fuel: nat| #[trigger] run(m, vb, 0, args, st2, fuel + 3) == run(
            m,
            vb,
            f.first_handler() + plan_rows(p)[0] as int,
            seq![pc],
            s,
            fuel,
        ) by {
            lemma_dispatch(m, p, DISPATCH_BID as int, pc, 0, s, fuel);
            lemma_dispatcher(m, p, pc, done, s, fuel + 1);
            lemma_one(
                m,
                vb,
                0,
                args,
                st2,
                IRBlockId(DISPATCHER_BID),
                seq![pc, done],
                s,
                fuel + 2,
            );
        }
    }
    s
}

// ---------------------------------------------------------------------------
// The table at the start
// ---------------------------------------------------------------------------

/// The lanes of the handler indices and of the first `n` handlers.
spec fn lanes_of<H>(p: IrPlan<H>, n: int) -> Seq<PreInitView> {
    table_lanes(
        p.keys,
        p.frame.addr_ty,
        p.frame.bit_ty,
        p.frame.bytecode,
        plan_rows(p),
        table_values(p.blocks, p.types),
        n,
    )
}

/// Whether lane `t` of a list is the one of storage `t` of the table, and
/// covers the rows.
spec fn lane_at<H>(p: IrPlan<H>, lanes: Seq<PreInitView>, t: int) -> bool {
    let x = lanes[t];
    &&& x.storage.0 == p.frame.bytecode.0 + t
    &&& x.offset == 0
    &&& x.data.len() == p.blocks.len()
}

/// Whether a list holds the lane of slot `s` of handler `h`.
spec fn slot_at<H>(p: IrPlan<H>, lanes: Seq<PreInitView>, h: int, s: int) -> bool {
    let f = p.frame;
    let t = 1 + slots_width(p.keys.take(h), f.addr_ty, f.bit_ty) + s;
    &&& 0 <= t < lanes.len()
    &&& lanes[t].ty == handler_slots(p.keys[h], f.addr_ty, f.bit_ty)[s].ty
    &&& lanes[t].data == slot_lane(plan_rows(p), table_values(p.blocks, p.types), h, s)
}

/// What the lanes of the handler indices and of the first `n` handlers hold.
#[verifier::rlimit(90)]
proof fn lemma_lanes<H>(p: IrPlan<H>, n: int)
    requires
        0 <= n <= p.keys.len(),
        storage_behind(p.keys, p.frame.addr_ty, p.frame.bit_ty, p.frame.bytecode) <= u32::MAX,
    ensures
        lanes_of(p, n).len() == 1 + slots_width(
            p.keys.take(n),
            p.frame.addr_ty,
            p.frame.bit_ty,
        ),
        forall|t: int| 0 <= t < lanes_of(p, n).len() ==> #[trigger] lane_at(p, lanes_of(p, n), t),
        lanes_of(p, n)[0].ty == p.frame.addr_ty,
        forall|pc: int|
            0 <= pc < p.blocks.len() ==> #[trigger] lanes_of(p, n)[0].data[pc] == constant_of(
                plan_rows(p)[pc],
            ),
        forall|h: int, s: int|
            0 <= h < n && 0 <= s < handler_slots(
                p.keys[h],
                p.frame.addr_ty,
                p.frame.bit_ty,
            ).len() ==> #[trigger] slot_at(p, lanes_of(p, n), h, s),
    decreases n,
{
    let f = p.frame;
    let ls = lanes_of(p, n);
    if n == 0 {
        assert(p.keys.take(0) =~= Seq::empty());
    } else {
        let g = n - 1;
        lemma_lanes(p, g);
        let before = lanes_of(p, g);
        let slots = handler_slots(p.keys[g], f.addr_ty, f.bit_ty);
        let own = handler_lanes(
            p.keys,
            f.addr_ty,
            f.bit_ty,
            f.bytecode,
            plan_rows(p),
            table_values(p.blocks, p.types),
            g,
        );
        assert(ls == before + own);
        assert(p.keys.take(n).drop_last() =~= p.keys.take(g));
        assert(p.keys.take(n).last() == p.keys[g]);
        lemma_slots_width_take(p.keys, f.addr_ty, f.bit_ty, g, p.keys.len() as int);
        assert(p.keys.take(p.keys.len() as int) =~= p.keys);
        assert(own.len() == slots.len());
        assert forall|t: int| 0 <= t < ls.len() implies #[trigger] lane_at(p, ls, t) by {
            if t < before.len() {
                assert(lane_at(p, before, t));
                assert(ls[t] == before[t]);
            } else {
                let s = t - before.len();
                assert(ls[t] == own[s]);
                assert(own[s].storage == slot_storages(
                    p.keys,
                    f.addr_ty,
                    f.bit_ty,
                    f.bytecode,
                    g,
                )[s]);
            }
        }
        assert(ls[0] == before[0]);
        assert forall|h: int, s: int|
            0 <= h < n && 0 <= s < handler_slots(
                p.keys[h],
                f.addr_ty,
                f.bit_ty,
            ).len() implies #[trigger] slot_at(p, ls, h, s) by {
            let t = 1 + slots_width(p.keys.take(h), f.addr_ty, f.bit_ty) + s;
            if h < g {
                assert(slot_at(p, before, h, s));
                assert(ls[t] == before[t]);
            } else {
                assert(t == before.len() + s);
                assert(ls[t] == own[s]);
            }
        }
    }
}

/// A cell behind the first `n` lanes of a table: the value of its lane, or what
/// was there before.
proof fn lemma_cell<V, W, H>(
    m: Machine<V, W>,
    p: IrPlan<H>,
    before: Seq<PreInitView>,
    lanes: Seq<PreInitView>,
    n: int,
    s: StorageId,
    ty: IRTypeId,
    a: nat,
)
    requires
        0 <= n <= lanes.len(),
        forall|t: int| 0 <= t < lanes.len() ==> #[trigger] lane_at(p, lanes, t),
    ensures
        ({
            let t = s.0 - p.frame.bytecode.0;
            let got = initial_cell(m, before + lanes.take(n), s, ty, a);
            &&& 0 <= t < n && ty == lanes[t].ty && a < p.blocks.len() ==> got == (m.constant)(
                lanes[t].data[a as int],
                ty,
            )
            &&& !(0 <= t < n) ==> got == initial_cell(m, before, s, ty, a)
        }),
    decreases n,
{
    let segs = before + lanes.take(n);
    if n == 0 {
        assert(segs =~= before);
    } else {
        lemma_cell(m, p, before, lanes, n - 1, s, ty, a);
        assert(lane_at(p, lanes, n - 1));
        assert(segs.last() == lanes[n - 1]);
        assert(segs.drop_last() =~= before + lanes.take(n - 1));
    }
}

/// A segment put between others, where none behind it is of its storage.
proof fn lemma_cell_between<V, W>(
    m: Machine<V, W>,
    before: Seq<PreInitView>,
    x: PreInitView,
    behind: Seq<PreInitView>,
    s: StorageId,
    ty: IRTypeId,
    a: nat,
)
    requires
        forall|t: int| 0 <= t < behind.len() ==> (#[trigger] behind[t]).storage != x.storage,
    ensures
        s != x.storage ==> initial_cell(m, before.push(x) + behind, s, ty, a) == initial_cell(
            m,
            before + behind,
            s,
            ty,
            a,
        ),
        s == x.storage && ty == x.ty && x.offset <= a < x.offset + x.data.len() ==> initial_cell(
            m,
            before.push(x) + behind,
            s,
            ty,
            a,
        ) == (m.constant)(x.data[a - x.offset], ty),
    decreases behind.len(),
{
    let with = before.push(x) + behind;
    let without = before + behind;
    if behind.len() == 0 {
        assert(with =~= before.push(x));
        assert(without =~= before);
        assert(with.last() == x);
        assert(with.drop_last() =~= before);
    } else {
        let less = behind.drop_last();
        assert forall|t: int| 0 <= t < less.len() implies (#[trigger] less[t]).storage
            != x.storage by {
            assert(less[t] == behind[t]);
        }
        lemma_cell_between(m, before, x, less, s, ty, a);
        assert(with.last() == behind.last());
        assert(without.last() == behind.last());
        assert(with.drop_last() =~= before.push(x) + less);
        assert(without.drop_last() =~= before + less);
        assert(behind[behind.len() - 1].storage != x.storage);
    }
}

/// Where a lane is put among those of other storages.
proof fn lemma_lane_place(lanes: Seq<PreInitView>, x: PreInitView) -> (k: int)
    requires
        forall|t: int| 0 <= t < lanes.len() ==> (#[trigger] lanes[t]).storage != x.storage,
    ensures
        0 <= k <= lanes.len(),
        with_lane(lanes, x) == lanes.take(k).push(x) + lanes.skip(k),
    decreases lanes.len(),
{
    if lanes.len() == 0 {
        assert(with_lane(lanes, x) =~= lanes.take(0).push(x) + lanes.skip(0));
        0
    } else {
        let rest = lanes.drop_first();
        assert(lanes[0].storage != x.storage);
        if x.storage.0 < lanes[0].storage.0 {
            assert(with_lane(lanes, x) =~= lanes.take(0).push(x) + lanes.skip(0));
            0
        } else {
            assert forall|t: int| 0 <= t < rest.len() implies (#[trigger] rest[t]).storage
                != x.storage by {
                assert(rest[t] == lanes[t + 1]);
            }
            let k = lemma_lane_place(rest, x);
            assert(seq![lanes[0]] + with_lane(rest, x) =~= lanes.take(k + 1).push(x) + lanes.skip(
                k + 1,
            ));
            k + 1
        }
    }
}

/// A cell of the initial storage with the hashes of rows: their lane, or what
/// stands there without it.
proof fn lemma_hash_cell<V, W, H: IrHashAlgorithm>(
    m: Machine<V, W>,
    p: IrPlan<H>,
    before: Seq<PreInitView>,
    x: PreInitView,
    s: StorageId,
    ty: IRTypeId,
    a: nat,
)
    requires
        ready(p),
        !in_rows(p, x.storage),
    ensures
        ({
            let lanes = lanes_of(p, p.keys.len() as int);
            let got = initial_cell(m, before + with_lane(lanes, x), s, ty, a);
            &&& s != x.storage ==> got == initial_cell(m, before + lanes, s, ty, a)
            &&& s == x.storage && ty == x.ty && x.offset <= a < x.offset + x.data.len() ==> got == (
            m.constant)(x.data[a - x.offset], ty)
        }),
{
    let n = p.keys.len() as int;
    let lanes = lanes_of(p, n);
    lemma_bounds(p);
    assert(storage_behind(p.keys, p.frame.addr_ty, p.frame.bit_ty, p.frame.bytecode)
        == p.frame.base) by {
        reveal(ready);
    }
    lemma_lanes(p, n);
    assert(p.keys.take(n) =~= p.keys);
    assert forall|t: int| 0 <= t < lanes.len() implies (#[trigger] lanes[t]).storage
        != x.storage by {
        assert(lane_at(p, lanes, t));
    }
    let k = lemma_lane_place(lanes, x);
    let front = before + lanes.take(k);
    let behind = lanes.skip(k);
    assert forall|t: int| 0 <= t < behind.len() implies (#[trigger] behind[t]).storage
        != x.storage by {
        assert(behind[t] == lanes[k + t]);
    }
    lemma_cell_between(m, front, x, behind, s, ty, a);
    assert(before + with_lane(lanes, x) =~= front.push(x) + behind);
    assert(before + lanes =~= front + behind);
}

/// The table stands in the initial storage of the virtual program, beside that
/// of the program.
#[verifier::rlimit(90)]
proof fn lemma_starts_beside<V, W, H: IrHashAlgorithm>(
    m: Machine<V, W>,
    p: IrPlan<H>,
    before: Seq<PreInitView>,
    hashes: Option<PreInitView>,
    world: W,
)
    requires
        ready(p),
        hashes is Some == p.check is Some,
        hashes matches Some(x) ==> {
            &&& x.storage == p.check->0.storage
            &&& x.ty == p.check->0.hash_ty
            &&& x.offset == 0
            &&& x.data.len() == p.blocks.len()
            &&& forall|i: int|
                0 <= i < p.blocks.len() ==> #[trigger] x.data[i] == constant_of_bytes(
                    row_digest(p, p.check->0, i),
                )
        },
    ensures
        ({
            let lanes = lanes_of(p, p.keys.len() as int);
            let all = match hashes {
                Some(x) => with_lane(lanes, x),
                None => lanes,
            };
            beside_rows(
                m,
                IrState { cells: initial_cells(m, before), world },
                IrState { cells: initial_cells(m, before + all), world },
                p,
            )
        }),
{
    let f = p.frame;
    let n = p.keys.len() as int;
    let lanes = lanes_of(p, n);
    let all = match hashes {
        Some(x) => with_lane(lanes, x),
        None => lanes,
    };
    lemma_bounds(p);
    assert(storage_behind(p.keys, f.addr_ty, f.bit_ty, f.bytecode) == f.base) by {
        reveal(ready);
    }
    lemma_lanes(p, n);
    assert(p.keys.take(n) =~= p.keys);
    let len = lanes.len() as int;
    assert(lanes.take(len) =~= lanes);
    let cells = initial_cells(m, before);
    let cells2 = initial_cells(m, before + all);
    assert forall|s: StorageId, ty: IRTypeId, a: nat| !in_table(p, s) implies #[trigger] cells(
        s,
        ty,
        a,
    ) == cells2(s, ty, a) by {
        lemma_cell(m, p, before, lanes, len, s, ty, a);
        if hashes is Some {
            lemma_hash_cell(m, p, before, hashes->0, s, ty, a);
        }
    }
    assert forall|i: int| 0 <= i < p.blocks.len() implies #[trigger] holds_row(
        m,
        cells2,
        p,
        i,
    ) by {
        lemma_row(p, i);
        let h = plan_rows(p)[i] as int;
        lemma_cell(m, p, before, lanes, len, f.bytecode, f.addr_ty, i as nat);
        if hashes is Some {
            lemma_hash_cell(m, p, before, hashes->0, f.bytecode, f.addr_ty, i as nat);
            lemma_hash_cell(
                m,
                p,
                before,
                hashes->0,
                hashes->0.storage,
                hashes->0.ty,
                i as nat,
            );
            assert(hashes->0.data[i] == constant_of_bytes(row_digest(p, p.check->0, i)));
        }
        assert(lanes[0].data[i] == constant_of(plan_rows(p)[i]));
        lemma_key_slots(p.blocks[i], f.addr_ty, f.bit_ty);
        assert forall|s: int| 0 <= s < row_slots(p, i).len() implies #[trigger] holds_slot(
            m,
            cells2,
            p,
            i,
            s,
        ) by {
            lemma_slot_storage(p, i, s);
            assert(slot_at(p, lanes, h, s));
            let storage = row_frame(p, i).slots[s];
            lemma_cell(m, p, before, lanes, len, storage, row_slots(p, i)[s].ty, i as nat);
            if hashes is Some {
                lemma_hash_cell(
                    m,
                    p,
                    before,
                    hashes->0,
                    storage,
                    row_slots(p, i)[s].ty,
                    i as nat,
                );
            }
            assert(table_values(p.blocks, p.types)[i] == slot_values(
                p.blocks[i],
                p.blocks,
                p.types,
            ));
        }
    }
}

// ---------------------------------------------------------------------------
// Hashes of rows
// ---------------------------------------------------------------------------

/// An interned type is where its index says, and others stay.
proof fn lemma_interned(types: Seq<IrTypeView>, ty: IrTypeView)
    ensures
        0 <= interned_index(types, ty) < interned(types, ty).len(),
        interned(types, ty)[interned_index(types, ty)] == ty,
        types.len() <= interned(types, ty).len(),
        forall|i: int| 0 <= i < types.len() ==> #[trigger] types[i] == interned(types, ty)[i],
{
    if types.contains(ty) {
        types.index_of_first_ensures(ty);
    }
}

/// The same for a list of types.
proof fn lemma_interned_all(types: Seq<IrTypeView>, ts: Seq<IrTypeView>)
    requires
        interned_all(types, ts).len() <= u32::MAX,
    ensures
        interned_ids(types, ts).len() == ts.len(),
        types.len() <= interned_all(types, ts).len(),
        forall|i: int| 0 <= i < types.len() ==> #[trigger] types[i] == interned_all(types, ts)[i],
        forall|k: int|
            0 <= k < ts.len() ==> {
                let id = (#[trigger] interned_ids(types, ts)[k]).0 as int;
                id < interned_all(types, ts).len() && interned_all(types, ts)[id] == ts[k]
            },
    decreases ts.len(),
{
    if ts.len() > 0 {
        let before = interned_all(types, ts.drop_last());
        lemma_interned(before, ts.last());
        lemma_interned_all(types, ts.drop_last());
        let ids = interned_ids(types, ts);
        let all = interned_all(types, ts);
        assert forall|k: int| 0 <= k < ts.len() implies ({
            let id = (#[trigger] ids[k]).0 as int;
            id < all.len() && all[id] == ts[k]
        }) by {
            if k < ts.len() - 1 {
                let id = interned_ids(types, ts.drop_last())[k].0 as int;
                assert(before[id] == ts.drop_last()[k]);
                assert(before[id] == all[id]);
            }
        }
        assert forall|i: int| 0 <= i < types.len() implies #[trigger] types[i] == all[i] by {
            assert(types[i] == before[i]);
        }
    }
}

/// What is hashed of a row is the row.
proof fn lemma_row_hash<H: IrHashAlgorithm>(
    blocks: Seq<IRBlockView>,
    types: Seq<IrTypeView>,
    bytecode: StorageId,
    direct: bool,
    c: CommitmentConfig<H>,
    p: IrPlan<H>,
    i: int,
)
    requires
        p == plan_of(blocks, types, bytecode, direct, Some(c)),
        commitment_ready(c),
        p.types.len() <= u32::MAX,
    ensures
        p.key.len() == key_params(p.check).len(),
        row_hash(p, c, i) == constant_of_bytes(row_digest(p, p.check->0, i)),
{
    let k = p.check->0;
    let t1 = interned(types, addr_view());
    let t2 = with_addr_and_bit(types);
    let t3 = interned_all(t2, c.algorithm.key_types());
    lemma_interned(types, addr_view());
    lemma_interned(t1, bit_view());
    lemma_interned(t3, c.algorithm.output_type());
    lemma_interned_all(t2, c.algorithm.key_types());
    let a = interned_index(types, addr_view());
    assert(t1[a] == t2[a]);
    assert(t2[a] == t3[a]);
    assert(t3[a] == p.types[a]);
    assert(p.types[p.frame.addr_ty.0 as int] == addr_view());
    let slots = row_slots(p, i);
    let values = slot_values(p.blocks[i], p.blocks, p.types);
    let key_bytes = Seq::new(
        p.key.len(),
        |x: int| constant_bytes(p.key[x], p.types[k.key_tys[x].0 as int]),
    );
    assert(key_bytes =~= key_words(c)) by {
        assert forall|x: int| 0 <= x < p.key.len() implies key_bytes[x] == key_words(c)[x] by {
            let id = k.key_tys[x].0 as int;
            assert(t3[id] == c.algorithm.key_types()[x]);
            assert(t3[id] == p.types[id]);
        }
    }
    let row_bytes = seq![
        constant_bytes(constant_of(plan_rows(p)[i]), p.types[p.frame.addr_ty.0 as int]),
    ] + Seq::new(
        slots.len(),
        |s: int| constant_bytes(values[s], p.types[slots[s].ty.0 as int]),
    );
    assert(row_bytes =~= row_words(plan_rows(p)[i], slots, values, p.types));
}

// ---------------------------------------------------------------------------
// The law
// ---------------------------------------------------------------------------

/// What is known of a virtualisation that is ready.
proof fn lemma_ready<H: IrHashAlgorithm>(
    prog: IRBlocksView,
    blocks: Seq<IRBlockView>,
    types: Seq<IrTypeView>,
    bytecode: StorageId,
    direct: bool,
    commitment: Option<CommitmentConfig<H>>,
    p: IrPlan<H>,
)
    requires
        p == plan_of(blocks, types, bytecode, direct, commitment),
        plan_ready(prog, p, commitment),
        check_apart(p),
        branches_typed(p.blocks, p.types),
        keeps_off(p.blocks, p),
    ensures
        ready(p),
{
    if commitment is Some {
        lemma_row_hash(blocks, types, bytecode, direct, commitment->0, p, 0);
    }
    reveal(ready);
}

/// A virtual program returns what the blocks that it was made of return, for
/// the key and the same inputs.
proof fn lemma_plan_runs<V, W, H: IrHashAlgorithm>(
    m: Machine<V, W>,
    prog: IRBlocksView,
    blocks: Seq<IRBlockView>,
    types: Seq<IrTypeView>,
    bytecode: StorageId,
    direct: bool,
    commitment: Option<CommitmentConfig<H>>,
    p: IrPlan<H>,
    inputs: Seq<V>,
    world: W,
    fuel: nat,
)
    requires
        p == plan_of(blocks, types, bytecode, direct, commitment),
        plan_ready(prog, p, commitment),
        adds_up(m),
        numbers(m, p.frame.addr_ty, p.frame.bit_ty),
        checkable(m, p),
        check_apart(p),
        branches_typed(p.blocks, p.types),
        keeps_off(p.blocks, p),
        inputs.len() == p.blocks[0].params.len(),
        results(m, IRBlocksView { blocks: p.blocks, ..prog }, inputs, world, fuel) is Some,
    ensures
        exists|fuel2: nat| #[trigger]
            results(
                m,
                virtual_module(prog, p, commitment),
                key_values(m, plan_key_params(p, commitment)) + inputs,
                world,
                fuel2,
            ) == results(m, IRBlocksView { blocks: p.blocks, ..prog }, inputs, world, fuel),
{
    let virt = virtual_module(prog, p, commitment);
    lemma_ready(prog, blocks, types, bytecode, direct, commitment, p);
    lemma_bounds(p);
    let hashes = plan_lane(p, commitment);
    if commitment is Some {
        let c = commitment->0;
        assert forall|i: int| 0 <= i < p.blocks.len() implies #[trigger] hashes->0.data[i]
            == constant_of_bytes(row_digest(p, p.check->0, i)) by {
            lemma_row_hash(blocks, types, bytecode, direct, c, p, i);
        }
    }
    assert(key_values(m, plan_key_params(p, commitment)) =~= key_of(m, p));
    let st = IrState { cells: initial_cells(m, prog.pre_init), world };
    let st2 = IrState { cells: initial_cells(m, virt.pre_init), world };
    lemma_starts_beside(m, p, prog.pre_init, hashes, world);
    let s = lemma_setup(m, p, inputs, st, st2);
    let pc = (m.constant)(constant_of(0), p.frame.addr_ty);
    let d = lemma_simulates(m, p, 0, pc, inputs, st, s, fuel);
    let vb = virtual_blocks(p);
    assert(virt.blocks == vb);
    let first = p.frame.first_handler() + plan_rows(p)[0] as int;
    assert(run(m, vb, first, seq![pc], s, d) is Some);
    let more = (if p.frame.direct {
        (d - 1) as nat
    } else {
        d
    });
    assert(d > 0);
    let args = key_of(m, p) + inputs;
    assert(run(m, vb, 0, args, st2, more + 3) == run(m, vb, first, seq![pc], s, d));
    let fuel2 = more + 3;
    assert(results(m, virt, args, world, fuel2) == results(
        m,
        IRBlocksView { blocks: p.blocks, ..prog },
        inputs,
        world,
        fuel,
    ));
}

/// Branches that hand over values of the types that are taken hand over as many
/// values as are taken, merged or not.
proof fn lemma_hand_over(blocks: Seq<IRBlockView>, types: Seq<IrTypeView>)
    requires
        branches_typed(merged_blocks(blocks), types),
    ensures
        forall|k: int, a: int|
            0 <= k < blocks.len() && 0 <= a < arms(blocks[k].terminator).len() ==> hands_over(
                #[trigger] arms(blocks[k].terminator)[a],
                blocks,
            ),
        forall|k: int, a: int|
            0 <= k < blocks.len() && 0 <= a < arms(merged_blocks(blocks)[k].terminator).len()
                ==> hands_over(
                #[trigger] arms(merged_blocks(blocks)[k].terminator)[a],
                merged_blocks(blocks),
            ),
{
    let merged = merged_blocks(blocks);
    assert forall|k: int, a: int|
        0 <= k < blocks.len() && 0 <= a < arms(
            merged[k].terminator,
        ).len() implies hands_over(#[trigger] arms(merged[k].terminator)[a], merged) by {
        let arm = arms(merged[k].terminator)[a];
        assert(crate::virt::ir_sim::branch_typed(merged[k], arm, merged, types));
        assert(var_types(merged[k], arm.args).len() == arm.args.len());
    }
    assert forall|k: int, a: int|
        0 <= k < blocks.len() && 0 <= a < arms(blocks[k].terminator).len() implies hands_over(
        #[trigger] arms(blocks[k].terminator)[a],
        blocks,
    ) by {
        let b = blocks[k];
        assert(merged[k] == merged_block(b));
        let names = merged_prefix(b, b.stmts.len() as int).names;
        assert(arms(merged[k].terminator)[a] == renamed_branch(arms(b.terminator)[a], names));
        let arm = arms(merged[k].terminator)[a];
        assert(hands_over(arm, merged));
        if arm.dest is Block {
            let t = arm.dest->Block_0.0 as int;
            assert(merged[t] == merged_block(blocks[t]));
        }
    }
}

/// Merging keeps programs off storages that they keep off.
proof fn lemma_merged_keeps_off<H: IrHashAlgorithm>(blocks: Seq<IRBlockView>, p: IrPlan<H>)
    requires
        forall|k: int| 0 <= k < blocks.len() ==> mergeable(#[trigger] blocks[k]),
        keeps_off(blocks, p),
    ensures
        keeps_off(merged_blocks(blocks), p),
{
    let merged = merged_blocks(blocks);
    assert forall|i: int, k: int|
        0 <= i < merged.len() && 0 <= k < merged[i].stmts.len() implies match touched(
        #[trigger] merged[i].stmts[k],
    ) {
        Some(s) => !in_table(p, s),
        None => true,
    } by {
        let b = blocks[i];
        assert(merged[i] == merged_block(b));
        let n = b.stmts.len() as int;
        lemma_merged_types(b, n);
        lemma_merged_prefix(b, n);
        let q = merged_prefix(b, n);
        let from = q.kept[k];
        assert(touched(q.stmts[k]) == touched(b.stmts[from]));
        assert(touched(blocks[i].stmts[from]) == touched(merged[i].stmts[k]));
    }
}

/// What a program returns, it returns with repeated oracle calls merged.
proof fn lemma_merged_results<V, W>(
    m: Machine<V, W>,
    prog: IRBlocksView,
    types: Seq<IrTypeView>,
    inputs: Seq<V>,
    world: W,
    fuel: nat,
)
    requires
        adds_up(m),
        0 < prog.blocks.len(),
        forall|k: int| 0 <= k < prog.blocks.len() ==> mergeable(#[trigger] prog.blocks[k]),
        branches_typed(merged_blocks(prog.blocks), types),
        inputs.len() == prog.blocks[0].params.len(),
    ensures
        results(
            m,
            IRBlocksView { blocks: merged_blocks(prog.blocks), ..prog },
            inputs,
            world,
            fuel,
        ) == results(m, prog, inputs, world, fuel),
{
    lemma_hand_over(prog.blocks, types);
    let st = IrState { cells: initial_cells(m, prog.pre_init), world };
    law_merged_ir_program(m, prog.blocks, 0, inputs, st, fuel);
}

/// A virtualised program does what the program does: for the same inputs and
/// the same world it returns the same values and leaves the same world,
/// whenever the program returns. It does so with one dispatcher and with
/// direct dispatch, and also where rows are committed to: it then takes the
/// words of the key before the inputs. The program is one that uses variables
/// behind their definitions, whose branches hand over what the blocks take, and
/// which keeps off the storage of the table, of registers, of hashes and of the
/// key. Sums and products of the machine are commutative and associative,
/// constants of addresses and bits denote what they are, and the machine can
/// compute the checks.
pub proof fn law_virtualized_ir_runs_alike<V, W, H: IrHashAlgorithm>(
    m: Machine<V, W>,
    prog: IRBlocksView,
    types: Seq<IrTypeView>,
    bytecode: StorageId,
    direct: bool,
    commitment: Option<CommitmentConfig<H>>,
    p: IrPlan<H>,
    inputs: Seq<V>,
    world: W,
    fuel: nat,
)
    requires
        p == ir_plan(prog.blocks, types, bytecode, direct, commitment),
        plan_ready(prog, p, commitment),
        adds_up(m),
        numbers(m, p.frame.addr_ty, p.frame.bit_ty),
        checkable(m, p),
        check_apart(p),
        forall|k: int| 0 <= k < prog.blocks.len() ==> mergeable(#[trigger] prog.blocks[k]),
        branches_typed(p.blocks, p.types),
        keeps_off(prog.blocks, p),
        inputs.len() == prog.blocks[0].params.len(),
        results(m, prog, inputs, world, fuel) is Some,
    ensures
        exists|fuel2: nat| #[trigger]
            results(
                m,
                virtual_module(prog, p, commitment),
                key_values(m, plan_key_params(p, commitment)) + inputs,
                world,
                fuel2,
            ) == results(m, prog, inputs, world, fuel),
{
    lemma_merged_keeps_off(prog.blocks, p);
    lemma_merged_results(m, prog, p.types, inputs, world, fuel);
    assert(p.blocks[0] == merged_block(prog.blocks[0]));
    lemma_plan_runs(
        m,
        prog,
        merged_blocks(prog.blocks),
        types,
        bytecode,
        direct,
        commitment,
        p,
        inputs,
        world,
        fuel,
    );
}

/// What virtualisation of a module works with, with regions or without.
pub open spec fn output_plan<H: IrHashAlgorithm>(
    blocks: IRBlocksView,
    types: Seq<IrTypeView>,
    cfg: VirtualizeConfig,
    commitment: Option<CommitmentConfig<H>>,
) -> IrPlan<H> {
    if has_regions(blocks, cfg) {
        adaptive_plan(blocks.blocks, types, cfg)
    } else {
        ir_plan(blocks.blocks, types, cfg.bytecode_storage, cfg.direct_dispatch, commitment)
    }
}

/// The pieces of a program hand over what the pieces take.
proof fn lemma_pieces_typed(
    blocks: Seq<IRBlockView>,
    rows: Seq<Row>,
    types: Seq<IrTypeView>,
)
    requires
        rows_in(rows, blocks),
        forall|k: int| 0 <= k < blocks.len() ==> scoped(#[trigger] blocks[k]),
        branches_typed(blocks, types),
        returns_agree(pieces(blocks, rows)),
    ensures
        branches_typed(pieces(blocks, rows), types),
{
    let ps = pieces(blocks, rows);
    assert forall|k: int, a: int|
        0 <= k < ps.len() && 0 <= a < arms(ps[k].terminator).len() implies branch_typed(
        ps[k],
        #[trigger] arms(ps[k].terminator)[a],
        ps,
        types,
    ) by {
        let r = rows[k];
        let p = ps[k];
        assert(p == piece(blocks, rows, k));
        assert(row_in(r, blocks));
        let bi = r.block as int;
        let b = blocks[bi];
        let arm = arms(p.terminator)[a];
        lemma_next(rows, r, rows.len() as int);
        match next_row(rows, r) {
            Some(j) => {
                assert(row_in(rows[j], blocks));
                let c = rows[j].start as int;
                assert(ps[j] == piece(blocks, rows, j));
                assert(b.var_space() <= u32::MAX);
                let got = var_types(p, arm.args);
                let want = types_before(b, c);
                assert forall|q: int| 0 <= q < want.len() implies got[q] == want[q] by {
                    let v = carried(b, q);
                    assert(arm.args[q] == v);
                    assert(var_type(b, v) is Some);
                    lemma_piece_types(blocks, rows, k, v);
                    if q >= b.params.len() {
                        assert(carried(b, b.params.len() + (q - b.params.len())) == v);
                    }
                }
                assert(got =~= want);
            },
            None => {
                assert(arm == arms(b.terminator)[a]);
                assert(branch_typed(b, arms(b.terminator)[a], blocks, types));
                assert(scoped(b));
                assert(vars_typed(b, arms(b.terminator)[a].args));
                assert(var_types(p, arm.args) =~= var_types(b, arm.args)) by {
                    assert forall|q: int| 0 <= q < arm.args.len() implies var_types(
                        p,
                        arm.args,
                    )[q] == var_types(b, arm.args)[q] by {
                        assert(var_type(b, arm.args[q]) is Some);
                        lemma_piece_types(blocks, rows, k, arm.args[q]);
                    }
                }
                match arm.dest {
                    IRBlockTargetId::Block(t) => {
                        let ti = t.0 as int;
                        assert(ps[ti] == piece(blocks, rows, ti));
                        assert(rows[ti].block == ti && rows[ti].start == 0);
                        assert(types_before(blocks[ti], 0) =~= blocks[ti].params);
                    },
                    IRBlockTargetId::Dyn(v) => {
                        assert(var_type(b, v) is Some);
                        lemma_piece_types(blocks, rows, k, v);
                    },
                    IRBlockTargetId::Return => {},
                }
            },
        }
    }
}

/// The pieces of a program keep off what the program keeps off.
proof fn lemma_pieces_keep_off<H: IrHashAlgorithm>(
    blocks: Seq<IRBlockView>,
    rows: Seq<Row>,
    p: IrPlan<H>,
)
    requires
        rows_in(rows, blocks),
        keeps_off(blocks, p),
    ensures
        keeps_off(pieces(blocks, rows), p),
{
    let ps = pieces(blocks, rows);
    assert forall|k: int, n: int|
        0 <= k < ps.len() && 0 <= n < ps[k].stmts.len() implies match touched(
        #[trigger] ps[k].stmts[n],
    ) {
        Some(s) => !in_table(p, s),
        None => true,
    } by {
        let r = rows[k];
        assert(ps[k] == piece(blocks, rows, k));
        assert(row_in(r, blocks));
        let bi = r.block as int;
        lemma_next(rows, r, rows.len() as int);
        if let Some(j) = next_row(rows, r) {
            assert(row_in(rows[j], blocks));
        }
        assert(ps[k].stmts[n] == blocks[bi].stmts[r.start + n]);
    }
}

/// What virtualisation yields does what the program does: whenever the program
/// returns, the virtualised one, given the words of its key and then the same
/// inputs, returns the same values and leaves the same world. It does so with
/// one dispatcher and with direct dispatch, with and without a commitment to
/// rows, and whether or not regions were split off.
pub proof fn law_virtualize_ir_output_runs_alike<V, W, P: Clone + Default, H: IrHashAlgorithm>(
    m: Machine<V, W>,
    blocks: IRBlocks<P>,
    types: Seq<IrTypeView>,
    cfg: VirtualizeConfig,
    commitment: Option<CommitmentConfig<H>>,
    r: VirtOutput<IRBlocks<P>>,
    new_types: Seq<IrTypeView>,
    p: IrPlan<H>,
    inputs: Seq<V>,
    world: W,
    fuel: nat,
)
    requires
        virtualizable(blocks@, types, cfg, commitment),
        virtualized(blocks, types, cfg, commitment, r, new_types),
        p == output_plan(blocks@, types, cfg, commitment),
        adds_up(m),
        numbers(m, p.frame.addr_ty, p.frame.bit_ty),
        checkable(m, p),
        check_apart(p),
        forall|k: int| 0 <= k < blocks@.blocks.len() ==> mergeable(#[trigger] blocks@.blocks[k]),
        branches_typed(merged_blocks(blocks@.blocks), p.types),
        keeps_off(blocks@.blocks, p),
        inputs.len() == blocks@.blocks[0].params.len(),
        results(m, blocks@, inputs, world, fuel) is Some,
    ensures
        exists|fuel2: nat| #[trigger]
            results(m, r.blocks@, key_values(m, r.key_params@) + inputs, world, fuel2) == results(
                m,
                blocks@,
                inputs,
                world,
                fuel,
            ),
{
    let prog = blocks@;
    if has_regions(prog, cfg) {
        let merged = merged_blocks(prog.blocks);
        let s = split_view(merged, cfg.adaptive_split);
        let rows = split_rows(s, merged);
        assert(commitment is None);
        assert(p == adaptive_plan::<H>(prog.blocks, types, cfg));
        assert forall|b: int| 0 <= b < merged.len() implies (#[trigger] merged[b]).var_space()
            <= u32::MAX by {
            assert(scoped(merged[b]));
        }
        lemma_split_rows(s, merged);
        lemma_merged_keeps_off(prog.blocks, p);
        lemma_pieces_typed(merged, rows, p.types);
        lemma_pieces_keep_off(merged, rows, p);
        lemma_merged_results(m, prog, p.types, inputs, world, fuel);
        lemma_hand_over(prog.blocks, p.types);
        let st = IrState { cells: initial_cells(m, prog.pre_init), world };
        assert(merged[0] == merged_block(prog.blocks[0]));
        let d = lemma_pieces(m, merged, rows, 0, inputs, st, fuel);
        let cut = IRBlocksView { blocks: pieces(merged, rows), ..prog };
        assert(results(m, cut, inputs, world, d) == results(m, prog, inputs, world, fuel));
        assert(rows[0].block == 0 && rows[0].start == 0);
        assert(types_before(merged[0], 0) =~= merged[0].params);
        assert(p.blocks[0] == piece(merged, rows, 0));
        lemma_plan_runs(
            m,
            prog,
            pieces(merged, rows),
            types,
            cfg.bytecode_storage,
            cfg.direct_dispatch,
            None::<CommitmentConfig<H>>,
            p,
            inputs,
            world,
            d,
        );
    } else {
        law_virtualized_ir_runs_alike(
            m,
            prog,
            types,
            cfg.bytecode_storage,
            cfg.direct_dispatch,
            commitment,
            p,
            inputs,
            world,
            fuel,
        );
    }
}

} // verus!
