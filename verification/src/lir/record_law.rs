//! What a recorder keeps of each call, and what a saved call stands for.

use vstd::prelude::*;

use crate::lir::recording::{
    field_scalars, made_types, numbered, numbers, rec_after, rec_reply, repeated, scalars, stripped,
    RecView,
};
use crate::lir::saved::{flat, handles_in, mapped, picked, LirCall, LirCallView};
use crate::lir::target::{
    group_views, BinKind, ConvKind, LirBranch, LirOp, LirReply, LirType, StructDefView,
};

verus! {

// ---------------------------------------------------------------------------
// Saved calls
// ---------------------------------------------------------------------------

/// A saved call stands for the call of its name, with what it holds, and for
/// what was answered.
pub proof fn law_saved_call(c: LirCall)
    ensures
        match c {
            LirCall::DefineStruct { def, id } => c@ == (LirCallView::Op {
                op: LirOp::<u32, u32>::DefineStruct { def: def@ },
                reply: LirReply { id: Some(id), blocks: Seq::empty(), groups: Seq::empty() },
            }),
            LirCall::BeginFunction { name, params, ret, entry_block, param_vals } => c@
                == (LirCallView::Op {
                op: LirOp::<u32, u32>::BeginFunction { name: name@, params: params@, ret },
                reply: LirReply { id: None, blocks: seq![entry_block],
                    groups: group_views(param_vals@) },
            }),
            LirCall::EndFunction => c@ == (LirCallView::Op {
                op: LirOp::<u32, u32>::EndFunction,
                reply: LirReply { id: None, blocks: Seq::empty(), groups: Seq::empty() },
            }),
            LirCall::CreateBlock { block } => c@ == (LirCallView::Op {
                op: LirOp::<u32, u32>::CreateBlock,
                reply: LirReply { id: None, blocks: seq![block], groups: Seq::empty() },
            }),
            LirCall::AddBlockParam { block, ty, val } => c@ == (LirCallView::Op {
                op: LirOp::<u32, u32>::AddBlockParam { block, ty },
                reply: LirReply { id: None, blocks: Seq::empty(), groups: seq![seq![val]] },
            }),
            LirCall::SwitchToBlock { block } => c@ == (LirCallView::Op {
                op: LirOp::<u32, u32>::SwitchToBlock { block },
                reply: LirReply { id: None, blocks: Seq::empty(), groups: Seq::empty() },
            }),
            LirCall::Iconst { ty, val, out } => c@ == (LirCallView::Op {
                op: LirOp::<u32, u32>::Iconst { ty, val },
                reply: LirReply { id: None, blocks: Seq::empty(), groups: seq![seq![out]] },
            }),
            LirCall::Add { lhs, rhs, out } => c@ == (LirCallView::Op {
                op: LirOp::<u32, u32>::Binary { kind: BinKind::Add, lhs, rhs },
                reply: LirReply { id: None, blocks: Seq::empty(), groups: seq![seq![out]] },
            }),
            LirCall::Sub { lhs, rhs, out } => c@ == (LirCallView::Op {
                op: LirOp::<u32, u32>::Binary { kind: BinKind::Sub, lhs, rhs },
                reply: LirReply { id: None, blocks: Seq::empty(), groups: seq![seq![out]] },
            }),
            LirCall::Mul { lhs, rhs, out } => c@ == (LirCallView::Op {
                op: LirOp::<u32, u32>::Binary { kind: BinKind::Mul, lhs, rhs },
                reply: LirReply { id: None, blocks: Seq::empty(), groups: seq![seq![out]] },
            }),
            LirCall::Udiv { lhs, rhs, out } => c@ == (LirCallView::Op {
                op: LirOp::<u32, u32>::Binary { kind: BinKind::Udiv, lhs, rhs },
                reply: LirReply { id: None, blocks: Seq::empty(), groups: seq![seq![out]] },
            }),
            LirCall::Sdiv { lhs, rhs, out } => c@ == (LirCallView::Op {
                op: LirOp::<u32, u32>::Binary { kind: BinKind::Sdiv, lhs, rhs },
                reply: LirReply { id: None, blocks: Seq::empty(), groups: seq![seq![out]] },
            }),
            LirCall::And { lhs, rhs, out } => c@ == (LirCallView::Op {
                op: LirOp::<u32, u32>::Binary { kind: BinKind::And, lhs, rhs },
                reply: LirReply { id: None, blocks: Seq::empty(), groups: seq![seq![out]] },
            }),
            LirCall::Or { lhs, rhs, out } => c@ == (LirCallView::Op {
                op: LirOp::<u32, u32>::Binary { kind: BinKind::Or, lhs, rhs },
                reply: LirReply { id: None, blocks: Seq::empty(), groups: seq![seq![out]] },
            }),
            LirCall::Xor { lhs, rhs, out } => c@ == (LirCallView::Op {
                op: LirOp::<u32, u32>::Binary { kind: BinKind::Xor, lhs, rhs },
                reply: LirReply { id: None, blocks: Seq::empty(), groups: seq![seq![out]] },
            }),
            LirCall::Not { val, out } => c@ == (LirCallView::Op {
                op: LirOp::<u32, u32>::Not { val },
                reply: LirReply { id: None, blocks: Seq::empty(), groups: seq![seq![out]] },
            }),
            LirCall::Shl { val, shift, out } => c@ == (LirCallView::Op {
                op: LirOp::<u32, u32>::Binary { kind: BinKind::Shl, lhs: val, rhs: shift },
                reply: LirReply { id: None, blocks: Seq::empty(), groups: seq![seq![out]] },
            }),
            LirCall::Lshr { val, shift, out } => c@ == (LirCallView::Op {
                op: LirOp::<u32, u32>::Binary { kind: BinKind::Lshr, lhs: val, rhs: shift },
                reply: LirReply { id: None, blocks: Seq::empty(), groups: seq![seq![out]] },
            }),
            LirCall::Ashr { val, shift, out } => c@ == (LirCallView::Op {
                op: LirOp::<u32, u32>::Binary { kind: BinKind::Ashr, lhs: val, rhs: shift },
                reply: LirReply { id: None, blocks: Seq::empty(), groups: seq![seq![out]] },
            }),
            LirCall::Icmp { pred, lhs, rhs, out } => c@ == (LirCallView::Op {
                op: LirOp::<u32, u32>::Icmp { pred, lhs, rhs },
                reply: LirReply { id: None, blocks: Seq::empty(), groups: seq![seq![out]] },
            }),
            LirCall::Zext { val, dst_ty, out } => c@ == (LirCallView::Op {
                op: LirOp::<u32, u32>::Convert { kind: ConvKind::Zext, val, dst_ty },
                reply: LirReply { id: None, blocks: Seq::empty(), groups: seq![seq![out]] },
            }),
            LirCall::Sext { val, dst_ty, out } => c@ == (LirCallView::Op {
                op: LirOp::<u32, u32>::Convert { kind: ConvKind::Sext, val, dst_ty },
                reply: LirReply { id: None, blocks: Seq::empty(), groups: seq![seq![out]] },
            }),
            LirCall::Trunc { val, dst_ty, out } => c@ == (LirCallView::Op {
                op: LirOp::<u32, u32>::Convert { kind: ConvKind::Trunc, val, dst_ty },
                reply: LirReply { id: None, blocks: Seq::empty(), groups: seq![seq![out]] },
            }),
            LirCall::Select { cond, then_val, else_val, out } => c@ == (LirCallView::Op {
                op: LirOp::<u32, u32>::Select { cond, then_val, else_val },
                reply: LirReply { id: None, blocks: Seq::empty(), groups: seq![seq![out]] },
            }),
            LirCall::Jump { target, args } => c@ == (LirCallView::Op {
                op: LirOp::<u32, u32>::Jump { target, branch: LirBranch { args: args@,
                    reentry: None } },
                reply: LirReply { id: None, blocks: Seq::empty(), groups: Seq::empty() },
            }),
            LirCall::Branch { cond, then_block, then_args, else_block, else_args } => c@
                == (LirCallView::Op {
                op: LirOp::<u32, u32>::Branch { cond, then_block,
                    then_branch: LirBranch { args: then_args@, reentry: None }, else_block,
                    else_branch: LirBranch { args: else_args@, reentry: None } },
                reply: LirReply { id: None, blocks: Seq::empty(), groups: Seq::empty() },
            }),
            LirCall::Ret { vals } => c@ == (LirCallView::Op {
                op: LirOp::<u32, u32>::Ret { vals: vals@ },
                reply: LirReply { id: None, blocks: Seq::empty(), groups: Seq::empty() },
            }),
            LirCall::CallExtern { name, arg_tys, args, ret_ty, outs } => c@ == (LirCallView::Op {
                op: LirOp::<u32, u32>::CallExtern { name: name@, arg_tys: arg_tys@, args: args@,
                    ret_ty },
                reply: LirReply { id: None, blocks: Seq::empty(), groups: seq![outs@] },
            }),
            LirCall::Call { name, arg_tys, args, ret_ty, outs } => c@ == (LirCallView::Op {
                op: LirOp::<u32, u32>::Call { name: name@, arg_tys: arg_tys@, args: args@, ret_ty },
                reply: LirReply { id: None, blocks: Seq::empty(), groups: seq![outs@] },
            }),
            LirCall::BlockAddr { block, out } => c@ == (LirCallView::Op {
                op: LirOp::<u32, u32>::BlockAddr { block },
                reply: LirReply { id: None, blocks: Seq::empty(), groups: seq![seq![out]] },
            }),
            LirCall::DynJump { index, destinations, args } => c@ == (LirCallView::Op {
                op: LirOp::<u32, u32>::DynJump { index, destinations: destinations@,
                    branch: LirBranch { args: args@, reentry: None } },
                reply: LirReply { id: None, blocks: Seq::empty(), groups: Seq::empty() },
            }),
            LirCall::Oracle { name, arg_tys, args, ret_tys, outs } => c@ == (LirCallView::Op {
                op: LirOp::<u32, u32>::Oracle { name: name@, arg_tys: arg_tys@, args: args@,
                    ret_tys: ret_tys@ },
                reply: LirReply { id: None, blocks: Seq::empty(), groups: seq![outs@] },
            }),
            LirCall::Action { name, guard, arg_tys, args, fallbacks, ret_tys, outs } => c@
                == (LirCallView::Op {
                op: LirOp::<u32, u32>::Action { name: name@, guard, arg_tys: arg_tys@, args: args@,
                    fallbacks: fallbacks@, ret_tys: ret_tys@ },
                reply: LirReply { id: None, blocks: Seq::empty(), groups: seq![outs@] },
            }),
            LirCall::Rng { ty, out } => c@ == (LirCallView::Op {
                op: LirOp::<u32, u32>::Rng { ty },
                reply: LirReply { id: None, blocks: Seq::empty(), groups: seq![seq![out]] },
            }),
            LirCall::Alloca { elem_ty, count, out } => c@ == (LirCallView::Op {
                op: LirOp::<u32, u32>::Alloca { elem_ty, count },
                reply: LirReply { id: None, blocks: Seq::empty(), groups: seq![seq![out]] },
            }),
            LirCall::PtrLoad { ptr, ty, out } => c@ == (LirCallView::Op {
                op: LirOp::<u32, u32>::PtrLoad { ptr, ty },
                reply: LirReply { id: None, blocks: Seq::empty(), groups: seq![seq![out]] },
            }),
            LirCall::PtrStore { ptr, val } => c@ == (LirCallView::Op {
                op: LirOp::<u32, u32>::PtrStore { ptr, val },
                reply: LirReply { id: None, blocks: Seq::empty(), groups: Seq::empty() },
            }),
            LirCall::PtrOffset { ptr, idx, out } => c@ == (LirCallView::Op {
                op: LirOp::<u32, u32>::PtrOffset { ptr, idx },
                reply: LirReply { id: None, blocks: Seq::empty(), groups: seq![seq![out]] },
            }),
            LirCall::PtrIndexLoad { ptr, idx, pointee_ty, outs } => c@ == (LirCallView::Op {
                op: LirOp::<u32, u32>::PtrIndexLoad { ptr, idx, pointee_ty },
                reply: LirReply { id: None, blocks: Seq::empty(), groups: seq![outs@] },
            }),
            LirCall::PtrIndexStore { ptr, idx, vals, pointee_ty } => c@ == (LirCallView::Op {
                op: LirOp::<u32, u32>::PtrIndexStore { ptr, idx, vals: vals@, pointee_ty },
                reply: LirReply { id: None, blocks: Seq::empty(), groups: Seq::empty() },
            }),
            LirCall::Switch { index, cases, default_block, default_args } => match c@ {
                LirCallView::Op { op, reply } => {
                    &&& reply == (LirReply::<u32, u32> {
                        id: None,
                        blocks: Seq::empty(),
                        groups: Seq::empty(),
                    })
                    &&& match op {
                        LirOp::Switch {
                            index: i,
                            cases: k,
                            default_block: d,
                            default_branch: b,
                        } => {
                            &&& i == index
                            &&& d == default_block
                            &&& b == (LirBranch { args: default_args@, reentry: None })
                            &&& k.len() == cases@.len()
                            &&& forall|j: int|
                                0 <= j < k.len() ==> #[trigger] k[j] == (
                                    cases@[j].0,
                                    cases@[j].1,
                                    LirBranch { args: cases@[j].2@, reentry: None },
                                )
                        },
                        _ => false,
                    }
                },
                _ => false,
            },
            LirCall::ValueType { val, ty } => c@ == (LirCallView::ValueType { val, ty }),
            LirCall::SetProv => c@ is SetProv,
        },
{
}

/// Numbers that stand for themselves.
pub open spec fn own(n: nat) -> Seq<u32> {
    Seq::new(n, |i: int| i as u32)
}

proof fn lemma_picked_own(idx: Seq<u32>, n: nat)
    requires
        forall|i: int| 0 <= i < idx.len() ==> (#[trigger] idx[i]) < n,
    ensures
        picked(idx, own(n)) == idx,
{
    assert(picked(idx, own(n)) =~= idx);
}

/// A call in which every value and every block stands for itself is the call.
pub proof fn law_own_handles(op: LirOp<u32, u32>, nv: nat, nb: nat)
    requires
        handles_in(op, nv, nb),
    ensures
        mapped(op, own(nv), own(nb)) == op,
{
    match op {
        LirOp::Jump { target, branch } => {
            lemma_picked_own(branch.args, nv);
        },
        LirOp::Branch { cond, then_block, then_branch, else_block, else_branch } => {
            lemma_picked_own(then_branch.args, nv);
            lemma_picked_own(else_branch.args, nv);
        },
        LirOp::Ret { vals } => {
            lemma_picked_own(vals, nv);
        },
        LirOp::CallExtern { args, .. } => {
            lemma_picked_own(args, nv);
        },
        LirOp::Call { args, .. } => {
            lemma_picked_own(args, nv);
        },
        LirOp::Switch { index, cases, default_block, default_branch } => {
            lemma_picked_own(default_branch.args, nv);
            match mapped(op, own(nv), own(nb)) {
                LirOp::Switch { cases: got, .. } => {
                    assert forall|i: int| 0 <= i < cases.len() implies got[i] == cases[i] by {
                        assert(crate::lir::saved::case_in(cases[i], nv, nb));
                        lemma_picked_own(cases[i].2.args, nv);
                    }
                    assert(got =~= cases);
                },
                _ => {},
            }
        },
        LirOp::DynJump { index, destinations, branch } => {
            lemma_picked_own(destinations, nb);
            lemma_picked_own(branch.args, nv);
        },
        LirOp::Oracle { args, .. } => {
            lemma_picked_own(args, nv);
        },
        LirOp::Action { guard, args, fallbacks, .. } => {
            lemma_picked_own(args, nv);
            lemma_picked_own(fallbacks, nv);
        },
        LirOp::PtrIndexStore { ptr, idx, vals, pointee_ty } => {
            lemma_picked_own(vals, nv);
        },
        _ => {},
    }
}

// ---------------------------------------------------------------------------
// Recording
// ---------------------------------------------------------------------------

proof fn lemma_flat_one<A>(s: Seq<A>)
    ensures
        flat(seq![s]) == s,
{
    reveal_with_fuel(flat, 2);
    assert(seq![s].drop_last() =~= Seq::empty());
    assert(flat(seq![s]) =~= s);
}

/// The type of value `v`.
pub open spec fn nth_type(s: RecView, v: u32) -> LirType {
    s.types[v as int]
}

/// The types of the values that a call makes: that of the first operand for an
/// operation, a truth value for a comparison, a pointer for room on the stack,
/// and otherwise the type that the call names.
pub proof fn law_made_types(s: RecView, op: LirOp<u32, u32>)
    ensures
        match op {
            LirOp::AddBlockParam { block: _, ty } => rec_after(s, op).types == s.types.push(ty),
            LirOp::Iconst { ty, val: _ } => rec_after(s, op).types == s.types.push(ty),
            LirOp::Binary { kind: _, lhs, rhs: _ } => rec_after(s, op).types == s.types.push(
                nth_type(s, lhs),
            ),
            LirOp::Not { val } => rec_after(s, op).types == s.types.push(nth_type(s, val)),
            LirOp::Icmp { .. } => rec_after(s, op).types == s.types.push(LirType::Bool),
            LirOp::Convert { kind: _, val: _, dst_ty } => rec_after(s, op).types == s.types.push(
                dst_ty,
            ),
            LirOp::Select { cond: _, then_val, else_val: _ } => rec_after(s, op).types
                == s.types.push(nth_type(s, then_val)),
            LirOp::CallExtern { name: _, arg_tys: _, args: _, ret_ty } => rec_after(s, op).types
                == s.types + (match ret_ty {
                Some(t) => scalars(s.defs, t, s.defs.len()),
                None => Seq::empty(),
            }),
            LirOp::Call { name: _, arg_tys: _, args: _, ret_ty } => rec_after(s, op).types
                == s.types
                + (match ret_ty {
                Some(t) => scalars(s.defs, t, s.defs.len()),
                None => Seq::empty(),
            }),
            LirOp::BlockAddr { .. } => rec_after(s, op).types == s.types.push(LirType::U32),
            LirOp::Oracle { name: _, arg_tys: _, args: _, ret_tys } => rec_after(s, op).types
                == s.types + ret_tys,
            LirOp::Action { name: _, guard: _, arg_tys: _, args: _, fallbacks: _, ret_tys } =>
                rec_after(s, op).types == s.types + ret_tys,
            LirOp::Rng { ty } => rec_after(s, op).types == s.types.push(ty),
            LirOp::Alloca { elem_ty, count: _ } => rec_after(s, op).types == s.types.push(
                LirType::Ptr(Box::new(elem_ty)),
            ),
            LirOp::PtrLoad { ptr: _, ty } => rec_after(s, op).types == s.types.push(ty),
            LirOp::PtrOffset { ptr, idx: _ } => rec_after(s, op).types == s.types.push(
                nth_type(s, ptr),
            ),
            LirOp::PtrIndexLoad { ptr: _, idx: _, pointee_ty } => rec_after(s, op).types
                == s.types.push(pointee_ty),
            LirOp::BeginFunction { params, .. } => made_types(s, op).len() == params.len()
                && forall|
                i: int,
            |
                0 <= i < params.len() ==> #[trigger] made_types(s, op)[i] == scalars(
                    s.defs,
                    params[i],
                    s.defs.len(),
                ),
            LirOp::DefineStruct { .. } => rec_after(s, op).types == s.types,
            LirOp::EndFunction => rec_after(s, op).types == s.types,
            LirOp::CreateBlock => rec_after(s, op).types == s.types,
            LirOp::SwitchToBlock { .. } => rec_after(s, op).types == s.types,
            LirOp::Jump { .. } => rec_after(s, op).types == s.types,
            LirOp::Branch { .. } => rec_after(s, op).types == s.types,
            LirOp::Ret { .. } => rec_after(s, op).types == s.types,
            LirOp::Switch { .. } => rec_after(s, op).types == s.types,
            LirOp::DynJump { .. } => rec_after(s, op).types == s.types,
            LirOp::PtrStore { .. } => rec_after(s, op).types == s.types,
            LirOp::PtrIndexStore { .. } => rec_after(s, op).types == s.types,
        },
{
    let made = made_types(s, op);
    if made.len() == 1 {
        lemma_flat_one(made[0]);
        assert(made =~= seq![made[0]]);
        if made[0].len() == 1 {
            assert(s.types + made[0] =~= s.types.push(made[0][0]));
        }
    } else if made.len() == 0 {
        assert(s.types + flat(made) =~= s.types);
    }
}

proof fn lemma_numbered(start: nat, groups: Seq<Seq<LirType>>)
    ensures
        flat(numbered(start, groups)) == numbers(start, flat(groups).len()),
        numbered(start, groups).len() == groups.len(),
        forall|i: int|
            0 <= i < groups.len() ==> (#[trigger] numbered(start, groups)[i]).len()
                == groups[i].len(),
    decreases groups.len(),
{
    if groups.len() > 0 {
        let before = groups.drop_last();
        lemma_numbered(start, before);
        let n = numbered(start, groups);
        let last = numbers(start + flat(before).len(), groups.last().len());
        assert(n.drop_last() =~= numbered(start, before));
        assert(n.last() == last);
        assert(flat(n) =~= numbers(start, flat(groups).len()));
        assert forall|i: int| 0 <= i < groups.len() implies (#[trigger] n[i]).len()
            == groups[i].len() by {
            if i < before.len() {
                assert(numbered(start, before)[i].len() == before[i].len());
            }
        }
    } else {
        assert(flat(numbered(start, groups)) =~= numbers(start, flat(groups).len()));
    }
}

/// The values that a call makes take the next numbers, in turn; a function and a
/// block take the next number of a block, a struct the next number of a struct,
/// and nothing else does.
pub proof fn law_next_numbers(s: RecView, op: LirOp<u32, u32>, i: int)
    ensures
        flat(rec_reply(s, op).groups).len() == rec_after(s, op).types.len() - s.types.len(),
        0 <= i < flat(rec_reply(s, op).groups).len() ==> flat(rec_reply(s, op).groups)[i] == (
        s.types.len() + i) as u32,
        op is BeginFunction || op is CreateBlock ==> rec_reply(s, op).blocks == seq![s.n_blocks]
            && rec_after(s, op).n_blocks == (s.n_blocks + 1) as u32,
        !(op is BeginFunction || op is CreateBlock) ==> rec_reply(s, op).blocks.len() == 0
            && rec_after(s, op).n_blocks == s.n_blocks,
        match op {
            LirOp::DefineStruct { def } => rec_reply(s, op).id == Some(s.defs.len() as u32)
                && rec_after(s, op).defs == s.defs.push(def),
            _ => rec_reply(s, op).id is None && rec_after(s, op).defs == s.defs,
        },
{
    lemma_numbered(s.types.len(), made_types(s, op));
}

/// A call is kept behind the calls before it, after the types of the values that
/// it makes.
pub proof fn law_kept_calls(s: RecView, op: LirOp<u32, u32>, i: int)
    ensures
        ({
            let after = rec_after(s, op);
            let more = after.types.len() - s.types.len();
            let n = s.calls.len() as int;
            &&& after.calls.len() == n + more + 1
            &&& 0 <= i < n ==> after.calls[i] == s.calls[i]
            &&& 0 <= i < more ==> after.calls[n + i] == (LirCallView::ValueType {
                val: (s.types.len() + i) as u32,
                ty: after.types[s.types.len() + i],
            })
            &&& after.calls[n + more] == (LirCallView::Op {
                op: stripped(op),
                reply: rec_reply(s, op),
            })
        }),
{
}

/// Of a call everything is kept but the hints of its jumps.
pub proof fn law_hints_left_out(op: LirOp<u32, u32>)
    ensures
        match op {
            LirOp::Jump { target, branch } => stripped(op) == (LirOp::<u32, u32>::Jump {
                target,
                branch: LirBranch { args: branch.args, reentry: None },
            }),
            LirOp::Branch { cond, then_block, then_branch, else_block, else_branch } => stripped(op)
                == (LirOp::<u32, u32>::Branch {
                cond,
                then_block,
                then_branch: LirBranch { args: then_branch.args, reentry: None },
                else_block,
                else_branch: LirBranch { args: else_branch.args, reentry: None },
            }),
            LirOp::Switch { index, cases, default_block, default_branch } => match stripped(op) {
                LirOp::Switch { index: i, cases: k, default_block: d, default_branch: b } => {
                    &&& i == index
                    &&& d == default_block
                    &&& b == (LirBranch { args: default_branch.args, reentry: None })
                    &&& k.len() == cases.len()
                    &&& forall|j: int|
                        0 <= j < k.len() ==> #[trigger] k[j] == (
                            cases[j].0,
                            cases[j].1,
                            LirBranch { args: cases[j].2.args, reentry: None },
                        )
                },
                _ => false,
            },
            LirOp::DynJump { index, destinations, branch } => stripped(op) == (LirOp::<
                u32,
                u32,
            >::DynJump {
                index,
                destinations,
                branch: LirBranch { args: branch.args, reentry: None },
            }),
            _ => stripped(op) == op,
        },
{
}

// ---------------------------------------------------------------------------
// Scalars
// ---------------------------------------------------------------------------

proof fn lemma_repeated<A>(s: Seq<A>, n: nat, i: nat, j: int)
    ensures
        repeated(s, n).len() == n * s.len(),
        i < n && 0 <= j < s.len() ==> repeated(s, n)[i * s.len() + j] == s[j],
    decreases n,
{
    if n > 0 {
        let m = (n - 1) as nat;
        lemma_repeated(s, m, i, j);
        assert(m * s.len() + s.len() == n * s.len()) by (nonlinear_arith)
            requires
                m + 1 == n,
        ;
        if i < m && 0 <= j < s.len() {
            assert(0 <= i * s.len() + j < m * s.len()) by (nonlinear_arith)
                requires
                    i < m,
                    0 <= i,
                    0 <= j < s.len(),
            ;
        } else if i == m && 0 <= j < s.len() {
            assert(repeated(s, n)[m * s.len() + j] == s[j]);
        }
    } else {
        assert(n * s.len() == 0) by (nonlinear_arith)
            requires
                n == 0,
        ;
    }
}

/// An array has the scalars of its elements, one element behind the other; what
/// is neither an array nor a struct is one scalar.
pub proof fn law_array_scalars(defs: Seq<StructDefView>, ty: LirType, depth: nat, i: nat, j: int)
    ensures
        match ty {
            LirType::Arr(elem, n) => {
                let one = scalars(defs, *elem, depth);
                &&& scalars(defs, ty, depth).len() == n * one.len()
                &&& i < n && 0 <= j < one.len() ==> scalars(defs, ty, depth)[i * one.len() + j]
                    == one[j]
            },
            LirType::Struct(_) => true,
            _ => scalars(defs, ty, depth) == seq![ty],
        },
{
    if let LirType::Arr(elem, n) = ty {
        lemma_repeated(scalars(defs, *elem, depth), n as nat, i, j);
    }
}

/// A struct has the scalars of its fields, one field behind the other.
pub proof fn law_struct_scalars(
    defs: Seq<StructDefView>,
    id: u32,
    depth: nat,
    f: (Seq<char>, LirType),
)
    requires
        id < defs.len(),
        depth > 0,
    ensures
        defs[id as int].fields.len() == 0 ==> scalars(defs, LirType::Struct(id), depth).len() == 0,
        scalars(defs, LirType::Struct(id), depth) == field_scalars(
            defs,
            defs[id as int].fields,
            (depth - 1) as nat,
            defs[id as int].fields.len(),
        ),
        field_scalars(
            defs,
            defs[id as int].fields.push(f),
            (depth - 1) as nat,
            defs[id as int].fields.len() + 1,
        ) == scalars(defs, LirType::Struct(id), depth) + scalars(defs, f.1, (depth - 1) as nat),
{
    let fields = defs[id as int].fields;
    lemma_same_fields(defs, fields, f, (depth - 1) as nat, fields.len());
}

proof fn lemma_same_fields(
    defs: Seq<StructDefView>,
    fields: Seq<(Seq<char>, LirType)>,
    f: (Seq<char>, LirType),
    depth: nat,
    n: nat,
)
    requires
        n <= fields.len(),
    ensures
        field_scalars(defs, fields.push(f), depth, n) == field_scalars(defs, fields, depth, n),
    decreases n,
{
    if n > 0 {
        lemma_same_fields(defs, fields, f, depth, (n - 1) as nat);
        assert(fields.push(f)[n - 1] == fields[n - 1]);
    }
}

} // verus!
