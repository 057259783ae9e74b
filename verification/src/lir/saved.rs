//! Recorded calls into a code generator, and their replay.

use vstd::prelude::*;

use crate::lir::target::{
    clone_lir_ret, group_views, no_reply, one_value, plain_branch, some_values, switch_views,
    BinKind, BranchTarget, ConvKind, IcmpPred, LirBranch, LirOp, LirReply, LirTarget, LirType,
    StructDef, StructId,
};

verus! {

/// A recorded call. Values and blocks are numbered in the order in which they
/// were made.
#[derive(PartialEq, Debug)]
#[allow(inconsistent_fields)]
pub enum LirCall {
    /// A struct was defined as `id`.
    DefineStruct { def: StructDef, id: StructId },
    /// A function was started: its entry block, and for each parameter its
    /// scalars.
    BeginFunction {
        name: String,
        params: Vec<LirType>,
        ret: Option<LirType>,
        entry_block: u32,
        param_vals: Vec<Vec<u32>>,
    },
    EndFunction,
    CreateBlock { block: u32 },
    AddBlockParam { block: u32, ty: LirType, val: u32 },
    SwitchToBlock { block: u32 },
    Iconst { ty: LirType, val: i64, out: u32 },
    Add { lhs: u32, rhs: u32, out: u32 },
    Sub { lhs: u32, rhs: u32, out: u32 },
    Mul { lhs: u32, rhs: u32, out: u32 },
    Udiv { lhs: u32, rhs: u32, out: u32 },
    Sdiv { lhs: u32, rhs: u32, out: u32 },
    And { lhs: u32, rhs: u32, out: u32 },
    Or { lhs: u32, rhs: u32, out: u32 },
    Xor { lhs: u32, rhs: u32, out: u32 },
    Not { val: u32, out: u32 },
    Shl { val: u32, shift: u32, out: u32 },
    Lshr { val: u32, shift: u32, out: u32 },
    Ashr { val: u32, shift: u32, out: u32 },
    Icmp { pred: IcmpPred, lhs: u32, rhs: u32, out: u32 },
    Zext { val: u32, dst_ty: LirType, out: u32 },
    Sext { val: u32, dst_ty: LirType, out: u32 },
    Trunc { val: u32, dst_ty: LirType, out: u32 },
    Select { cond: u32, then_val: u32, else_val: u32, out: u32 },
    Jump { target: u32, args: Vec<u32> },
    Branch {
        cond: u32,
        then_block: u32,
        then_args: Vec<u32>,
        else_block: u32,
        else_args: Vec<u32>,
    },
    Ret { vals: Vec<u32> },
    CallExtern {
        name: String,
        arg_tys: Vec<LirType>,
        args: Vec<u32>,
        ret_ty: Option<LirType>,
        outs: Vec<u32>,
    },
    Call {
        name: String,
        arg_tys: Vec<LirType>,
        args: Vec<u32>,
        ret_ty: Option<LirType>,
        outs: Vec<u32>,
    },
    Switch {
        index: u32,
        cases: Vec<(i64, u32, Vec<u32>)>,
        default_block: u32,
        default_args: Vec<u32>,
    },
    BlockAddr { block: u32, out: u32 },
    DynJump { index: u32, destinations: Vec<u32>, args: Vec<u32> },
    Oracle {
        name: String,
        arg_tys: Vec<LirType>,
        args: Vec<u32>,
        ret_tys: Vec<LirType>,
        outs: Vec<u32>,
    },
    Action {
        name: String,
        guard: u32,
        arg_tys: Vec<LirType>,
        args: Vec<u32>,
        fallbacks: Vec<u32>,
        ret_tys: Vec<LirType>,
        outs: Vec<u32>,
    },
    Rng { ty: LirType, out: u32 },
    Alloca { elem_ty: LirType, count: usize, out: u32 },
    PtrLoad { ptr: u32, ty: LirType, out: u32 },
    PtrStore { ptr: u32, val: u32 },
    PtrOffset { ptr: u32, idx: u32, out: u32 },
    PtrIndexLoad { ptr: u32, idx: u32, pointee_ty: LirType, outs: Vec<u32> },
    PtrIndexStore { ptr: u32, idx: u32, vals: Vec<u32>, pointee_ty: LirType },
    /// The type of a value.
    ValueType { val: u32, ty: LirType },
    /// A change of provenance.
    SetProv,
}

/// What a [`LirCall`] denotes: a call with its answer, or a note.
#[verifier::ext_equal]
pub enum LirCallView {
    Op { op: LirOp<u32, u32>, reply: LirReply<u32, u32> },
    ValueType { val: u32, ty: LirType },
    SetProv,
}

/// A call that made one value.
pub open spec fn made_one(op: LirOp<u32, u32>, out: u32) -> LirCallView {
    LirCallView::Op { op, reply: one_value(out) }
}

/// A call that made nothing.
pub open spec fn made_none(op: LirOp<u32, u32>) -> LirCallView {
    LirCallView::Op { op, reply: no_reply() }
}

/// The cases of a recorded switch.
pub open spec fn saved_cases(s: Seq<(i64, u32, Vec<u32>)>) -> Seq<(i64, u32, LirBranch<u32>)> {
    s.map_values(|c: (i64, u32, Vec<u32>)| (c.0, c.1, plain_branch(c.2@)))
}

/// Cases without hints.
pub open spec fn plain_cases(s: Seq<(i64, u32, LirBranch<u32>)>) -> Seq<
    (i64, u32, LirBranch<u32>),
> {
    s.map_values(|c: (i64, u32, LirBranch<u32>)| (c.0, c.1, plain_branch(c.2.args)))
}

/// An operation on two values that made one.
pub open spec fn binary(kind: BinKind, lhs: u32, rhs: u32, out: u32) -> LirCallView {
    made_one(LirOp::Binary { kind, lhs, rhs }, out)
}

/// A conversion that made a value.
pub open spec fn convert(kind: ConvKind, val: u32, dst_ty: LirType, out: u32) -> LirCallView {
    made_one(LirOp::Convert { kind, val, dst_ty }, out)
}

impl View for LirCall {
    type V = LirCallView;

    open spec fn view(&self) -> LirCallView {
        match *self {
            LirCall::DefineStruct { def, id } => LirCallView::Op {
                op: LirOp::DefineStruct { def: def@ },
                reply: LirReply { id: Some(id), blocks: Seq::empty(), groups: Seq::empty() },
            },
            LirCall::BeginFunction { name, params, ret, entry_block, param_vals } => LirCallView::Op {
                op: LirOp::BeginFunction { name: name@, params: params@, ret },
                reply: LirReply {
                    id: None,
                    blocks: seq![entry_block],
                    groups: group_views(param_vals@),
                },
            },
            LirCall::EndFunction => made_none(LirOp::EndFunction),
            LirCall::CreateBlock { block } => LirCallView::Op {
                op: LirOp::CreateBlock,
                reply: LirReply { id: None, blocks: seq![block], groups: Seq::empty() },
            },
            LirCall::AddBlockParam { block, ty, val } => made_one(
                LirOp::AddBlockParam { block, ty },
                val,
            ),
            LirCall::SwitchToBlock { block } => made_none(LirOp::SwitchToBlock { block }),
            LirCall::Iconst { ty, val, out } => made_one(LirOp::Iconst { ty, val }, out),
            LirCall::Add { lhs, rhs, out } => binary(BinKind::Add, lhs, rhs, out),
            LirCall::Sub { lhs, rhs, out } => binary(BinKind::Sub, lhs, rhs, out),
            LirCall::Mul { lhs, rhs, out } => binary(BinKind::Mul, lhs, rhs, out),
            LirCall::Udiv { lhs, rhs, out } => binary(BinKind::Udiv, lhs, rhs, out),
            LirCall::Sdiv { lhs, rhs, out } => binary(BinKind::Sdiv, lhs, rhs, out),
            LirCall::And { lhs, rhs, out } => binary(BinKind::And, lhs, rhs, out),
            LirCall::Or { lhs, rhs, out } => binary(BinKind::Or, lhs, rhs, out),
            LirCall::Xor { lhs, rhs, out } => binary(BinKind::Xor, lhs, rhs, out),
            LirCall::Not { val, out } => made_one(LirOp::Not { val }, out),
            LirCall::Shl { val, shift, out } => binary(BinKind::Shl, val, shift, out),
            LirCall::Lshr { val, shift, out } => binary(BinKind::Lshr, val, shift, out),
            LirCall::Ashr { val, shift, out } => binary(BinKind::Ashr, val, shift, out),
            LirCall::Icmp { pred, lhs, rhs, out } => made_one(
                LirOp::Icmp { pred, lhs, rhs },
                out,
            ),
            LirCall::Zext { val, dst_ty, out } => convert(ConvKind::Zext, val, dst_ty, out),
            LirCall::Sext { val, dst_ty, out } => convert(ConvKind::Sext, val, dst_ty, out),
            LirCall::Trunc { val, dst_ty, out } => convert(ConvKind::Trunc, val, dst_ty, out),
            LirCall::Select { cond, then_val, else_val, out } => made_one(
                LirOp::Select { cond, then_val, else_val },
                out,
            ),
            LirCall::Jump { target, args } => made_none(
                LirOp::Jump { target, branch: plain_branch(args@) },
            ),
            LirCall::Branch { cond, then_block, then_args, else_block, else_args } => made_none(
                LirOp::Branch {
                    cond,
                    then_block,
                    then_branch: plain_branch(then_args@),
                    else_block,
                    else_branch: plain_branch(else_args@),
                },
            ),
            LirCall::Ret { vals } => made_none(LirOp::Ret { vals: vals@ }),
            LirCall::CallExtern { name, arg_tys, args, ret_ty, outs } => LirCallView::Op {
                op: LirOp::CallExtern { name: name@, arg_tys: arg_tys@, args: args@, ret_ty },
                reply: some_values(outs@),
            },
            LirCall::Call { name, arg_tys, args, ret_ty, outs } => LirCallView::Op {
                op: LirOp::Call { name: name@, arg_tys: arg_tys@, args: args@, ret_ty },
                reply: some_values(outs@),
            },
            LirCall::Switch { index, cases, default_block, default_args } => made_none(
                LirOp::Switch {
                    index,
                    cases: saved_cases(cases@),
                    default_block,
                    default_branch: plain_branch(default_args@),
                },
            ),
            LirCall::BlockAddr { block, out } => made_one(LirOp::BlockAddr { block }, out),
            LirCall::DynJump { index, destinations, args } => made_none(
                LirOp::DynJump {
                    index,
                    destinations: destinations@,
                    branch: plain_branch(args@),
                },
            ),
            LirCall::Oracle { name, arg_tys, args, ret_tys, outs } => LirCallView::Op {
                op: LirOp::Oracle {
                    name: name@,
                    arg_tys: arg_tys@,
                    args: args@,
                    ret_tys: ret_tys@,
                },
                reply: some_values(outs@),
            },
            LirCall::Action { name, guard, arg_tys, args, fallbacks, ret_tys, outs } =>
                LirCallView::Op {
                op: LirOp::Action {
                    name: name@,
                    guard,
                    arg_tys: arg_tys@,
                    args: args@,
                    fallbacks: fallbacks@,
                    ret_tys: ret_tys@,
                },
                reply: some_values(outs@),
            },
            LirCall::Rng { ty, out } => made_one(LirOp::Rng { ty }, out),
            LirCall::Alloca { elem_ty, count, out } => made_one(
                LirOp::Alloca { elem_ty, count },
                out,
            ),
            LirCall::PtrLoad { ptr, ty, out } => made_one(LirOp::PtrLoad { ptr, ty }, out),
            LirCall::PtrStore { ptr, val } => made_none(LirOp::PtrStore { ptr, val }),
            LirCall::PtrOffset { ptr, idx, out } => made_one(LirOp::PtrOffset { ptr, idx }, out),
            LirCall::PtrIndexLoad { ptr, idx, pointee_ty, outs } => LirCallView::Op {
                op: LirOp::PtrIndexLoad { ptr, idx, pointee_ty },
                reply: some_values(outs@),
            },
            LirCall::PtrIndexStore { ptr, idx, vals, pointee_ty } => made_none(
                LirOp::PtrIndexStore { ptr, idx, vals: vals@, pointee_ty },
            ),
            LirCall::ValueType { val, ty } => LirCallView::ValueType { val, ty },
            LirCall::SetProv => LirCallView::SetProv,
        }
    }
}

/// Recorded calls.
#[derive(PartialEq, Debug)]
pub struct SavedLirModule {
    pub calls: Vec<LirCall>,
}

/// The views of a list of calls.
pub open spec fn call_views(s: Seq<LirCall>) -> Seq<LirCallView> {
    s.map_values(|c: LirCall| c@)
}

impl View for SavedLirModule {
    type V = Seq<LirCallView>;

    open spec fn view(&self) -> Seq<LirCallView> {
        call_views(self.calls@)
    }
}

impl Default for SavedLirModule {
    fn default() -> (r: Self)
        ensures
            r@ == Seq::<LirCallView>::empty(),
    {
        let r = SavedLirModule { calls: Vec::new() };
        assert(r@ =~= Seq::empty());
        r
    }
}

// ---------------------------------------------------------------------------
// What a replay is
// ---------------------------------------------------------------------------

/// The handles of a list of numbers.
pub open spec fn picked<V>(idx: Seq<u32>, vals: Seq<V>) -> Seq<V> {
    Seq::new(idx.len(), |i: int| vals[idx[i] as int])
}

/// The arguments of a jump with the handles of a target.
pub open spec fn picked_branch<V>(b: LirBranch<u32>, vals: Seq<V>) -> LirBranch<V> {
    LirBranch { args: picked(b.args, vals), reentry: b.reentry }
}

/// The handle with a number.
pub open spec fn handle_at<V>(handles: Seq<V>, i: u32) -> V {
    handles[i as int]
}

/// A recorded call with the handles of a target in place of numbers.
pub open spec fn mapped<V, B>(op: LirOp<u32, u32>, vals: Seq<V>, blocks: Seq<B>) -> LirOp<V, B> {
    match op {
        LirOp::DefineStruct { def } => LirOp::DefineStruct { def },
        LirOp::BeginFunction { name, params, ret } => LirOp::BeginFunction { name, params, ret },
        LirOp::EndFunction => LirOp::EndFunction,
        LirOp::CreateBlock => LirOp::CreateBlock,
        LirOp::AddBlockParam { block, ty } => LirOp::AddBlockParam {
            block: handle_at(blocks, block),
            ty,
        },
        LirOp::SwitchToBlock { block } => LirOp::SwitchToBlock { block: handle_at(blocks, block) },
        LirOp::Iconst { ty, val } => LirOp::Iconst { ty, val },
        LirOp::Binary { kind, lhs, rhs } => LirOp::Binary {
            kind,
            lhs: handle_at(vals, lhs),
            rhs: handle_at(vals, rhs),
        },
        LirOp::Not { val } => LirOp::Not { val: handle_at(vals, val) },
        LirOp::Icmp { pred, lhs, rhs } => LirOp::Icmp {
            pred,
            lhs: handle_at(vals, lhs),
            rhs: handle_at(vals, rhs),
        },
        LirOp::Convert { kind, val, dst_ty } => LirOp::Convert {
            kind,
            val: handle_at(vals, val),
            dst_ty,
        },
        LirOp::Select { cond, then_val, else_val } => LirOp::Select {
            cond: handle_at(vals, cond),
            then_val: handle_at(vals, then_val),
            else_val: handle_at(vals, else_val),
        },
        LirOp::Jump { target, branch } => LirOp::Jump {
            target: handle_at(blocks, target),
            branch: picked_branch(branch, vals),
        },
        LirOp::Branch { cond, then_block, then_branch, else_block, else_branch } => LirOp::Branch {
            cond: handle_at(vals, cond),
            then_block: handle_at(blocks, then_block),
            then_branch: picked_branch(then_branch, vals),
            else_block: handle_at(blocks, else_block),
            else_branch: picked_branch(else_branch, vals),
        },
        LirOp::Ret { vals: vs } => LirOp::Ret { vals: picked(vs, vals) },
        LirOp::CallExtern { name, arg_tys, args, ret_ty } => LirOp::CallExtern {
            name,
            arg_tys,
            args: picked(args, vals),
            ret_ty,
        },
        LirOp::Call { name, arg_tys, args, ret_ty } => LirOp::Call {
            name,
            arg_tys,
            args: picked(args, vals),
            ret_ty,
        },
        LirOp::Switch { index, cases, default_block, default_branch } => LirOp::Switch {
            index: handle_at(vals, index),
            cases: cases.map_values(
                |c: (i64, u32, LirBranch<u32>)|
                    (c.0, handle_at(blocks, c.1), picked_branch(c.2, vals)),
            ),
            default_block: handle_at(blocks, default_block),
            default_branch: picked_branch(default_branch, vals),
        },
        LirOp::BlockAddr { block } => LirOp::BlockAddr { block: handle_at(blocks, block) },
        LirOp::DynJump { index, destinations, branch } => LirOp::DynJump {
            index: handle_at(vals, index),
            destinations: picked(destinations, blocks),
            branch: picked_branch(branch, vals),
        },
        LirOp::Oracle { name, arg_tys, args, ret_tys } => LirOp::Oracle {
            name,
            arg_tys,
            args: picked(args, vals),
            ret_tys,
        },
        LirOp::Action { name, guard, arg_tys, args, fallbacks, ret_tys } => LirOp::Action {
            name,
            guard: handle_at(vals, guard),
            arg_tys,
            args: picked(args, vals),
            fallbacks: picked(fallbacks, vals),
            ret_tys,
        },
        LirOp::Rng { ty } => LirOp::Rng { ty },
        LirOp::Alloca { elem_ty, count } => LirOp::Alloca { elem_ty, count },
        LirOp::PtrLoad { ptr, ty } => LirOp::PtrLoad { ptr: handle_at(vals, ptr), ty },
        LirOp::PtrStore { ptr, val } => LirOp::PtrStore {
            ptr: handle_at(vals, ptr),
            val: handle_at(vals, val),
        },
        LirOp::PtrOffset { ptr, idx } => LirOp::PtrOffset {
            ptr: handle_at(vals, ptr),
            idx: handle_at(vals, idx),
        },
        LirOp::PtrIndexLoad { ptr, idx, pointee_ty } => LirOp::PtrIndexLoad {
            ptr: handle_at(vals, ptr),
            idx: handle_at(vals, idx),
            pointee_ty,
        },
        LirOp::PtrIndexStore { ptr, idx, vals: vs, pointee_ty } => LirOp::PtrIndexStore {
            ptr: handle_at(vals, ptr),
            idx: handle_at(vals, idx),
            vals: picked(vs, vals),
            pointee_ty,
        },
    }
}

/// Whether every number of a list is below `n`.
pub open spec fn all_below(s: Seq<u32>, n: nat) -> bool {
    forall|i: int| 0 <= i < s.len() ==> (#[trigger] s[i]) < n
}

/// Whether the case of a switch names values below `nv` and a block below `nb`.
pub open spec fn case_in(c: (i64, u32, LirBranch<u32>), nv: nat, nb: nat) -> bool {
    c.1 < nb && all_below(c.2.args, nv)
}

/// Whether a recorded call names values below `nv` and blocks below `nb`.
pub open spec fn handles_in(op: LirOp<u32, u32>, nv: nat, nb: nat) -> bool {
    match op {
        LirOp::AddBlockParam { block, .. } => block < nb,
        LirOp::SwitchToBlock { block } => block < nb,
        LirOp::Binary { lhs, rhs, .. } => lhs < nv && rhs < nv,
        LirOp::Not { val } => val < nv,
        LirOp::Icmp { lhs, rhs, .. } => lhs < nv && rhs < nv,
        LirOp::Convert { val, .. } => val < nv,
        LirOp::Select { cond, then_val, else_val } => cond < nv && then_val < nv && else_val < nv,
        LirOp::Jump { target, branch } => target < nb && all_below(branch.args, nv),
        LirOp::Branch { cond, then_block, then_branch, else_block, else_branch } => {
            &&& cond < nv
            &&& then_block < nb
            &&& else_block < nb
            &&& all_below(then_branch.args, nv)
            &&& all_below(else_branch.args, nv)
        },
        LirOp::Ret { vals } => all_below(vals, nv),
        LirOp::CallExtern { args, .. } => all_below(args, nv),
        LirOp::Call { args, .. } => all_below(args, nv),
        LirOp::Switch { index, cases, default_block, default_branch } => {
            &&& index < nv
            &&& default_block < nb
            &&& all_below(default_branch.args, nv)
            &&& forall|i: int| 0 <= i < cases.len() ==> case_in(#[trigger] cases[i], nv, nb)
        },
        LirOp::BlockAddr { block } => block < nb,
        LirOp::DynJump { index, destinations, branch } => {
            &&& index < nv
            &&& all_below(destinations, nb)
            &&& all_below(branch.args, nv)
        },
        LirOp::Oracle { args, .. } => all_below(args, nv),
        LirOp::Action { guard, args, fallbacks, .. } => {
            &&& guard < nv
            &&& all_below(args, nv)
            &&& all_below(fallbacks, nv)
        },
        LirOp::PtrLoad { ptr, .. } => ptr < nv,
        LirOp::PtrStore { ptr, val } => ptr < nv && val < nv,
        LirOp::PtrOffset { ptr, idx } => ptr < nv && idx < nv,
        LirOp::PtrIndexLoad { ptr, idx, .. } => ptr < nv && idx < nv,
        LirOp::PtrIndexStore { ptr, idx, vals, .. } => ptr < nv && idx < nv && all_below(vals, nv),
        _ => true,
    }
}

/// The values of a list of groups, in order.
pub open spec fn flat<V>(groups: Seq<Seq<V>>) -> Seq<V>
    decreases groups.len(),
{
    if groups.len() == 0 {
        Seq::empty()
    } else {
        flat(groups.drop_last()) + groups.last()
    }
}

/// The states that a replay passes through, and the answer to each call. A note
/// has the answer nothing.
pub struct ReplayRun<T: LirTarget> {
    pub targets: Seq<T>,
    pub replies: Seq<LirReply<T::Value, T::Block>>,
}

/// The values made by the first `n` answers.
pub open spec fn values_made<V, B>(replies: Seq<LirReply<V, B>>, n: int) -> Seq<V>
    decreases n,
{
    if n <= 0 {
        Seq::empty()
    } else {
        values_made(replies, n - 1) + flat(replies[n - 1].groups)
    }
}

/// The blocks made by the first `n` answers.
pub open spec fn blocks_made<V, B>(replies: Seq<LirReply<V, B>>, n: int) -> Seq<B>
    decreases n,
{
    if n <= 0 {
        Seq::empty()
    } else {
        blocks_made(replies, n - 1) + replies[n - 1].blocks
    }
}

/// Whether a target may go from `pre` to `post` on a recorded call, with the
/// given handles at hand.
pub open spec fn call_step<T: LirTarget>(
    call: LirCallView,
    pre: T,
    vals: Seq<T::Value>,
    blocks: Seq<T::Block>,
    post: T,
    reply: LirReply<T::Value, T::Block>,
) -> bool {
    match call {
        LirCallView::Op { op, .. } => pre.step(mapped(op, vals, blocks), post, reply),
        _ => post == pre && reply == no_reply::<T::Value, T::Block>(),
    }
}

/// Whether a recorded call can be made in a state, with the given handles at
/// hand.
pub open spec fn call_ready<T: LirTarget>(
    call: LirCallView,
    pre: T,
    vals: Seq<T::Value>,
    blocks: Seq<T::Block>,
) -> bool {
    match call {
        LirCallView::Op { op, .. } => handles_in(op, vals.len(), blocks.len()) && pre.accepts(
            mapped(op, vals, blocks),
        ),
        _ => true,
    }
}

impl<T: LirTarget> ReplayRun<T> {
    /// Whether this is a replay of the first `n` calls into `start`.
    pub open spec fn replays(self, calls: Seq<LirCallView>, start: T, n: int) -> bool {
        &&& 0 <= n <= calls.len()
        &&& self.targets.len() == n + 1
        &&& self.replies.len() == n
        &&& self.targets[0] == start
        &&& forall|i: int| 0 <= i < n ==> #[trigger] self.step_at(calls, i)
    }

    /// Whether call `i` was made in this replay.
    pub open spec fn step_at(self, calls: Seq<LirCallView>, i: int) -> bool {
        call_step(
            calls[i],
            self.targets[i],
            values_made(self.replies, i),
            blocks_made(self.replies, i),
            self.targets[i + 1],
            self.replies[i],
        )
    }

    /// Whether call `n` can be made behind this replay.
    pub open spec fn ready_at(self, calls: Seq<LirCallView>, n: int) -> bool {
        call_ready(
            calls[n],
            self.targets[n],
            values_made(self.replies, n),
            blocks_made(self.replies, n),
        )
    }
}

/// Whether recorded calls can be replayed into `start`: whatever the target
/// answers, the next call names handles that are there and is accepted.
pub open spec fn replayable<T: LirTarget>(calls: Seq<LirCallView>, start: T) -> bool {
    forall|run: ReplayRun<T>, n: int|
        0 <= n < calls.len() && #[trigger] run.replays(calls, start, n) ==> run.ready_at(calls, n)
}

/// Whether `end` is reached by a replay of all calls into `start`.
pub open spec fn replayed<T: LirTarget>(calls: Seq<LirCallView>, start: T, end: T) -> bool {
    exists|run: ReplayRun<T>| #[trigger]
        run.replays(calls, start, calls.len() as int) && run.targets.last() == end
}

// ---------------------------------------------------------------------------
// Replay
// ---------------------------------------------------------------------------

/// The handle with a number.
fn handle<V: Copy>(handles: &Vec<V>, i: u32) -> (r: V)
    requires
        i < handles@.len(),
    ensures
        r == handle_at(handles@, i),
{
    handles[i as usize]
}

/// The handles of a list of numbers.
fn pick<V: Copy>(idx: &Vec<u32>, vals: &Vec<V>) -> (r: Vec<V>)
    requires
        all_below(idx@, vals@.len()),
    ensures
        r@ == picked(idx@, vals@),
{
    let mut out: Vec<V> = Vec::new();
    let mut i: usize = 0;
    while i < idx.len()
        invariant
            i <= idx.len(),
            all_below(idx@, vals@.len()),
            out@.len() == i,
            forall|k: int| 0 <= k < i ==> #[trigger] out@[k] == vals@[idx@[k] as int],
        decreases idx.len() - i,
    {
        assert(idx@[i as int] < vals@.len());
        out.push(vals[idx[i] as usize]);
        i += 1;
    }
    assert(out@ =~= picked(idx@, vals@));
    out
}

/// The arguments of a jump with the handles of a target.
fn pick_branch<V: Copy>(idx: &Vec<u32>, vals: &Vec<V>) -> (r: BranchTarget<V>)
    requires
        all_below(idx@, vals@.len()),
    ensures
        r@ == picked_branch(plain_branch(idx@), vals@),
{
    BranchTarget::args(pick(idx, vals))
}

/// The cases of a switch with the handles of a target.
fn pick_cases<V: Copy, B: Copy>(
    cases: &Vec<(i64, u32, Vec<u32>)>,
    vals: &Vec<V>,
    blocks: &Vec<B>,
) -> (r: Vec<(i64, B, BranchTarget<V>)>)
    requires
        forall|i: int|
            0 <= i < cases@.len() ==> case_in(
                #[trigger] saved_cases(cases@)[i],
                vals@.len(),
                blocks@.len(),
            ),
    ensures
        switch_views(r@) == saved_cases(cases@).map_values(
            |c: (i64, u32, LirBranch<u32>)|
                (c.0, handle_at(blocks@, c.1), picked_branch(c.2, vals@)),
        ),
{
    let ghost sv = saved_cases(cases@);
    let mut out: Vec<(i64, B, BranchTarget<V>)> = Vec::new();
    let mut i: usize = 0;
    while i < cases.len()
        invariant
            i <= cases.len(),
            sv == saved_cases(cases@),
            forall|k: int|
                0 <= k < cases@.len() ==> case_in(#[trigger] sv[k], vals@.len(), blocks@.len()),
            out@.len() == i,
            forall|k: int|
                0 <= k < i ==> ((#[trigger] out@[k]).0, out@[k].1, out@[k].2@) == (
                    sv[k].0,
                    blocks@[sv[k].1 as int],
                    picked_branch(sv[k].2, vals@),
                ),
        decreases cases.len() - i,
    {
        assert(case_in(sv[i as int], vals@.len(), blocks@.len()));
        let c = &cases[i];
        out.push((c.0, blocks[c.1 as usize], pick_branch(&c.2, vals)));
        i += 1;
    }
    assert(switch_views(out@) =~= sv.map_values(
        |c: (i64, u32, LirBranch<u32>)| (c.0, handle_at(blocks@, c.1), picked_branch(c.2, vals@)),
    ));
    out
}

/// One group with one value.
proof fn lemma_flat_one<V>(v: V)
    ensures
        flat(seq![seq![v]]) == seq![v],
{
    lemma_flat_group(seq![v]);
}

/// One group.
proof fn lemma_flat_group<V>(vs: Seq<V>)
    ensures
        flat(seq![vs]) == vs,
{
    let g = seq![vs];
    assert(g.drop_last() =~= Seq::empty());
    assert(flat(g.drop_last()) =~= Seq::empty());
    assert(flat(g) =~= vs);
}

/// Append the values of a list of groups.
fn push_groups<V: Copy>(vals: &mut Vec<V>, groups: &Vec<Vec<V>>)
    ensures
        final(vals)@ == old(vals)@ + flat(group_views(groups@)),
{
    let ghost start = vals@;
    let ghost gv = group_views(groups@);
    let mut i: usize = 0;
    assert(gv.take(0) =~= Seq::empty());
    assert(start + flat(gv.take(0)) =~= start);
    while i < groups.len()
        invariant
            i <= groups.len(),
            gv == group_views(groups@),
            vals@ == start + flat(gv.take(i as int)),
        decreases groups.len() - i,
    {
        proof {
            assert(gv.take(i + 1).drop_last() =~= gv.take(i as int));
            assert(gv.take(i + 1).last() == groups@[i as int]@);
        }
        push_all(vals, &groups[i]);
        assert(vals@ =~= start + flat(gv.take(i + 1)));
        i += 1;
    }
    assert(gv.take(i as int) =~= gv);
}

/// Append a list of values.
fn push_all<V: Copy>(vals: &mut Vec<V>, more: &Vec<V>)
    ensures
        final(vals)@ == old(vals)@ + more@,
{
    let ghost start = vals@;
    let mut i: usize = 0;
    while i < more.len()
        invariant
            i <= more.len(),
            vals@ == start + more@.take(i as int),
        decreases more.len() - i,
    {
        vals.push(more[i]);
        assert(vals@ =~= start + more@.take(i + 1));
        i += 1;
    }
    assert(more@.take(i as int) =~= more@);
}

/// Replay a call that computes a value.
fn replay_arith<T: LirTarget>(
    call: &LirCall,
    target: &mut T,
    vals: &mut Vec<T::Value>,
    blocks: &mut Vec<T::Block>,
) -> (r: Ghost<LirReply<T::Value, T::Block>>)
    requires
        call_ready(call@, *old(target), old(vals)@, old(blocks)@),
        call is Add || call is Sub || call is Mul || call is Udiv || call is Sdiv || call is And || call is Or || call is Xor || call is Not || call is Shl || call is Lshr || call is Ashr || call is Icmp || call is Zext || call is Sext || call is Trunc || call is Select || call is Iconst || call is Rng,
    ensures
        call_step(call@, *old(target), old(vals)@, old(blocks)@, *final(target), r@),
        final(vals)@ == old(vals)@ + flat(r@.groups),
        final(blocks)@ == old(blocks)@ + r@.blocks,
{
    match call {
        LirCall::Add { lhs, rhs, .. } => {
            let v = target.add(handle(vals, *lhs), handle(vals, *rhs));
            vals.push(v);
            proof {
                lemma_flat_one(v);
            }
            Ghost(one_value(v))
        },
        LirCall::Sub { lhs, rhs, .. } => {
            let v = target.sub(handle(vals, *lhs), handle(vals, *rhs));
            vals.push(v);
            proof {
                lemma_flat_one(v);
            }
            Ghost(one_value(v))
        },
        LirCall::Mul { lhs, rhs, .. } => {
            let v = target.mul(handle(vals, *lhs), handle(vals, *rhs));
            vals.push(v);
            proof {
                lemma_flat_one(v);
            }
            Ghost(one_value(v))
        },
        LirCall::Udiv { lhs, rhs, .. } => {
            let v = target.udiv(handle(vals, *lhs), handle(vals, *rhs));
            vals.push(v);
            proof {
                lemma_flat_one(v);
            }
            Ghost(one_value(v))
        },
        LirCall::Sdiv { lhs, rhs, .. } => {
            let v = target.sdiv(handle(vals, *lhs), handle(vals, *rhs));
            vals.push(v);
            proof {
                lemma_flat_one(v);
            }
            Ghost(one_value(v))
        },
        LirCall::And { lhs, rhs, .. } => {
            let v = target.and(handle(vals, *lhs), handle(vals, *rhs));
            vals.push(v);
            proof {
                lemma_flat_one(v);
            }
            Ghost(one_value(v))
        },
        LirCall::Or { lhs, rhs, .. } => {
            let v = target.or(handle(vals, *lhs), handle(vals, *rhs));
            vals.push(v);
            proof {
                lemma_flat_one(v);
            }
            Ghost(one_value(v))
        },
        LirCall::Xor { lhs, rhs, .. } => {
            let v = target.xor(handle(vals, *lhs), handle(vals, *rhs));
            vals.push(v);
            proof {
                lemma_flat_one(v);
            }
            Ghost(one_value(v))
        },
        LirCall::Not { val, .. } => {
            let v = target.not(handle(vals, *val));
            vals.push(v);
            proof {
                lemma_flat_one(v);
            }
            Ghost(one_value(v))
        },
        LirCall::Shl { val, shift, .. } => {
            let v = target.shl(handle(vals, *val), handle(vals, *shift));
            vals.push(v);
            proof {
                lemma_flat_one(v);
            }
            Ghost(one_value(v))
        },
        LirCall::Lshr { val, shift, .. } => {
            let v = target.lshr(handle(vals, *val), handle(vals, *shift));
            vals.push(v);
            proof {
                lemma_flat_one(v);
            }
            Ghost(one_value(v))
        },
        LirCall::Ashr { val, shift, .. } => {
            let v = target.ashr(handle(vals, *val), handle(vals, *shift));
            vals.push(v);
            proof {
                lemma_flat_one(v);
            }
            Ghost(one_value(v))
        },
        LirCall::Icmp { pred, lhs, rhs, .. } => {
            let v = target.icmp(*pred, handle(vals, *lhs), handle(vals, *rhs));
            vals.push(v);
            proof {
                lemma_flat_one(v);
            }
            Ghost(one_value(v))
        },
        LirCall::Zext { val, dst_ty, .. } => {
            let v = target.zext(handle(vals, *val), dst_ty.clone());
            vals.push(v);
            proof {
                lemma_flat_one(v);
            }
            Ghost(one_value(v))
        },
        LirCall::Sext { val, dst_ty, .. } => {
            let v = target.sext(handle(vals, *val), dst_ty.clone());
            vals.push(v);
            proof {
                lemma_flat_one(v);
            }
            Ghost(one_value(v))
        },
        LirCall::Trunc { val, dst_ty, .. } => {
            let v = target.trunc(handle(vals, *val), dst_ty.clone());
            vals.push(v);
            proof {
                lemma_flat_one(v);
            }
            Ghost(one_value(v))
        },
        LirCall::Select { cond, then_val, else_val, .. } => {
            let v = target.select(handle(vals, *cond), handle(vals, *then_val), handle(vals, *else_val));
            vals.push(v);
            proof {
                lemma_flat_one(v);
            }
            Ghost(one_value(v))
        },
        LirCall::Iconst { ty, val, .. } => {
            let v = target.iconst(ty.clone(), *val);
            vals.push(v);
            proof {
                lemma_flat_one(v);
            }
            Ghost(one_value(v))
        },
        LirCall::Rng { ty, .. } => {
            let v = target.rng(ty.clone());
            vals.push(v);
            proof {
                lemma_flat_one(v);
            }
            Ghost(one_value(v))
        },
        _ => Ghost(no_reply()),
    }
}

/// Replay a call that concerns memory.
fn replay_memory<T: LirTarget>(
    call: &LirCall,
    target: &mut T,
    vals: &mut Vec<T::Value>,
    blocks: &mut Vec<T::Block>,
) -> (r: Ghost<LirReply<T::Value, T::Block>>)
    requires
        call_ready(call@, *old(target), old(vals)@, old(blocks)@),
        call is Alloca || call is PtrLoad || call is PtrStore || call is PtrOffset || call is PtrIndexLoad || call is PtrIndexStore,
    ensures
        call_step(call@, *old(target), old(vals)@, old(blocks)@, *final(target), r@),
        final(vals)@ == old(vals)@ + flat(r@.groups),
        final(blocks)@ == old(blocks)@ + r@.blocks,
{
    match call {
        LirCall::Alloca { elem_ty, count, .. } => {
            let v = target.alloca(elem_ty.clone(), *count);
            vals.push(v);
            proof {
                lemma_flat_one(v);
            }
            Ghost(one_value(v))
        },
        LirCall::PtrLoad { ptr, ty, .. } => {
            let v = target.ptr_load(handle(vals, *ptr), ty.clone());
            vals.push(v);
            proof {
                lemma_flat_one(v);
            }
            Ghost(one_value(v))
        },
        LirCall::PtrStore { ptr, val } => {
            target.ptr_store(handle(vals, *ptr), handle(vals, *val));
            Ghost(no_reply())
        },
        LirCall::PtrOffset { ptr, idx, .. } => {
            let v = target.ptr_offset(handle(vals, *ptr), handle(vals, *idx));
            vals.push(v);
            proof {
                lemma_flat_one(v);
            }
            Ghost(one_value(v))
        },
        LirCall::PtrIndexLoad { ptr, idx, pointee_ty, .. } => {
            let outs = target.ptr_index_load(handle(vals, *ptr), handle(vals, *idx), pointee_ty);
            push_all(vals, &outs);
            proof {
                lemma_flat_group(outs@);
            }
            Ghost(some_values(outs@))
        },
        LirCall::PtrIndexStore { ptr, idx, vals: stored, pointee_ty } => {
            let list = pick(stored, vals);
            target.ptr_index_store(handle(vals, *ptr), handle(vals, *idx), list.as_slice(), pointee_ty);
            Ghost(no_reply())
        },
        _ => Ghost(no_reply()),
    }
}

/// Replay a call that concerns structs, functions and blocks.
fn replay_control<T: LirTarget>(
    call: &LirCall,
    target: &mut T,
    vals: &mut Vec<T::Value>,
    blocks: &mut Vec<T::Block>,
) -> (r: Ghost<LirReply<T::Value, T::Block>>)
    requires
        call_ready(call@, *old(target), old(vals)@, old(blocks)@),
        call is DefineStruct || call is BeginFunction || call is CreateBlock || call is EndFunction || call is AddBlockParam || call is SwitchToBlock || call is Jump || call is Branch || call is Ret || call is Switch || call is DynJump || call is BlockAddr,
    ensures
        call_step(call@, *old(target), old(vals)@, old(blocks)@, *final(target), r@),
        final(vals)@ == old(vals)@ + flat(r@.groups),
        final(blocks)@ == old(blocks)@ + r@.blocks,
{
    match call {
        LirCall::DefineStruct { def, .. } => {
            let id = target.define_struct(def.clone());
            Ghost(LirReply { id: Some(id), blocks: Seq::empty(), groups: Seq::empty() })
        },
        LirCall::BeginFunction { name, params, ret, .. } => {
            let (entry, groups) = target.begin_function(
                name.as_str(),
                params.as_slice(),
                clone_lir_ret(ret),
            );
            blocks.push(entry);
            push_groups(vals, &groups);
            Ghost(LirReply { id: None, blocks: seq![entry], groups: group_views(groups@) })
        },
        LirCall::CreateBlock { .. } => {
            let b = target.create_block();
            blocks.push(b);
            Ghost(LirReply { id: None, blocks: seq![b], groups: Seq::empty() })
        },
        LirCall::EndFunction => {
            target.end_function();
            Ghost(no_reply())
        },
        LirCall::AddBlockParam { block, ty, .. } => {
            let v = target.add_block_param(handle(blocks, *block), ty.clone());
            vals.push(v);
            proof {
                lemma_flat_one(v);
            }
            Ghost(one_value(v))
        },
        LirCall::SwitchToBlock { block } => {
            target.switch_to_block(handle(blocks, *block));
            Ghost(no_reply())
        },
        LirCall::Jump { target: to, args } => {
            target.jump(handle(blocks, *to), pick_branch(args, vals));
            Ghost(no_reply())
        },
        LirCall::Branch { cond, then_block, then_args, else_block, else_args } => {
            let then_branch = pick_branch(then_args, vals);
            let else_branch = pick_branch(else_args, vals);
            target.branch(
                handle(vals, *cond),
                handle(blocks, *then_block),
                then_branch,
                handle(blocks, *else_block),
                else_branch,
            );
            Ghost(no_reply())
        },
        LirCall::Ret { vals: idx } => {
            let list = pick(idx, vals);
            target.ret(list.as_slice());
            Ghost(no_reply())
        },
        LirCall::Switch { index, cases, default_block, default_args } => {
            let list = pick_cases(cases, vals, blocks);
            let default_branch = pick_branch(default_args, vals);
            target.switch(
                handle(vals, *index),
                list.as_slice(),
                handle(blocks, *default_block),
                default_branch,
            );
            Ghost(no_reply())
        },
        LirCall::DynJump { index, destinations, args } => {
            let to = pick(destinations, blocks);
            let branch = pick_branch(args, vals);
            target.dyn_jump(handle(vals, *index), to.as_slice(), branch);
            Ghost(no_reply())
        },
        LirCall::BlockAddr { block, .. } => {
            let v = target.block_addr(handle(blocks, *block));
            vals.push(v);
            proof {
                lemma_flat_one(v);
            }
            Ghost(one_value(v))
        },
        _ => Ghost(no_reply()),
    }
}

/// Replay a call of a function, an oracle or an action.
fn replay_invocation<T: LirTarget>(
    call: &LirCall,
    target: &mut T,
    vals: &mut Vec<T::Value>,
    blocks: &mut Vec<T::Block>,
) -> (r: Ghost<LirReply<T::Value, T::Block>>)
    requires
        call_ready(call@, *old(target), old(vals)@, old(blocks)@),
        call is CallExtern || call is Call || call is Oracle || call is Action,
    ensures
        call_step(call@, *old(target), old(vals)@, old(blocks)@, *final(target), r@),
        final(vals)@ == old(vals)@ + flat(r@.groups),
        final(blocks)@ == old(blocks)@ + r@.blocks,
{
    match call {
        LirCall::CallExtern { name, arg_tys, args, ret_ty, .. } => {
            let list = pick(args, vals);
            let outs = target.call_extern(
                name.as_str(),
                arg_tys.as_slice(),
                list.as_slice(),
                clone_lir_ret(ret_ty),
            );
            push_all(vals, &outs);
            proof {
                lemma_flat_group(outs@);
            }
            Ghost(some_values(outs@))
        },
        LirCall::Call { name, arg_tys, args, ret_ty, .. } => {
            let list = pick(args, vals);
            let outs = target.call(
                name.as_str(),
                arg_tys.as_slice(),
                list.as_slice(),
                clone_lir_ret(ret_ty),
            );
            push_all(vals, &outs);
            proof {
                lemma_flat_group(outs@);
            }
            Ghost(some_values(outs@))
        },
        LirCall::Oracle { name, arg_tys, args, ret_tys, .. } => {
            let list = pick(args, vals);
            let outs = target.oracle(
                name.as_str(),
                arg_tys.as_slice(),
                list.as_slice(),
                ret_tys.as_slice(),
            );
            push_all(vals, &outs);
            proof {
                lemma_flat_group(outs@);
            }
            Ghost(some_values(outs@))
        },
        LirCall::Action { name, guard, arg_tys, args, fallbacks, ret_tys, .. } => {
            let list = pick(args, vals);
            let real_fallbacks = pick(fallbacks, vals);
            let outs = target.action(
                name.as_str(),
                handle(vals, *guard),
                arg_tys.as_slice(),
                list.as_slice(),
                real_fallbacks.as_slice(),
                ret_tys.as_slice(),
            );
            push_all(vals, &outs);
            proof {
                lemma_flat_group(outs@);
            }
            Ghost(some_values(outs@))
        },
        _ => Ghost(no_reply()),
    }
}

/// Replay a call.
fn replay_call<T: LirTarget>(
    call: &LirCall,
    target: &mut T,
    vals: &mut Vec<T::Value>,
    blocks: &mut Vec<T::Block>,
) -> (r: Ghost<LirReply<T::Value, T::Block>>)
    requires
        call_ready(call@, *old(target), old(vals)@, old(blocks)@),
    ensures
        call_step(call@, *old(target), old(vals)@, old(blocks)@, *final(target), r@),
        final(vals)@ == old(vals)@ + flat(r@.groups),
        final(blocks)@ == old(blocks)@ + r@.blocks,
{
    match call {
        LirCall::Alloca { .. }
        | LirCall::PtrLoad { .. }
        | LirCall::PtrStore { .. }
        | LirCall::PtrOffset { .. }
        | LirCall::PtrIndexLoad { .. }
        | LirCall::PtrIndexStore { .. } => replay_memory(call, target, vals, blocks),
        LirCall::DefineStruct { .. }
        | LirCall::BeginFunction { .. }
        | LirCall::CreateBlock { .. }
        | LirCall::EndFunction
        | LirCall::AddBlockParam { .. }
        | LirCall::SwitchToBlock { .. }
        | LirCall::Jump { .. }
        | LirCall::Branch { .. }
        | LirCall::Ret { .. }
        | LirCall::Switch { .. }
        | LirCall::DynJump { .. }
        | LirCall::BlockAddr { .. } => replay_control(call, target, vals, blocks),
        LirCall::CallExtern { .. }
        | LirCall::Call { .. }
        | LirCall::Oracle { .. }
        | LirCall::Action { .. } => replay_invocation(call, target, vals, blocks),
        LirCall::ValueType { .. }
        | LirCall::SetProv => Ghost(no_reply()),
        _ => replay_arith(call, target, vals, blocks),
    }
}

impl SavedLirModule {
    /// Replay the calls into every target of a list.
    pub fn replay_into_many<T: LirTarget>(&self, targets: &mut Vec<T>)
        requires
            forall|i: int|
                0 <= i < old(targets)@.len() ==> replayable(self@, #[trigger] old(targets)@[i]),
        ensures
            final(targets)@.len() == old(targets)@.len(),
            forall|i: int|
                0 <= i < final(targets)@.len() ==> replayed(
                    self@,
                    old(targets)@[i],
                    #[trigger] final(targets)@[i],
                ),
    {
        let ghost start = targets@;
        let mut rest: Vec<T> = Vec::new();
        std::mem::swap(&mut rest, targets);
        let mut back: Vec<T> = Vec::new();
        while rest.len() > 0
            invariant
                rest@.len() + back@.len() == start.len(),
                rest@ == start.take(rest@.len() as int),
                forall|i: int| 0 <= i < start.len() ==> replayable(self@, #[trigger] start[i]),
                forall|i: int|
                    0 <= i < back@.len() ==> replayed(
                        self@,
                        start[start.len() - 1 - i],
                        #[trigger] back@[i],
                    ),
            decreases rest.len(),
        {
            let ghost n = rest@.len();
            assert(rest@[n - 1] == start[n - 1]);
            let mut t = rest.pop().unwrap();
            assert(replayable(self@, start[n - 1]));
            self.replay(&mut t);
            back.push(t);
            assert(rest@ =~= start.take(rest@.len() as int));
        }
        let ghost done = back@;
        let mut out: Vec<T> = Vec::new();
        while back.len() > 0
            invariant
                done.len() == start.len(),
                back@.len() + out@.len() == done.len(),
                back@ == done.take(back@.len() as int),
                forall|i: int|
                    0 <= i < done.len() ==> replayed(
                        self@,
                        start[start.len() - 1 - i],
                        #[trigger] done[i],
                    ),
                forall|i: int|
                    0 <= i < out@.len() ==> replayed(self@, start[i], #[trigger] out@[i]),
            decreases back.len(),
        {
            let ghost n = back@.len();
            assert(back@[n - 1] == done[n - 1]);
            let t = back.pop().unwrap();
            out.push(t);
            assert(replayed(self@, start[start.len() - n], done[n - 1]));
            assert(back@ =~= done.take(back@.len() as int));
        }
        *targets = out;
    }

    /// Replay the calls into two targets.
    pub fn replay_pair<A: LirTarget, B: LirTarget>(&self, a: &mut A, b: &mut B)
        requires
            replayable(self@, *old(a)),
            replayable(self@, *old(b)),
        ensures
            replayed(self@, *old(a), *final(a)),
            replayed(self@, *old(b), *final(b)),
    {
        self.replay(a);
        self.replay(b);
    }

    /// Replay the calls into a target. Numbers stand for the handles that the
    /// target has answered with, in order.
    pub fn replay<T: LirTarget>(&self, target: &mut T)
        requires
            replayable(self@, *old(target)),
        ensures
            replayed(self@, *old(target), *final(target)),
    {
        let ghost calls = self@;
        let ghost start = *target;
        let mut vals: Vec<T::Value> = Vec::new();
        let mut blocks: Vec<T::Block> = Vec::new();
        let ghost mut run = ReplayRun::<T> { targets: seq![start], replies: Seq::empty() };
        let mut i: usize = 0;
        assert(calls.len() == self.calls@.len());
        while i < self.calls.len()
            invariant
                i <= self.calls.len(),
                calls == call_views(self.calls@),
                replayable(calls, start),
                run.replays(calls, start, i as int),
                run.targets.last() == *target,
                vals@ == values_made(run.replies, i as int),
                blocks@ == blocks_made(run.replies, i as int),
            decreases self.calls.len() - i,
        {
            assert(run.ready_at(calls, i as int));
            assert(calls[i as int] == self.calls@[i as int]@);
            let ghost before = run;
            let reply = replay_call(&self.calls[i], target, &mut vals, &mut blocks);
            proof {
                run =
                ReplayRun {
                    targets: before.targets.push(*target),
                    replies: before.replies.push(reply@),
                };
                lemma_made(before.replies, reply@, i as int);
                assert forall|k: int| 0 <= k < i + 1 implies #[trigger] run.step_at(calls, k) by {
                    lemma_made(before.replies, reply@, k);
                    if k < i {
                        assert(before.step_at(calls, k));
                    }
                }
                lemma_made_next(run.replies, i as int);
            }
            i += 1;
        }
    }
}

/// What has been made does not depend on later answers.
proof fn lemma_made<V, B>(replies: Seq<LirReply<V, B>>, r: LirReply<V, B>, n: int)
    requires
        0 <= n <= replies.len(),
    ensures
        values_made(replies.push(r), n) == values_made(replies, n),
        blocks_made(replies.push(r), n) == blocks_made(replies, n),
    decreases n,
{
    if n > 0 {
        lemma_made(replies, r, n - 1);
        assert(replies.push(r)[n - 1] == replies[n - 1]);
    }
}

/// What has been made after one more answer.
proof fn lemma_made_next<V, B>(replies: Seq<LirReply<V, B>>, n: int)
    requires
        0 <= n < replies.len(),
    ensures
        values_made(replies, n + 1) == values_made(replies, n) + flat(replies[n].groups),
        blocks_made(replies, n + 1) == blocks_made(replies, n) + replies[n].blocks,
{
}

} // verus!
