//! What is lifted out of blocks, which writes are refused, which loops hints
//! announce, and how registers and initial cells are laid out.

use vstd::prelude::*;

use crate::boolar::{BIrStmt, BIrStmtView, BIrTermView};
use crate::common::{
    interned, interned_index, Constant, IrTypeView, MeasureSpec, PreInitView, StorageAccess,
    StorageId, StorageTable, Type,
};
use crate::ir::{
    ActionTarget, BranchView, IRBlock, IRBlockId, IRBlockTargetId, IRBlockView, IRTerminator,
    IRTypeId, IRVarId, Stmt, StmtView, TermView,
};
use crate::shape_law::law_interned;
use crate::virt::bytecode::{BytecodeRowKind, TripCount};
use crate::virt::canon::{
    canon_bir_term, canon_branch, canon_stmt, canon_term, const_kinds, const_slots, ir_key,
    ir_schema, lifted_bir_targets, lifted_cases, lifted_const, lifted_consts, lifted_targets,
    HandlerKey, ImmediateKind, IrImmediateSlot,
};
use crate::virt::cfg_hints::{
    arm_loop, arm_trip, arms_loops, arms_trip, blocks_trip, const_of_var, hinted_loops, loop_trip,
    loops_before, HintedLoop,
};
use crate::virt::ctx::{
    bir_blocks_violation, bir_stmt_violation, bir_stmts_violation, blocks_violation, stmt_violation,
    stmts_violation, targets_violation, DedupTable, ViolationView,
};
use crate::virt::handler::Check;
use crate::virt::hash::{constant_bytes, le_bytes, CommitmentConfig, IrHashAlgorithm};
use crate::virt::ir::{combined_access, first_node, generated_access, plan_of, row_words};
use crate::virt::module::{module_head, ModuleFrame};
use crate::virt::preinit::{segments_overlap, with_lane};
use crate::virt::regs::{
    arms, module_return_types, occurrences, param_types, registers, return_shape, return_types_of,
    types_increase, var_type, var_types, with_missing, with_type, with_types,
};
use crate::virt::schema::HandlerSlot;

verus! {

// ---------------------------------------------------------------------------
// Keys
// ---------------------------------------------------------------------------

/// Of a statement a key forgets its constant, or the constant term of its
/// polynomial, and nothing else; what it forgets is lifted.
pub proof fn law_key_forgets_constants(s: Stmt)
    ensures
        match s {
            Stmt::Const(c, ty) => canon_stmt(s@) == StmtView::Const(Constant { hi: 0, lo: 0 }, ty)
                && lifted_const(s@) == seq![c],
            Stmt::Poly { ty, coeffs, constant } => canon_stmt(s@) == (StmtView::Poly {
                ty,
                coeffs: coeffs@,
                constant: Constant { hi: 0, lo: 0 },
            }) && lifted_const(s@) == seq![constant],
            _ => canon_stmt(s@) == s@ && lifted_const(s@).len() == 0,
        },
{
}

/// Of a jump a key forgets the block that it goes to, and nothing else.
pub proof fn law_key_forgets_blocks(b: BranchView, t: IRBlockId)
    ensures
        b.dest is Block ==> canon_branch(b) == canon_branch(
            BranchView { dest: IRBlockTargetId::Block(t), args: b.args, reentry: b.reentry },
        ),
        !(b.dest is Block) ==> canon_branch(b) == b,
        canon_branch(b).args == b.args,
        canon_branch(b).reentry == b.reentry,
        canon_branch(b).dest is Block <==> b.dest is Block,
{
}

/// How the end of a block is kept in its key.
pub proof fn law_key_of_end(t: TermView)
    ensures
        match t {
            TermView::Jmp { target } => canon_term(t) == (TermView::Jmp::<IRVarId> {
                target: canon_branch(target),
            }),
            TermView::JumpCond { condition, then_target, else_target } => canon_term(t) == (
            TermView::JumpCond::<IRVarId> {
                condition,
                then_target: canon_branch(then_target),
                else_target: canon_branch(else_target),
            }),
            TermView::JumpTable { index, cases } => match canon_term(t) {
                TermView::JumpTable { index: i, cases: k } => {
                    &&& i == index
                    &&& k.len() == cases.len()
                    &&& forall|j: int|
                        0 <= j < k.len() ==> #[trigger] k[j] == (
                            cases[j].0,
                            canon_branch(cases[j].1),
                        )
                },
                _ => false,
            },
        },
{
}

/// Constants are lifted in the order of their statements, and the key tells that
/// there is one for each and of which type.
pub proof fn law_lifted_in_order(ss: Seq<StmtView>, s: StmtView)
    ensures
        lifted_consts(Seq::empty()).len() == 0,
        const_kinds(Seq::empty()).len() == 0,
        const_slots(Seq::empty()).len() == 0,
        match s {
            StmtView::Const(c, ty) => {
                &&& lifted_consts(ss.push(s)) == lifted_consts(ss).push(c)
                &&& const_kinds(ss.push(s)) == const_kinds(ss).push(ImmediateKind::Constant)
                &&& const_slots(ss.push(s)) == const_slots(ss).push(
                    IrImmediateSlot { kind: ImmediateKind::Constant, ty },
                )
            },
            StmtView::Poly { ty, coeffs: _, constant } => {
                &&& lifted_consts(ss.push(s)) == lifted_consts(ss).push(constant)
                &&& const_kinds(ss.push(s)) == const_kinds(ss).push(ImmediateKind::Constant)
                &&& const_slots(ss.push(s)) == const_slots(ss).push(
                    IrImmediateSlot { kind: ImmediateKind::Constant, ty },
                )
            },
            _ => {
                &&& lifted_consts(ss.push(s)) == lifted_consts(ss)
                &&& const_kinds(ss.push(s)) == const_kinds(ss)
                &&& const_slots(ss.push(s)) == const_slots(ss)
            },
        },
{
    assert(ss.push(s).drop_last() =~= ss);
    assert(ss.push(s).last() == s);
    match s {
        StmtView::Const(c, _) => {
            assert(lifted_consts(ss) + seq![c] =~= lifted_consts(ss).push(c));
        },
        StmtView::Poly { constant, .. } => {
            assert(lifted_consts(ss) + seq![constant] =~= lifted_consts(ss).push(constant));
        },
        _ => {
            assert(lifted_consts(ss) + Seq::empty() =~= lifted_consts(ss));
        },
    }
}

/// Blocks are lifted in the order of the destinations: of two the one taken on 1
/// first, of a table in the order of its cases. Other destinations lift none.
pub proof fn law_lifted_blocks(
    t: TermView,
    u: BIrTermView,
    cases: Seq<(Constant, BranchView)>,
    c: (Constant, BranchView),
)
    ensures
        match t {
            TermView::Jmp { target } => match target.dest {
                IRBlockTargetId::Block(b) => lifted_targets(t) == seq![b],
                _ => lifted_targets(t).len() == 0,
            },
            TermView::JumpCond { condition: _, then_target, else_target } => match (
                then_target.dest,
                else_target.dest,
            ) {
                (IRBlockTargetId::Block(a), IRBlockTargetId::Block(b)) => lifted_targets(t) == seq![
                    a,
                    b,
                ],
                (IRBlockTargetId::Block(a), _) => lifted_targets(t) == seq![a],
                (_, IRBlockTargetId::Block(b)) => lifted_targets(t) == seq![b],
                _ => lifted_targets(t).len() == 0,
            },
            TermView::JumpTable { index: _, cases: k } => lifted_targets(t) == lifted_cases(k),
        },
        match u {
            BIrTermView::Jmp(target) => match target.block {
                IRBlockTargetId::Block(b) => lifted_bir_targets(u) == seq![b],
                _ => lifted_bir_targets(u).len() == 0,
            },
            BIrTermView::CondJmp { val: _, then_target, else_target } => match (
                then_target.block,
                else_target.block,
            ) {
                (IRBlockTargetId::Block(a), IRBlockTargetId::Block(b)) => lifted_bir_targets(u)
                    == seq![a, b],
                (IRBlockTargetId::Block(a), _) => lifted_bir_targets(u) == seq![a],
                (_, IRBlockTargetId::Block(b)) => lifted_bir_targets(u) == seq![b],
                _ => lifted_bir_targets(u).len() == 0,
            },
        },
        lifted_cases(Seq::empty()).len() == 0,
        match c.1.dest {
            IRBlockTargetId::Block(b) => lifted_cases(cases.push(c)) == lifted_cases(cases).push(b),
            _ => lifted_cases(cases.push(c)) == lifted_cases(cases),
        },
{
    assert(cases.push(c).drop_last() =~= cases);
    assert(cases.push(c).last() == c);
    match c.1.dest {
        IRBlockTargetId::Block(b) => {
            assert(lifted_cases(cases) + seq![b] =~= lifted_cases(cases).push(b));
        },
        _ => {
            assert(lifted_cases(cases) + Seq::empty() =~= lifted_cases(cases));
        },
    }
    if let TermView::JumpCond { condition, then_target, else_target } = t {
        match (then_target.dest, else_target.dest) {
            (IRBlockTargetId::Block(a), IRBlockTargetId::Block(b)) => {
                assert(seq![a] + seq![b] =~= seq![a, b]);
            },
            (IRBlockTargetId::Block(a), _) => {
                assert(seq![a] + Seq::empty() =~= seq![a]);
            },
            (_, IRBlockTargetId::Block(b)) => {
                assert(Seq::empty() + seq![b] =~= seq![b]);
            },
            _ => {},
        }
    }
    if let BIrTermView::CondJmp { val, then_target, else_target } = u {
        match (then_target.block, else_target.block) {
            (IRBlockTargetId::Block(a), IRBlockTargetId::Block(b)) => {
                assert(seq![a] + seq![b] =~= seq![a, b]);
            },
            (IRBlockTargetId::Block(a), _) => {
                assert(seq![a] + Seq::empty() =~= seq![a]);
            },
            (_, IRBlockTargetId::Block(b)) => {
                assert(Seq::empty() + seq![b] =~= seq![b]);
            },
            _ => {},
        }
    }
}

/// Of the end of a boolean block a key forgets the blocks that it goes to, and
/// nothing else.
pub proof fn law_key_of_bir_end(t: BIrTermView, u: BIrTermView)
    ensures
        match (t, u) {
            (BIrTermView::Jmp(a), BIrTermView::Jmp(b)) => {
                &&& a.block is Block && b.block is Block && a.args == b.args ==> canon_bir_term(t)
                    == canon_bir_term(u)
                &&& !(a.block is Block) ==> canon_bir_term(t) == t
            },
            (
                BIrTermView::CondJmp { val: v, then_target: a, else_target: c },
                BIrTermView::CondJmp { val: w, then_target: b, else_target: d },
            ) => {
                &&& v == w && a.block is Block && b.block is Block && a.args == b.args && c.block is
                    Block && d.block is Block && c.args == d.args ==> canon_bir_term(t)
                    == canon_bir_term(u)
                &&& !(a.block is Block) && !(c.block is Block) ==> canon_bir_term(t) == t
            },
            _ => true,
        },
{
}

/// Two blocks that differ only in constants and in the blocks that they go to
/// have one key.
pub proof fn law_alike_blocks_share_a_key(a: IRBlockView, b: IRBlockView)
    requires
        a.params == b.params,
        a.stmts.len() == b.stmts.len(),
        forall|i: int|
            0 <= i < a.stmts.len() ==> match (#[trigger] a.stmts[i], b.stmts[i]) {
                (StmtView::Const(_, t), StmtView::Const(_, u)) => t == u,
                (
                    StmtView::Poly { ty: t, coeffs: p, .. },
                    StmtView::Poly { ty: u, coeffs: q, .. },
                ) => t == u && p == q,
                (x, y) => x == y,
            },
        canon_term(a.terminator) == canon_term(b.terminator),
    ensures
        ir_key(a) == ir_key(b),
{
    assert forall|i: int| 0 <= i < a.stmts.len() implies canon_stmt(a.stmts[i]) == canon_stmt(
        b.stmts[i],
    ) by {
        assert(a.stmts[i] == a.stmts[i]);
    }
    assert(ir_key(a).stmts =~= ir_key(b).stmts);
}

// ---------------------------------------------------------------------------
// Refused writes
// ---------------------------------------------------------------------------

/// A write is refused exactly if its storage can only be read, and so is a store
/// of action outputs; every other statement is let through.
pub proof fn law_refused_write(s: Stmt, u: BIrStmt, table: StorageTable)
    ensures
        match s {
            Stmt::StorageWrite { storage, .. } => stmt_violation(s@, table) == (if table.access(
                storage,
            ) == StorageAccess::ReadOnly {
                Some(ViolationView { storage, operation: "StorageWrite"@ })
            } else {
                None
            }),
            Stmt::ActionStore { name: _, guard: _, args: _, targets } => stmt_violation(s@, table)
                == targets_violation(targets@, table),
            _ => stmt_violation(s@, table) is None,
        },
        match u {
            BIrStmt::StorageWrite { storage, .. } => bir_stmt_violation(u@, table) == (
            if table.access(storage) == StorageAccess::ReadOnly {
                Some(ViolationView { storage, operation: "StorageWrite"@ })
            } else {
                None
            }),
            BIrStmt::ActionStoreBit { storage, .. } => bir_stmt_violation(u@, table) == (
            if table.access(storage) == StorageAccess::ReadOnly {
                Some(ViolationView { storage, operation: "ActionStoreBit"@ })
            } else {
                None
            }),
            _ => bir_stmt_violation(u@, table) is None,
        },
{
}

/// Of the cells of a store the first in a storage that can only be read is the
/// one that is told of.
pub proof fn law_refused_store(targets: Seq<ActionTarget>, table: StorageTable, i: int)
    requires
        0 <= i <= targets.len(),
        forall|j: int|
            0 <= j < i ==> table.access((#[trigger] targets[j]).storage) == StorageAccess::ReadWrite,
        i < targets.len() ==> table.access(targets[i].storage) == StorageAccess::ReadOnly,
    ensures
        targets_violation(targets, table) == (if i < targets.len() {
            Some(ViolationView { storage: targets[i].storage, operation: "ActionStore"@ })
        } else {
            None
        }),
    decreases targets.len(),
{
    if i > 0 {
        let rest = targets.drop_first();
        assert(table.access(targets[0].storage) == StorageAccess::ReadWrite);
        assert forall|j: int| 0 <= j < i - 1 implies table.access((#[trigger] rest[j]).storage)
            == StorageAccess::ReadWrite by {
            assert(rest[j] == targets[j + 1]);
        }
        law_refused_store(rest, table, i - 1);
    }
}

/// The first refused statement of a block is the one that is told of.
pub proof fn law_first_refused(
    ss: Seq<StmtView>,
    us: Seq<BIrStmtView>,
    table: StorageTable,
    i: int,
    j: int,
)
    requires
        0 <= i <= ss.len(),
        forall|k: int| 0 <= k < i ==> stmt_violation(#[trigger] ss[k], table) is None,
        i < ss.len() ==> stmt_violation(ss[i], table) is Some,
        0 <= j <= us.len(),
        forall|k: int| 0 <= k < j ==> bir_stmt_violation(#[trigger] us[k], table) is None,
        j < us.len() ==> bir_stmt_violation(us[j], table) is Some,
    ensures
        stmts_violation(ss, table) == (if i < ss.len() {
            stmt_violation(ss[i], table)
        } else {
            None
        }),
        bir_stmts_violation(us, table) == (if j < us.len() {
            bir_stmt_violation(us[j], table)
        } else {
            None
        }),
{
    lemma_first_refused(ss, table, i);
    lemma_first_bir_refused(us, table, j);
}

proof fn lemma_first_refused(ss: Seq<StmtView>, table: StorageTable, i: int)
    requires
        0 <= i <= ss.len(),
        forall|k: int| 0 <= k < i ==> stmt_violation(#[trigger] ss[k], table) is None,
        i < ss.len() ==> stmt_violation(ss[i], table) is Some,
    ensures
        stmts_violation(ss, table) == (if i < ss.len() {
            stmt_violation(ss[i], table)
        } else {
            None
        }),
    decreases ss.len(),
{
    if i > 0 {
        let rest = ss.drop_first();
        assert(stmt_violation(ss[0], table) is None);
        assert forall|k: int| 0 <= k < i - 1 implies stmt_violation(#[trigger] rest[k], table)
            is None by {
            assert(rest[k] == ss[k + 1]);
        }
        lemma_first_refused(rest, table, i - 1);
    }
}

proof fn lemma_first_bir_refused(us: Seq<BIrStmtView>, table: StorageTable, j: int)
    requires
        0 <= j <= us.len(),
        forall|k: int| 0 <= k < j ==> bir_stmt_violation(#[trigger] us[k], table) is None,
        j < us.len() ==> bir_stmt_violation(us[j], table) is Some,
    ensures
        bir_stmts_violation(us, table) == (if j < us.len() {
            bir_stmt_violation(us[j], table)
        } else {
            None
        }),
    decreases us.len(),
{
    if j > 0 {
        let rest = us.drop_first();
        assert(bir_stmt_violation(us[0], table) is None);
        assert forall|k: int| 0 <= k < j - 1 implies bir_stmt_violation(#[trigger] rest[k], table)
            is None by {
            assert(rest[k] == us[k + 1]);
        }
        lemma_first_bir_refused(rest, table, j - 1);
    }
}

/// Blocks are gone through in order too.
pub proof fn law_first_refused_block(bs: Seq<IRBlockView>, table: StorageTable, i: int)
    requires
        0 <= i <= bs.len(),
        forall|k: int| 0 <= k < i ==> stmts_violation((#[trigger] bs[k]).stmts, table) is None,
        i < bs.len() ==> stmts_violation(bs[i].stmts, table) is Some,
    ensures
        blocks_violation(bs, table) == (if i < bs.len() {
            stmts_violation(bs[i].stmts, table)
        } else {
            None
        }),
    decreases bs.len(),
{
    if i > 0 {
        let rest = bs.drop_first();
        assert(stmts_violation(bs[0].stmts, table) is None);
        assert forall|k: int| 0 <= k < i - 1 implies stmts_violation(
            (#[trigger] rest[k]).stmts,
            table,
        ) is None by {
            assert(rest[k] == bs[k + 1]);
        }
        law_first_refused_block(rest, table, i - 1);
    }
}

/// So are boolean blocks.
pub proof fn law_first_refused_bir_block(
    bs: Seq<crate::boolar::BIrBlockView>,
    table: StorageTable,
    i: int,
)
    requires
        0 <= i <= bs.len(),
        forall|k: int| 0 <= k < i ==> bir_stmts_violation((#[trigger] bs[k]).stmts, table) is None,
        i < bs.len() ==> bir_stmts_violation(bs[i].stmts, table) is Some,
    ensures
        bir_blocks_violation(bs, table) == (if i < bs.len() {
            bir_stmts_violation(bs[i].stmts, table)
        } else {
            None
        }),
    decreases bs.len(),
{
    if i > 0 {
        let rest = bs.drop_first();
        assert(bir_stmts_violation(bs[0].stmts, table) is None);
        assert forall|k: int| 0 <= k < i - 1 implies bir_stmts_violation(
            (#[trigger] rest[k]).stmts,
            table,
        ) is None by {
            assert(rest[k] == bs[k + 1]);
        }
        law_first_refused_bir_block(rest, table, i - 1);
    }
}

// ---------------------------------------------------------------------------
// Announced loops
// ---------------------------------------------------------------------------

/// A jump into a loop announces how often it runs: it has no hint, and its last
/// two arguments are constants of the block, the second one not below the first.
/// The number of rounds is their difference.
pub proof fn law_rounds(b: IRBlockView, arm: BranchView, header: int, x: Constant, y: Constant)
    requires
        arm.args.len() >= 2,
    ensures
        ({
            let n = arm.args.len() as int;
            let p = arm.args[n - 2].0 - b.params.len();
            let q = arm.args[n - 1].0 - b.params.len();
            let to = match arm.dest {
                IRBlockTargetId::Block(t) => t.0 == header,
                _ => false,
            };
            &&& to && arm.reentry is None && 0 <= p < b.stmts.len() && 0 <= q < b.stmts.len() && (
            match b.stmts[p] {
                StmtView::Const(c, _) => c == x,
                _ => false,
            }) && (match b.stmts[q] {
                StmtView::Const(c, _) => c == y,
                _ => false,
            }) ==> arm_trip(b, arm, header) == (if x.lo as u64 <= y.lo as u64 {
                Some((y.lo as u64 - x.lo as u64) as u64 as u32)
            } else {
                None
            })
            &&& !to ==> arm_trip(b, arm, header) is None
            &&& arm.reentry is Some ==> arm_trip(b, arm, header) is None
            &&& !(0 <= p < b.stmts.len() && b.stmts[p] is Const) ==> arm_trip(b, arm, header) is None
            &&& !(0 <= q < b.stmts.len() && b.stmts[q] is Const) ==> arm_trip(b, arm, header) is None
        }),
{
    let n = arm.args.len() as int;
    assert(const_of_var(b, arm.args[n - 2]) is Some || const_of_var(b, arm.args[n - 2]) is None);
    assert(const_of_var(b, arm.args[n - 1]) is Some || const_of_var(b, arm.args[n - 1]) is None);
}

/// With fewer arguments nothing is announced.
pub proof fn law_no_rounds(b: IRBlockView, arm: BranchView, header: int)
    requires
        arm.args.len() < 2,
    ensures
        arm_trip(b, arm, header) is None,
{
}

/// The first announcement counts, in the order of the blocks and of their jumps;
/// without one the number of rounds is left to the bytecode.
pub proof fn law_first_announcement(blocks: Seq<IRBlockView>, header: int, b: int, a: int)
    requires
        0 <= b < blocks.len(),
        0 <= a < arms(blocks[b].terminator).len(),
        arm_trip(blocks[b], arms(blocks[b].terminator)[a], header) is Some,
        forall|k: int|
            0 <= k < a ==> arm_trip(
                blocks[b],
                #[trigger] arms(blocks[b].terminator)[k],
                header,
            ) is None,
        forall|c: int, k: int|
            0 <= c < b && 0 <= k < arms(blocks[c].terminator).len() ==> arm_trip(
                blocks[c],
                #[trigger] arms(blocks[c].terminator)[k],
                header,
            ) is None,
    ensures
        loop_trip(blocks, header) == TripCount::Fixed(
            arm_trip(blocks[b], arms(blocks[b].terminator)[a], header).unwrap(),
        ),
{
    lemma_announced(blocks, header, b, a);
}

proof fn lemma_arms_trip(b: IRBlockView, list: Seq<BranchView>, header: int, a: int)
    requires
        0 <= a <= list.len(),
        forall|k: int| 0 <= k < a ==> arm_trip(b, #[trigger] list[k], header) is None,
        a < list.len() ==> arm_trip(b, list[a], header) is Some,
    ensures
        arms_trip(b, list, header) == (if a < list.len() {
            arm_trip(b, list[a], header)
        } else {
            None
        }),
    decreases list.len(),
{
    if a > 0 {
        let rest = list.drop_first();
        assert(arm_trip(b, list[0], header) is None);
        assert forall|k: int| 0 <= k < a - 1 implies arm_trip(b, #[trigger] rest[k], header)
            is None by {
            assert(rest[k] == list[k + 1]);
        }
        lemma_arms_trip(b, rest, header, a - 1);
    }
}

proof fn lemma_announced(blocks: Seq<IRBlockView>, header: int, b: int, a: int)
    requires
        0 <= b < blocks.len(),
        0 <= a < arms(blocks[b].terminator).len(),
        arm_trip(blocks[b], arms(blocks[b].terminator)[a], header) is Some,
        forall|k: int|
            0 <= k < a ==> arm_trip(
                blocks[b],
                #[trigger] arms(blocks[b].terminator)[k],
                header,
            ) is None,
        forall|c: int, k: int|
            0 <= c < b && 0 <= k < arms(blocks[c].terminator).len() ==> arm_trip(
                blocks[c],
                #[trigger] arms(blocks[c].terminator)[k],
                header,
            ) is None,
    ensures
        blocks_trip(blocks, header) == arm_trip(
            blocks[b],
            arms(blocks[b].terminator)[a],
            header,
        ),
    decreases blocks.len(),
{
    let first = arms(blocks[0].terminator);
    if b == 0 {
        lemma_arms_trip(blocks[0], first, header, a);
    } else {
        lemma_arms_trip(blocks[0], first, header, first.len() as int);
        let rest = blocks.drop_first();
        assert(rest[b - 1] == blocks[b]);
        assert forall|c: int, k: int|
            0 <= c < b - 1 && 0 <= k < arms(rest[c].terminator).len() implies arm_trip(
            rest[c],
            #[trigger] arms(rest[c].terminator)[k],
            header,
        ) is None by {
            assert(rest[c] == blocks[c + 1]);
            assert(arm_trip(blocks[c + 1], arms(blocks[c + 1].terminator)[k], header) is None);
        }
        lemma_announced(rest, header, b - 1, a);
    }
}

/// A loop is announced exactly by a jump back, or to its own block, whose hint
/// is that the second parameter less the first one falls.
pub proof fn law_announced_loop(blocks: Seq<IRBlockView>, from: int, arm: BranchView)
    ensures
        match arm.dest {
            IRBlockTargetId::Block(t) => if t.0 <= from && arm.reentry == Some(
                seq![
                    MeasureSpec::Diff {
                        minuend: Box::new(MeasureSpec::Strict { param: 1, signed: false }),
                        subtrahend: Box::new(MeasureSpec::Strict { param: 0, signed: false }),
                        signed: false,
                    },
                ],
            ) {
                arm_loop(blocks, from, arm) == seq![
                    HintedLoop {
                        header: t.0 as usize,
                        body: from as usize,
                        trip_count: loop_trip(blocks, t.0 as int),
                    },
                ]
            } else {
                arm_loop(blocks, from, arm).len() == 0
            },
            _ => arm_loop(blocks, from, arm).len() == 0,
        },
{
}

/// Loops are listed in the order of the blocks and of their jumps.
pub proof fn law_loops_in_order(
    blocks: Seq<IRBlockView>,
    from: int,
    list: Seq<BranchView>,
    arm: BranchView,
    n: int,
)
    requires
        0 <= n < blocks.len(),
    ensures
        arms_loops(blocks, from, Seq::empty()).len() == 0,
        arms_loops(blocks, from, list.push(arm)) == arms_loops(blocks, from, list) + arm_loop(
            blocks,
            from,
            arm,
        ),
        loops_before(blocks, 0).len() == 0,
        loops_before(blocks, n + 1) == loops_before(blocks, n) + arms_loops(
            blocks,
            n,
            arms(blocks[n].terminator),
        ),
        hinted_loops(blocks) == loops_before(blocks, blocks.len() as int),
{
    assert(list.push(arm).drop_last() =~= list);
}

// ---------------------------------------------------------------------------
// Registers and cells
// ---------------------------------------------------------------------------

/// The jumps of an end: of two the one taken on 1 first, of a table those of its
/// cases.
pub proof fn law_jumps(t: IRTerminator)
    ensures
        match t {
            IRTerminator::Jmp { target } => arms(t@) == seq![target@],
            IRTerminator::JumpCond { condition: _, then_target, else_target } => arms(t@) == seq![
                then_target@,
                else_target@,
            ],
            IRTerminator::JumpTable { index: _, cases } => arms(t@).len() == cases@.len() && forall|
                i: int,
            |
                0 <= i < cases@.len() ==> #[trigger] arms(t@)[i] == cases@[i].1@,
        },
{
}

/// The type of a variable: that of a parameter, or of what its statement defines.
pub proof fn law_variable_type<P>(b: IRBlock<P>, v: IRVarId)
    ensures
        v.0 < b.params@.len() ==> var_type(b@, v) == Some(b.params@[v.0 as int]),
        b.params@.len() <= v.0 < b.params@.len() + b.stmts@.len() ==> var_type(b@, v)
            == crate::ir::output_type(b.stmts@[v.0 - b.params@.len()].kind@),
        v.0 >= b.params@.len() + b.stmts@.len() ==> var_type(b@, v) is None,
{
}

/// What is returned: the types of the arguments of each jump to the caller, in
/// order.
pub proof fn law_returned_types(b: IRBlockView, s: Seq<BranchView>, arm: BranchView)
    ensures
        return_types_of(b, Seq::empty()).len() == 0,
        arm.dest is Return ==> return_types_of(b, s.push(arm)) == return_types_of(b, s).push(
            var_types(b, arm.args),
        ),
        !(arm.dest is Return) ==> return_types_of(b, s.push(arm)) == return_types_of(b, s),
{
    assert(s.push(arm).drop_last() =~= s);
}

/// What a program returns is what its first jump to the caller hands on; jumps
/// come in the order of the blocks.
pub proof fn law_return_shape(bs: Seq<IRBlockView>, b: IRBlockView)
    ensures
        module_return_types(Seq::empty()).len() == 0,
        module_return_types(bs.push(b)) == module_return_types(bs) + return_types_of(
            b,
            arms(b.terminator),
        ),
        module_return_types(bs).len() == 0 ==> return_shape(bs).len() == 0,
        module_return_types(bs).len() > 0 ==> return_shape(bs) == module_return_types(bs)[0],
{
    assert(bs.push(b).drop_last() =~= bs);
}

proof fn lemma_param_types(bs: Seq<IRBlockView>, t: IRTypeId)
    ensures
        types_increase(param_types(bs)),
        param_types(bs).contains(t) <==> exists|b: int|
            0 <= b < bs.len() && (#[trigger] bs[b]).params.contains(t),
    decreases bs.len(),
{
    if bs.len() > 0 {
        let before = bs.drop_last();
        lemma_param_types(before, t);
        law_more_register_types(param_types(before), bs.last().params, t);
        if param_types(before).contains(t) {
            let b = choose|b: int| 0 <= b < before.len() && (#[trigger] before[b]).params.contains(t);
            assert(bs[b] == before[b]);
        }
        if bs.last().params.contains(t) {
            assert(bs[bs.len() - 1] == bs.last());
        }
        if exists|b: int| 0 <= b < bs.len() && (#[trigger] bs[b]).params.contains(t) {
            let b = choose|b: int| 0 <= b < bs.len() && (#[trigger] bs[b]).params.contains(t);
            if b < before.len() {
                assert(before[b] == bs[b]);
            }
        }
    } else {
        assert(!param_types(bs).contains(t));
    }
}

/// There are registers of the types of the parameters of all blocks, in order of
/// the types, each once.
pub proof fn law_parameter_registers(bs: Seq<IRBlockView>, t: IRTypeId)
    ensures
        types_increase(param_types(bs)),
        param_types(bs).contains(t) <==> exists|b: int|
            0 <= b < bs.len() && (#[trigger] bs[b]).params.contains(t),
{
    lemma_param_types(bs, t);
}

/// Types that are still missing come behind, each once.
pub proof fn law_missing_registers(s: Seq<IRTypeId>, ts: Seq<IRTypeId>, t: IRTypeId)
    ensures
        with_missing(s, ts).contains(t) <==> s.contains(t) || ts.contains(t),
        s.len() <= with_missing(s, ts).len(),
        with_missing(s, ts).take(s.len() as int) == s,
    decreases ts.len(),
{
    if ts.len() > 0 {
        let before = ts.drop_last();
        law_missing_registers(s, before, t);
        let rest = with_missing(s, before);
        let last = ts.last();
        assert(ts[ts.len() - 1] == last);
        if ts.contains(t) {
            let k = choose|k: int| 0 <= k < ts.len() && ts[k] == t;
            if k < before.len() {
                assert(before[k] == t);
            }
        }
        if before.contains(t) {
            let k = choose|k: int| 0 <= k < before.len() && before[k] == t;
            assert(ts[k] == t);
        }
        if !rest.contains(last) {
            let all = rest.push(last);
            assert(all[rest.len() as int] == last);
            if rest.contains(t) {
                let k = choose|k: int| 0 <= k < rest.len() && rest[k] == t;
                assert(all[k] == t);
            }
            if all.contains(t) {
                let k = choose|k: int| 0 <= k < all.len() && all[k] == t;
                if k < rest.len() {
                    assert(rest[k] == t);
                }
            }
            assert(all.take(s.len() as int) =~= rest.take(s.len() as int));
        }
    } else {
        assert(s.take(s.len() as int) =~= s);
        assert(!ts.contains(t));
    }
}

proof fn lemma_counted(s: Seq<IRTypeId>, t: IRTypeId, same: spec_fn(IRTypeId) -> bool)
    requires
        forall|u: IRTypeId| #[trigger] same(u) <==> u == t,
    ensures
        occurrences(s, t) == s.filter(same).len(),
    decreases s.len(),
{
    reveal(Seq::filter);
    if s.len() > 0 {
        lemma_counted(s.drop_last(), t, same);
    }
}

/// A register is told by its type and by how many registers of that type stand
/// before it.
pub proof fn law_registers(tys: Seq<IRTypeId>, i: int)
    requires
        0 <= i < tys.len() <= u32::MAX,
    ensures
        registers(tys).len() == tys.len(),
        registers(tys)[i].ty == tys[i],
        registers(tys)[i].idx == tys.take(i).filter(|u: IRTypeId| u == tys[i]).len(),
{
    lemma_counted(tys.take(i), tys[i], |u: IRTypeId| u == tys[i]);
    lemma_few(tys.take(i), tys[i]);
}

proof fn lemma_few(s: Seq<IRTypeId>, t: IRTypeId)
    ensures
        occurrences(s, t) <= s.len(),
    decreases s.len(),
{
    if s.len() > 0 {
        lemma_few(s.drop_last(), t);
    }
}

/// Types of registers are kept in order, each once.
pub proof fn law_register_types(s: Seq<IRTypeId>, t: IRTypeId, u: IRTypeId)
    requires
        types_increase(s),
    ensures
        types_increase(with_type(s, t)),
        with_type(s, t).contains(u) <==> s.contains(u) || u == t,
    decreases s.len(),
{
    let r = with_type(s, t);
    if s.len() == 0 {
        assert(seq![t][0] == t);
    } else {
        let rest = s.drop_first();
        assert forall|i: int| 0 <= i < rest.len() implies #[trigger] rest[i] == s[i + 1] by {}
        if t.0 < s[0].0 {
            assert(r =~= seq![t] + s);
            assert(r[0] == t);
            assert forall|i: int| 0 <= i < s.len() implies r[i + 1] == #[trigger] s[i] by {}
            assert forall|i: int, j: int| 0 <= i < j < r.len() implies (#[trigger] r[i]).0 < (
            #[trigger] r[j]).0 by {
                assert(r[j] == s[j - 1]);
                if i > 0 {
                    assert(r[i] == s[i - 1]);
                } else if j > 1 {
                    assert(s[0].0 < s[j - 1].0);
                }
            }
            if s.contains(u) {
                let k = choose|k: int| 0 <= k < s.len() && s[k] == u;
                assert(r[k + 1] == u);
            }
            if r.contains(u) {
                let k = choose|k: int| 0 <= k < r.len() && r[k] == u;
                if k > 0 {
                    assert(s[k - 1] == u);
                }
            }
        } else if t.0 == s[0].0 {
            assert(s[0] == t);
        } else {
            assert forall|i: int, j: int| 0 <= i < j < rest.len() implies (#[trigger] rest[i]).0 < (
            #[trigger] rest[j]).0 by {
                assert(s[i + 1].0 < s[j + 1].0);
            }
            law_register_types(rest, t, u);
            let more = with_type(rest, t);
            assert(r =~= seq![s[0]] + more);
            assert(r[0] == s[0]);
            assert forall|i: int| 0 <= i < more.len() implies r[i + 1] == #[trigger] more[i] by {}
            assert forall|i: int, j: int| 0 <= i < j < r.len() implies (#[trigger] r[i]).0 < (
            #[trigger] r[j]).0 by {
                assert(r[j] == more[j - 1]);
                if i > 0 {
                    assert(r[i] == more[i - 1]);
                } else {
                    let x = more[j - 1];
                    law_register_types(rest, t, x);
                    assert(more.contains(x));
                    if rest.contains(x) {
                        let k = choose|k: int| 0 <= k < rest.len() && rest[k] == x;
                        assert(s[0].0 < s[k + 1].0);
                    }
                }
            }
            if s.contains(u) {
                let k = choose|k: int| 0 <= k < s.len() && s[k] == u;
                if k > 0 {
                    assert(rest[k - 1] == u);
                    assert(rest.contains(u));
                    let m = choose|m: int| 0 <= m < more.len() && more[m] == u;
                    assert(r[m + 1] == u);
                }
            }
            if u == t {
                let m = choose|m: int| 0 <= m < more.len() && more[m] == u;
                assert(r[m + 1] == u);
            }
            if r.contains(u) {
                let k = choose|k: int| 0 <= k < r.len() && r[k] == u;
                if k > 0 {
                    assert(more[k - 1] == u);
                    assert(more.contains(u));
                    if rest.contains(u) {
                        let m = choose|m: int| 0 <= m < rest.len() && rest[m] == u;
                        assert(s[m + 1] == u);
                    }
                }
            }
        }
    }
}

/// So they are where several are added.
pub proof fn law_more_register_types(s: Seq<IRTypeId>, ts: Seq<IRTypeId>, u: IRTypeId)
    requires
        types_increase(s),
    ensures
        types_increase(with_types(s, ts)),
        with_types(s, ts).contains(u) <==> s.contains(u) || ts.contains(u),
    decreases ts.len(),
{
    if ts.len() > 0 {
        let before = ts.drop_last();
        law_more_register_types(s, before, u);
        law_register_types(with_types(s, before), ts.last(), u);
        if ts.contains(u) {
            let k = choose|k: int| 0 <= k < ts.len() && ts[k] == u;
            if k < before.len() {
                assert(before[k] == u);
            }
        }
        if before.contains(u) {
            let k = choose|k: int| 0 <= k < before.len() && before[k] == u;
            assert(ts[k] == u);
        }
        assert(ts[ts.len() - 1] == ts.last());
    }
}

/// Whether a segment sets cell `i`.
pub open spec fn sets_cell(a: PreInitView, i: int) -> bool {
    a.offset <= i < a.offset + a.data.len()
}

/// Two segments overlap exactly if they set one cell of one typed storage.
pub proof fn law_segments_overlap(a: PreInitView, b: PreInitView)
    requires
        a.data.len() > 0,
        b.data.len() > 0,
    ensures
        segments_overlap(a, b) <==> a.storage == b.storage && a.ty == b.ty && exists|i: int|
            #[trigger] sets_cell(a, i) && sets_cell(b, i),
{
    if segments_overlap(a, b) {
        let i: int = if a.offset < b.offset {
            b.offset as int
        } else {
            a.offset as int
        };
        assert(sets_cell(a, i) && sets_cell(b, i));
    }
}

/// A lane takes the place of one of its storage and type, and is put in order
/// otherwise; every other lane stays.
pub proof fn law_lane_put(s: Seq<PreInitView>, l: PreInitView, x: PreInitView)
    ensures
        with_lane(s, l).contains(l),
        s.contains(x) && (x.storage != l.storage || x.ty != l.ty) ==> with_lane(s, l).contains(x),
        with_lane(s, l).contains(x) ==> x == l || s.contains(x),
    decreases s.len(),
{
    let r = with_lane(s, l);
    if s.len() == 0 {
        assert(r[0] == l);
    } else {
        let rest = s.drop_first();
        assert(s =~= seq![s[0]] + rest);
        assert forall|i: int| 0 <= i < rest.len() implies #[trigger] rest[i] == s[i + 1] by {}
        if s[0].storage == l.storage && s[0].ty == l.ty {
            assert(r[0] == l);
            if s.contains(x) && (x.storage != l.storage || x.ty != l.ty) {
                let k = choose|k: int| 0 <= k < s.len() && s[k] == x;
                assert(r[k] == rest[k - 1]);
                assert(r[k] == x);
            }
            if r.contains(x) {
                let k = choose|k: int| 0 <= k < r.len() && r[k] == x;
                if k > 0 {
                    assert(r[k] == rest[k - 1]);
                    assert(s[k] == x);
                }
            }
        } else if l.storage.0 < s[0].storage.0 || (l.storage == s[0].storage && l.ty.0
            < s[0].ty.0) {
            assert(r[0] == l);
            if s.contains(x) {
                let k = choose|k: int| 0 <= k < s.len() && s[k] == x;
                assert(r[k + 1] == x);
            }
            if r.contains(x) {
                let k = choose|k: int| 0 <= k < r.len() && r[k] == x;
                if k > 0 {
                    assert(s[k - 1] == x);
                }
            }
        } else {
            law_lane_put(rest, l, x);
            let more = with_lane(rest, l);
            assert(r =~= seq![s[0]] + more);
            assert forall|i: int| 0 <= i < more.len() implies r[i + 1] == #[trigger] more[i] by {}
            let m = choose|m: int| 0 <= m < more.len() && more[m] == l;
            assert(r[m + 1] == l);
            if s.contains(x) && (x.storage != l.storage || x.ty != l.ty) {
                let k = choose|k: int| 0 <= k < s.len() && s[k] == x;
                if k > 0 {
                    assert(rest[k - 1] == x);
                    assert(rest.contains(x));
                    let n = choose|n: int| 0 <= n < more.len() && more[n] == x;
                    assert(r[n + 1] == x);
                } else {
                    assert(r[0] == x);
                }
            }
            if r.contains(x) {
                let k = choose|k: int| 0 <= k < r.len() && r[k] == x;
                if k > 0 {
                    assert(more[k - 1] == x);
                    assert(more.contains(x));
                    if rest.contains(x) {
                        let n = choose|n: int| 0 <= n < rest.len() && rest[n] == x;
                        assert(s[n + 1] == x);
                    }
                } else {
                    assert(s[0] == x);
                }
            }
        }
    }
}

// ---------------------------------------------------------------------------
// What is declared and emitted
// ---------------------------------------------------------------------------

/// Registers and the storage of the key can be written; the table and what is
/// initialised with it can only be read; nothing is said of other storages.
pub proof fn law_generated_access(
    s: StorageId,
    segments: Seq<PreInitView>,
    bytecode: StorageId,
    base: u32,
    n_files: nat,
    key_storage: Option<StorageId>,
    i: int,
)
    ensures
        base <= s.0 < base + n_files ==> generated_access(
            s,
            segments,
            bytecode,
            base,
            n_files,
            key_storage,
        ) == Some(StorageAccess::ReadWrite),
        key_storage == Some(s) ==> generated_access(
            s,
            segments,
            bytecode,
            base,
            n_files,
            key_storage,
        ) == Some(StorageAccess::ReadWrite),
        !(base <= s.0 < base + n_files) && key_storage != Some(s) && (s == bytecode || (0 <= i
            < segments.len() && segments[i].storage == s)) ==> generated_access(
            s,
            segments,
            bytecode,
            base,
            n_files,
            key_storage,
        ) == Some(StorageAccess::ReadOnly),
        !(base <= s.0 < base + n_files) && key_storage != Some(s) && s != bytecode && (forall|
            k: int,
        |
            0 <= k < segments.len() ==> (#[trigger] segments[k]).storage != s) ==> generated_access(
            s,
            segments,
            bytecode,
            base,
            n_files,
            key_storage,
        ) is None,
{
}

/// Two declarations together: a storage can only be read if someone says so and
/// no one says otherwise.
pub proof fn law_combined_access(a: Option<StorageAccess>, b: Option<StorageAccess>)
    ensures
        combined_access(a, b) == combined_access(b, a),
        combined_access(a, b) is None <==> a is None && b is None,
        a == Some(StorageAccess::ReadWrite) ==> combined_access(a, b) == Some(
            StorageAccess::ReadWrite,
        ),
        a == Some(StorageAccess::ReadOnly) && b != Some(StorageAccess::ReadWrite)
            ==> combined_access(a, b) == Some(StorageAccess::ReadOnly),
{
}

/// Emitted control statements take the provenance of the first statement of the
/// first block that has one.
pub proof fn law_control_statement<P>(blocks: Seq<IRBlock<P>>, b: int)
    requires
        0 <= b <= blocks.len(),
        forall|k: int| 0 <= k < b ==> (#[trigger] blocks[k]).stmts@.len() == 0,
        b < blocks.len() ==> blocks[b].stmts@.len() > 0,
    ensures
        first_node(blocks) == (if b < blocks.len() {
            Some(blocks[b].stmts@[0])
        } else {
            None
        }),
    decreases blocks.len(),
{
    if b > 0 {
        let rest = blocks.drop_first();
        assert(blocks[0].stmts@.len() == 0);
        assert forall|k: int| 0 <= k < b - 1 implies (#[trigger] rest[k]).stmts@.len() == 0 by {
            assert(rest[k] == blocks[k + 1]);
        }
        law_control_statement(rest, b - 1);
    }
}

/// The words that are hashed of a row: the number of its handler in four bytes,
/// then the value of each slot in the bytes of the type of the slot.
pub proof fn law_hashed_row(
    h: u32,
    slots: Seq<HandlerSlot>,
    values: Seq<Constant>,
    types: Seq<IrTypeView>,
    s: int,
)
    ensures
        row_words(h, slots, values, types).len() == slots.len() + 1,
        row_words(h, slots, values, types)[0] == le_bytes(h as nat, 4),
        0 <= s < slots.len() ==> row_words(h, slots, values, types)[s + 1] == constant_bytes(
            values[s],
            types[slots[s].ty.0 as int],
        ),
{
}

/// Where blocks stand: the setup first, then, unless handlers jump to each
/// other themselves, the block that asks whether to go on, then the return and
/// the jump on the handler number. Case `h` of that jump goes to handler `h`.
pub proof fn law_module_layout<H: IrHashAlgorithm>(
    f: ModuleFrame,
    entry: Seq<IRTypeId>,
    shape: Seq<IRTypeId>,
    n: nat,
    check: Option<Check<H>>,
    h: int,
)
    requires
        n <= u32::MAX - 4,
    ensures
        f.direct ==> module_head(f, entry, shape, n, check).len() == 3,
        !f.direct ==> module_head(f, entry, shape, n, check).len() == 4,
        ({
            let first = if f.direct {
                3int
            } else {
                4int
            };
            let block = module_head(f, entry, shape, n, check)[first - 1];
            &&& block.params == seq![f.addr_ty]
            &&& block.stmts == seq![
                StmtView::StorageRead { storage: f.bytecode, ty: f.addr_ty, addr: IRVarId(0) },
            ]
            &&& match block.terminator {
                TermView::JumpTable { index, cases } => {
                    &&& index == IRVarId(1)
                    &&& cases.len() == n
                    &&& 0 <= h < n ==> cases[h] == (
                        Constant { hi: 0, lo: h as u128 },
                        BranchView {
                            dest: IRBlockTargetId::Block(IRBlockId((first + h) as u32)),
                            args: seq![IRVarId(0)],
                            reentry: None,
                        },
                    )
                },
                _ => false,
            }
        }),
{
}

/// The table of the blocks: one row for each, with the handler that was given to
/// it and what was lifted out of it, and one schema for each handler.
pub proof fn law_table<K: HandlerKey>(d: DedupTable<K>, i: int, h: int)
    ensures
        d.bytecode().entries.len() == d.per_block@.len(),
        d.bytecode().handler_schemas.len() == d.handler_keys@.len(),
        d.bytecode().regions.len() == 0,
        d.per_block@.len() <= usize::MAX ==> d.bytecode().outer_block_count == d.per_block@.len(),
        d.handler_keys@.len() <= usize::MAX ==> d.bytecode().n_handlers == d.handler_keys@.len(),
        0 <= i < d.per_block@.len() ==> {
            let row = d.bytecode().entries[i];
            &&& row.handler_idx == d.per_block@[i].0
            &&& row.consts == d.per_block@[i].1.consts@
            &&& row.targets == d.per_block@[i].1.targets@
            &&& row.row_kind == BytecodeRowKind::Outer
        },
        0 <= h < d.handler_keys@.len() ==> d.bytecode().handler_schemas[h]
            == d.handler_keys@[h].schema(),
{
}

/// The values that a key asks for: one for each constant, then one for each block
/// that is gone to.
pub proof fn law_schema(key: IRBlockView, i: int)
    ensures
        ir_schema(key).len() == const_kinds(key.stmts).len() + lifted_targets(key.terminator).len(),
        0 <= i < const_kinds(key.stmts).len() ==> ir_schema(key)[i] == const_kinds(key.stmts)[i],
        const_kinds(key.stmts).len() <= i < ir_schema(key).len() ==> ir_schema(key)[i]
            == ImmediateKind::BlockTarget,
{
}

/// Rows are numbered in words of 32 bits and flags are bits; the types that were
/// there keep their numbers.
pub proof fn law_control_types<H: IrHashAlgorithm>(
    blocks: Seq<IRBlockView>,
    types: Seq<IrTypeView>,
    bytecode: StorageId,
    direct: bool,
    commitment: Option<CommitmentConfig<H>>,
    i: int,
)
    requires
        types.len() < u32::MAX - 2,
        commitment is None,
    ensures
        ({
            let p = plan_of(blocks, types, bytecode, direct, commitment);
            &&& p.types[p.frame.addr_ty.0 as int] == IrTypeView::Primitive(Type::_32)
            &&& p.types[p.frame.bit_ty.0 as int] == IrTypeView::Primitive(Type::Bit)
            &&& 0 <= i < types.len() ==> p.types[i] == types[i]
            &&& p.frame.bytecode == bytecode
            &&& p.frame.direct == direct
            &&& p.blocks == blocks
        }),
{
    let addr = IrTypeView::Primitive(Type::_32);
    let bit = IrTypeView::Primitive(Type::Bit);
    let t1 = interned(types, addr);
    let t2 = interned(t1, bit);
    law_interned(types, addr, addr);
    law_interned(t1, bit, addr);
    assert(t1.contains(addr)) by {
        assert(t1[interned_index(types, addr)] == addr);
    }
    let a = interned_index(types, addr);
    let b = interned_index(t1, bit);
    assert(0 <= a < t1.len() && t1[a] == addr);
    assert(0 <= b < t2.len() && t2[b] == bit);
    assert(t2[a] == t1[a]);
    if 0 <= i < types.len() {
        assert(t1[i] == types[i]);
        assert(t2[i] == t1[i]);
    }
}

} // verus!
