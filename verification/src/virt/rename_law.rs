//! Statements and ends under other names of variables, and the slots of
//! handlers.

use vstd::prelude::*;
use vstd::relations::{sorted_by, total_ordering};

use crate::boolar::{BIrBlock, BIrPreInitView, BIrStmtView, BIrTermView};
use crate::common::{Constant, StorageAccess, StorageId};
use crate::ir::{
    lemma_vars_order, vars_order, BranchView, IRBlockTargetId, IRBlockView, IRTypeId, IRVarId, Stmt,
    StmtView, TermView,
};
use crate::sorted::{
    assoc_get, assoc_remove, assoc_sorted, law_assoc_get, law_assoc_get_insert,
    law_assoc_insert_sorted, strict_order,
};
use crate::stmt_vars::{same_stmt, stmt_slots, Slot};
use crate::vars::{branch_vars, cases_vars, dest_vars, end_vars, same_branch, same_end};
use crate::virt::bir::{bir_generated_access, first_bir_node};
use crate::virt::remap::{
    renamed_bir_stmt, renamed_bir_term, renamed_branch, renamed_stmt, renamed_term, renamed_terms,
    renamed_vars, sorted_vars, var_le,
};
use crate::virt::schema::{arms_slots, arms_values, handler_slots, stmt_slots as const_slots};
use crate::virt::schema::{HandlerSlot, SlotKind};

verus! {

// ---------------------------------------------------------------------------
// Other names
// ---------------------------------------------------------------------------

/// The name of a variable; one that has no other name keeps its own.
pub open spec fn called(v: IRVarId, map: Seq<IRVarId>) -> IRVarId {
    if v.0 < map.len() {
        map[v.0 as int]
    } else {
        v
    }
}

/// A boolean statement under other names is the same statement, and in each of
/// its places stands the new name of what stood there; storage spaces stay.
pub proof fn law_renamed_bir_statement(s: BIrStmtView, map: Seq<IRVarId>, i: int)
    ensures
        same_stmt(s, renamed_bir_stmt(s, map)),
        stmt_slots(renamed_bir_stmt(s, map)).len() == stmt_slots(s).len(),
        0 <= i < stmt_slots(s).len() ==> match stmt_slots(s)[i] {
            Slot::Var(v) => stmt_slots(renamed_bir_stmt(s, map))[i] == Slot::<
                IRVarId,
                StorageId,
            >::Var(called(v, map)),
            Slot::Stor(x) => stmt_slots(renamed_bir_stmt(s, map))[i] == Slot::<
                IRVarId,
                StorageId,
            >::Stor(x),
        },
        match (s, renamed_bir_stmt(s, map)) {
            (
                BIrStmtView::StorageRead { storage: a, .. },
                BIrStmtView::StorageRead { storage: b, .. },
            ) => a == b,
            (
                BIrStmtView::StorageWrite { storage: a, .. },
                BIrStmtView::StorageWrite { storage: b, .. },
            ) => a == b,
            _ => true,
        },
{
}

/// The end of a boolean block under other names goes where it went.
pub proof fn law_renamed_bir_end(t: BIrTermView, map: Seq<IRVarId>, i: int)
    ensures
        match (t, renamed_bir_term(t, map)) {
            (BIrTermView::Jmp(a), BIrTermView::Jmp(b)) => {
                &&& b.block == a.block
                &&& b.args.len() == a.args.len()
                &&& 0 <= i < a.args.len() ==> b.args[i] == called(a.args[i], map)
            },
            (
                BIrTermView::CondJmp { val: v, then_target: a, else_target: c },
                BIrTermView::CondJmp { val: w, then_target: b, else_target: d },
            ) => {
                &&& w == called(v, map)
                &&& b.block == a.block
                &&& d.block == c.block
                &&& b.args.len() == a.args.len()
                &&& d.args.len() == c.args.len()
                &&& 0 <= i < a.args.len() ==> b.args[i] == called(a.args[i], map)
                &&& 0 <= i < c.args.len() ==> d.args[i] == called(c.args[i], map)
            },
            _ => false,
        },
{
}

/// Whether a list holds the new names of another one.
pub open spec fn all_called(vs: Seq<IRVarId>, map: Seq<IRVarId>, ws: Seq<IRVarId>) -> bool {
    &&& ws.len() == vs.len()
    &&& forall|i: int| 0 <= i < vs.len() ==> #[trigger] ws[i] == map[vs[i].0 as int]
}

/// A typed statement under other names: its variables are renamed, and nothing
/// else about it changes.
pub proof fn law_renamed_statement(s: Stmt, map: Seq<IRVarId>)
    ensures
        match (s, renamed_stmt(s@, map)) {
            (Stmt::Const(c, t), StmtView::Const(d, u)) => c == d && t == u,
            (
                Stmt::StorageRead { storage, ty, addr },
                StmtView::StorageRead { storage: storage2, ty: ty2, addr: addr2 },
            ) => {
                &&& storage2 == storage
                &&& ty2 == ty
                &&& addr2 == map[addr.0 as int]
            },
            (
                Stmt::StorageWrite { storage, src, ty, addr },
                StmtView::StorageWrite { storage: storage2, src: src2, ty: ty2, addr: addr2 },
            ) => {
                &&& storage2 == storage
                &&& src2 == map[src.0 as int]
                &&& ty2 == ty
                &&& addr2 == map[addr.0 as int]
            },
            (
                Stmt::Transmute { src, src_ty, dst_ty },
                StmtView::Transmute { src: src2, src_ty: src_ty2, dst_ty: dst_ty2 },
            ) => {
                &&& src2 == map[src.0 as int]
                &&& src_ty2 == src_ty
                &&& dst_ty2 == dst_ty
            },
            (
                Stmt::Rol { src, ty, n },
                StmtView::Rol { src: src2, ty: ty2, n: n2 },
            ) => {
                &&& src2 == map[src.0 as int]
                &&& ty2 == ty
                &&& n2 == n
            },
            (
                Stmt::Ror { src, ty, n },
                StmtView::Ror { src: src2, ty: ty2, n: n2 },
            ) => {
                &&& src2 == map[src.0 as int]
                &&& ty2 == ty
                &&& n2 == n
            },
            (
                Stmt::Merge { parts, ty },
                StmtView::Merge { parts: parts2, ty: ty2 },
            ) => {
                &&& all_called(parts@, map, parts2)
                &&& ty2 == ty
            },
            (
                Stmt::Splat { src, ty },
                StmtView::Splat { src: src2, ty: ty2 },
            ) => {
                &&& src2 == map[src.0 as int]
                &&& ty2 == ty
            },
            (
                Stmt::OracleCall { name, args, output_tys, result_ty },
                StmtView::OracleCall { name: name2, args: args2, output_tys: output_tys2,
                    result_ty: result_ty2 },
            ) => {
                &&& name2 == name@
                &&& all_called(args@, map, args2)
                &&& output_tys2 == output_tys@
                &&& result_ty2 == result_ty
            },
            (
                Stmt::OracleOutput { call, idx, ty },
                StmtView::OracleOutput { call: call2, idx: idx2, ty: ty2 },
            ) => {
                &&& call2 == map[call.0 as int]
                &&& idx2 == idx
                &&& ty2 == ty
            },
            (
                Stmt::ActionCall { name, guard, args, fallbacks, output_tys, result_ty },
                StmtView::ActionCall { name: name2, guard: guard2, args: args2,
                    fallbacks: fallbacks2, output_tys: output_tys2, result_ty: result_ty2 },
            ) => {
                &&& name2 == name@
                &&& guard2 == map[guard.0 as int]
                &&& all_called(args@, map, args2)
                &&& all_called(fallbacks@, map, fallbacks2)
                &&& output_tys2 == output_tys@
                &&& result_ty2 == result_ty
            },
            (
                Stmt::ActionOutput { call, idx, ty },
                StmtView::ActionOutput { call: call2, idx: idx2, ty: ty2 },
            ) => {
                &&& call2 == map[call.0 as int]
                &&& idx2 == idx
                &&& ty2 == ty
            },
            (
                Stmt::Rng { name, ty },
                StmtView::Rng { name: name2, ty: ty2 },
            ) => {
                &&& name2 == name@
                &&& ty2 == ty
            },
            (
                Stmt::Poly { ty, coeffs, constant },
                StmtView::Poly { ty: ty2, coeffs: coeffs2, constant: constant2 },
            ) => ty2 == ty && constant2 == constant && coeffs2 == renamed_terms(coeffs@, map),
            (
                Stmt::Shuffle { result_bits, ty },
                StmtView::Shuffle { result_bits: result_bits2, ty: ty2 },
            ) => {
                &&& ty2 == ty
                &&& result_bits2.len() == result_bits@.len()
                &&& forall|i: int|
                    0 <= i < result_bits2.len() ==> #[trigger] result_bits2[i] == (
                        result_bits@[i].0,
                        map[result_bits@[i].1.0 as int],
                    )
            },
            (Stmt::ActionStore { .. }, t) => t == s@,
            _ => false,
        },
{
}

proof fn lemma_removed<K, V>(s: Seq<(K, V)>, k: K, q: K, less: spec_fn(K, K) -> bool)
    requires
        assoc_sorted(s, less),
        strict_order(less),
    ensures
        assoc_get(assoc_remove(s, k), q) == (if q == k {
            None
        } else {
            assoc_get(s, q)
        }),
        assoc_sorted(assoc_remove(s, k), less),
        forall|i: int|
            0 <= i < assoc_remove(s, k).len() ==> s.contains(#[trigger] assoc_remove(s, k)[i]),
    decreases s.len(),
{
    let r = assoc_remove(s, k);
    if s.len() > 0 {
        let rest = s.drop_first();
        assert forall|i: int| 0 <= i < rest.len() implies #[trigger] rest[i] == s[i + 1] by {}
        assert forall|i: int, j: int|
            #![trigger rest[i], rest[j]]
            0 <= i < j < rest.len() implies less(rest[i].0, rest[j].0) by {
            assert(less(s[i + 1].0, s[j + 1].0));
        }
        lemma_removed(rest, k, q, less);
        if s[0].0 == k {
            assert(r =~= rest);
            assert forall|i: int| 0 <= i < rest.len() implies (#[trigger] rest[i]).0 != k by {
                assert(less(s[0].0, s[i + 1].0));
            }
            if q == k {
                law_assoc_get(rest, k, rest.len() as int);
            }
            assert forall|i: int| 0 <= i < r.len() implies s.contains(#[trigger] r[i]) by {
                assert(s[i + 1] == r[i]);
            }
        } else {
            let more = assoc_remove(rest, k);
            assert(r =~= seq![s[0]] + more);
            assert(r[0] == s[0]);
            assert(r.drop_first() =~= more);
            assert forall|i: int| 0 <= i < more.len() implies r[i + 1] == #[trigger] more[i] by {}
            assert forall|i: int| 0 <= i < r.len() implies s.contains(#[trigger] r[i]) by {
                if i == 0 {
                    assert(s[0] == r[0]);
                } else {
                    assert(rest.contains(more[i - 1]));
                    let n = choose|n: int| 0 <= n < rest.len() && rest[n] == more[i - 1];
                    assert(s[n + 1] == r[i]);
                }
            }
            assert forall|i: int, j: int|
                #![trigger r[i], r[j]]
                0 <= i < j < r.len() implies less(r[i].0, r[j].0) by {
                assert(r[j] == more[j - 1]);
                if i > 0 {
                    assert(r[i] == more[i - 1]);
                } else {
                    assert(rest.contains(more[j - 1]));
                    let n = choose|n: int| 0 <= n < rest.len() && rest[n] == more[j - 1];
                    assert(less(s[0].0, s[n + 1].0));
                }
            }
        }
    }
}

proof fn lemma_terms_sorted(terms: Seq<(Seq<IRVarId>, u8)>, map: Seq<IRVarId>)
    ensures
        assoc_sorted(renamed_terms(terms, map), vars_order()),
    decreases terms.len(),
{
    lemma_vars_order();
    if terms.len() > 0 {
        lemma_terms_sorted(terms.drop_last(), map);
        let acc = renamed_terms(terms.drop_last(), map);
        let key = sorted_vars(renamed_vars(terms.last().0, map));
        let sum = match assoc_get(acc, key) {
            Some(c) => c ^ terms.last().1,
            None => 0u8 ^ terms.last().1,
        };
        lemma_removed(acc, key, key, vars_order());
        law_assoc_insert_sorted(acc, key, sum, vars_order());
    }
}

/// A polynomial under other names: the variables of a term are renamed and put in
/// order, and terms that come to have the same ones are added, which two equal
/// coefficients do not survive.
pub proof fn law_renamed_term(
    terms: Seq<(Seq<IRVarId>, u8)>,
    t: (Seq<IRVarId>, u8),
    map: Seq<IRVarId>,
    q: Seq<IRVarId>,
)
    ensures
        renamed_terms(Seq::empty(), map).len() == 0,
        ({
            let key = sorted_vars(renamed_vars(t.0, map));
            let before = renamed_terms(terms, map);
            let now = renamed_terms(terms.push(t), map);
            let sum = (match assoc_get(before, key) {
                Some(c) => c,
                None => 0u8,
            }) ^ t.1;
            &&& q != key ==> assoc_get(now, q) == assoc_get(before, q)
            &&& sum != 0 ==> assoc_get(now, key) == Some(sum)
            &&& sum == 0 ==> assoc_get(now, key) is None
        }),
{
    let key = sorted_vars(renamed_vars(t.0, map));
    let before = renamed_terms(terms, map);
    assert(terms.push(t).drop_last() =~= terms);
    lemma_vars_order();
    lemma_terms_sorted(terms, map);
    lemma_removed(before, key, q, vars_order());
    lemma_removed(before, key, key, vars_order());
    let sum = (match assoc_get(before, key) {
        Some(c) => c,
        None => 0u8,
    }) ^ t.1;
    law_assoc_get_insert(before, key, sum, vars_order(), q);
    law_assoc_get_insert(before, key, sum, vars_order(), key);
}

/// The variables of a renamed term are the renamed variables, in order of their
/// numbers.
pub proof fn law_renamed_monomial(vs: Seq<IRVarId>, map: Seq<IRVarId>, i: int, j: int)
    ensures
        renamed_vars(vs, map).len() == vs.len(),
        0 <= i < vs.len() ==> renamed_vars(vs, map)[i] == map[vs[i].0 as int],
        sorted_vars(renamed_vars(vs, map)).to_multiset() == renamed_vars(vs, map).to_multiset(),
        0 <= i < j < sorted_vars(renamed_vars(vs, map)).len() ==> sorted_vars(
            renamed_vars(vs, map),
        )[i].0 <= sorted_vars(renamed_vars(vs, map))[j].0,
{
    let names = renamed_vars(vs, map);
    assert(total_ordering(var_le()));
    names.lemma_sort_by_ensures(var_le());
    let sorted = sorted_vars(names);
    assert(sorted_by(sorted, var_le()));
    if 0 <= i < j < sorted.len() {
        assert(var_le()(sorted[i], sorted[j]));
    }
}

proof fn lemma_renamed_branch(b: BranchView, map: Seq<IRVarId>)
    ensures
        same_branch(b, renamed_branch(b, map)),
        branch_vars(renamed_branch(b, map)) == renamed_vars(branch_vars(b), map),
{
    match b.dest {
        IRBlockTargetId::Dyn(v) => {
            assert(dest_vars(renamed_branch(b, map).dest) =~= renamed_vars(dest_vars(b.dest), map));
        },
        _ => {
            assert(dest_vars(renamed_branch(b, map).dest) =~= renamed_vars(dest_vars(b.dest), map));
        },
    }
    assert(branch_vars(renamed_branch(b, map)) =~= renamed_vars(branch_vars(b), map));
}

proof fn lemma_renamed_cases(cases: Seq<(Constant, BranchView)>, map: Seq<IRVarId>)
    ensures
        cases_vars(cases.map_values(|c: (Constant, BranchView)| (c.0, renamed_branch(c.1, map))))
            == renamed_vars(cases_vars(cases), map),
    decreases cases.len(),
{
    let r = cases.map_values(|c: (Constant, BranchView)| (c.0, renamed_branch(c.1, map)));
    if cases.len() == 0 {
        assert(cases_vars(r) =~= renamed_vars(cases_vars(cases), map));
    } else {
        let before = cases.drop_last();
        lemma_renamed_cases(before, map);
        lemma_renamed_branch(cases.last().1, map);
        assert(r.drop_last() =~= before.map_values(
            |c: (Constant, BranchView)| (c.0, renamed_branch(c.1, map)),
        ));
        assert(cases_vars(r) =~= renamed_vars(cases_vars(cases), map));
    }
}

/// The end of a typed block under other names is the same end, with the new name
/// of each of its variables in its place.
pub proof fn law_renamed_end(t: TermView, map: Seq<IRVarId>, i: int)
    ensures
        same_end(t, renamed_term(t, map)),
        end_vars(renamed_term(t, map)).len() == end_vars(t).len(),
        0 <= i < end_vars(t).len() ==> end_vars(renamed_term(t, map))[i] == map[end_vars(
            t,
        )[i].0 as int],
{
    let r = renamed_term(t, map);
    match t {
        TermView::Jmp { target } => {
            lemma_renamed_branch(target, map);
        },
        TermView::JumpCond { condition, then_target, else_target } => {
            lemma_renamed_branch(then_target, map);
            lemma_renamed_branch(else_target, map);
            assert(end_vars(r) =~= renamed_vars(end_vars(t), map));
        },
        TermView::JumpTable { index, cases } => {
            lemma_renamed_cases(cases, map);
            assert(end_vars(r) =~= renamed_vars(end_vars(t), map));
            assert forall|k: int| 0 <= k < cases.len() implies same_branch(
                (#[trigger] cases[k]).1,
                renamed_branch(cases[k].1, map),
            ) by {
                lemma_renamed_branch(cases[k].1, map);
            }
        },
    }
}

// ---------------------------------------------------------------------------
// Slots
// ---------------------------------------------------------------------------

proof fn lemma_arm_slots(
    s: Seq<BranchView>,
    arm: BranchView,
    addr_ty: IRTypeId,
    bit_ty: IRTypeId,
)
    ensures
        arms_slots(s.push(arm), addr_ty, bit_ty).len() == arms_slots(s, addr_ty, bit_ty).len() + 2
            + arm.args.len(),
{
    assert(s.push(arm).drop_last() =~= s);
}

/// The slots of a handler: for each parameter the register that it comes from,
/// then one for each constant, of its type.
pub proof fn law_first_slots(key: IRBlockView, addr_ty: IRTypeId, bit_ty: IRTypeId, i: int)
    ensures
        0 <= i < key.params.len() ==> handler_slots(key, addr_ty, bit_ty)[i] == (HandlerSlot {
            kind: SlotKind::ParamSrcReg,
            ty: addr_ty,
        }),
        0 <= i < const_slots(key.stmts).len() ==> handler_slots(key, addr_ty, bit_ty)[
            key.params.len() + i] == const_slots(key.stmts)[i],
{
}

/// Each constant and each polynomial has a slot, no other statement has.
pub proof fn law_constant_slots(ss: Seq<StmtView>, s: StmtView)
    ensures
        const_slots(Seq::empty()).len() == 0,
        match s {
            StmtView::Const(_, ty) => const_slots(ss.push(s)) == const_slots(ss).push(
                HandlerSlot { kind: SlotKind::ConstValue, ty },
            ),
            StmtView::Poly { ty, .. } => const_slots(ss.push(s)) == const_slots(ss).push(
                HandlerSlot { kind: SlotKind::ConstValue, ty },
            ),
            _ => const_slots(ss.push(s)) == const_slots(ss),
        },
{
    assert(ss.push(s).drop_last() =~= ss);
    match s {
        StmtView::Const(_, ty) => {
            let x = HandlerSlot { kind: SlotKind::ConstValue, ty };
            assert(const_slots(ss) + seq![x] =~= const_slots(ss).push(x));
        },
        StmtView::Poly { ty, .. } => {
            let x = HandlerSlot { kind: SlotKind::ConstValue, ty };
            assert(const_slots(ss) + seq![x] =~= const_slots(ss).push(x));
        },
        _ => {
            assert(const_slots(ss) + Seq::empty() =~= const_slots(ss));
        },
    }
}

/// A jump has a slot for the row that it goes to, one for whether it returns, and
/// one for each argument, with the register that it goes to; jumps come in order.
pub proof fn law_jump_slots(
    s: Seq<BranchView>,
    arm: BranchView,
    addr_ty: IRTypeId,
    bit_ty: IRTypeId,
    i: int,
)
    ensures
        arms_slots(Seq::empty(), addr_ty, bit_ty).len() == 0,
        ({
            let n = arms_slots(s, addr_ty, bit_ty).len() as int;
            let all = arms_slots(s.push(arm), addr_ty, bit_ty);
            &&& all.len() == n + 2 + arm.args.len()
            &&& 0 <= i < n ==> all[i] == arms_slots(s, addr_ty, bit_ty)[i]
            &&& all[n] == (HandlerSlot { kind: SlotKind::TargetPc, ty: addr_ty })
            &&& all[n + 1] == (HandlerSlot { kind: SlotKind::DoneFlag, ty: bit_ty })
            &&& 0 <= i < arm.args.len() ==> all[n + 2 + i] == (HandlerSlot {
                kind: SlotKind::ArgDstReg,
                ty: addr_ty,
            })
        }),
{
    assert(s.push(arm).drop_last() =~= s);
    lemma_arm_slots(s, arm, addr_ty, bit_ty);
}

/// The values of the slots of a jump: the number of the block that it goes to,
/// or zero, and a one exactly if it returns.
pub proof fn law_jump_values(
    b: IRBlockView,
    s: Seq<BranchView>,
    arm: BranchView,
    blocks: Seq<IRBlockView>,
    types: Seq<crate::common::IrTypeView>,
)
    ensures
        arms_values(b, Seq::empty(), blocks, types).len() == 0,
        ({
            let n = arms_values(b, s, blocks, types).len() as int;
            let all = arms_values(b, s.push(arm), blocks, types);
            &&& all.len() == n + 2 + arm.args.len()
            &&& all[n] == (match arm.dest {
                IRBlockTargetId::Block(t) => Constant { hi: 0, lo: t.0 as u128 },
                _ => Constant { hi: 0, lo: 0 },
            })
            &&& all[n + 1] == (if arm.dest is Return {
                Constant { hi: 0, lo: 1 }
            } else {
                Constant { hi: 0, lo: 0 }
            })
        }),
{
    assert(s.push(arm).drop_last() =~= s);
}

// ---------------------------------------------------------------------------
// Boolean programs
// ---------------------------------------------------------------------------

/// The table of a boolean program can only be read.
pub proof fn law_bir_generated_access(
    s: StorageId,
    segments: Seq<BIrPreInitView>,
    base: StorageId,
    i: int,
)
    ensures
        s == base || (0 <= i < segments.len() && segments[i].storage == s) ==> bir_generated_access(
            s,
            segments,
            base,
        ) == Some(StorageAccess::ReadOnly),
        s != base && (forall|k: int|
            0 <= k < segments.len() ==> (#[trigger] segments[k]).storage != s)
            ==> bir_generated_access(s, segments, base) is None,
{
}

/// Emitted control statements take the provenance of the first statement of the
/// first block that has one.
pub proof fn law_bir_control_statement<P>(blocks: Seq<BIrBlock<P>>, b: int)
    requires
        0 <= b <= blocks.len(),
        forall|k: int| 0 <= k < b ==> (#[trigger] blocks[k]).stmts@.len() == 0,
        b < blocks.len() ==> blocks[b].stmts@.len() > 0,
    ensures
        first_bir_node(blocks) == (if b < blocks.len() {
            Some(blocks[b].stmts@[0])
        } else {
            None
        }),
    decreases blocks.len(),
{
    if b > 0 {
        let rest = blocks.drop_first();
        assert(blocks[0].stmts@.len() == 0);
        assert forall|k: int| 0 <= k < b - 1 implies (#[trigger] rest[k]).stmts@.len() == 0 by {
            assert(rest[k] == blocks[k + 1]);
        }
        law_bir_control_statement(rest, b - 1);
    }
}

} // verus!
