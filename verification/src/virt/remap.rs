//! Renaming of the variables that statements and terminators read.

use vstd::prelude::*;
use vstd::relations::{sorted_by, total_ordering};
use vstd::seq_lib::lemma_sorted_unique;

use crate::boolar::{BIrStmt, BIrStmtView, BIrTarget, BIrTargetView, BIrTermView, BIrTerminator};
use crate::common::Constant;
use crate::ir::{
    case_views, clone_hint, vars_order, BranchView, IRBlockTargetId, IRBranchTarget, IRStmt,
    IRTerminator, IRVarId, PolyCoeffs, Stmt, StmtView, TermView,
};
use crate::sorted::{assoc_get, assoc_insert, assoc_remove};

verus! {

/// The value that marks a variable without a new name.
pub const UNDEFINED_VAR: u32 = 0xffff_ffff;

/// Whether the variable `v` has a new name in `map`.
pub open spec fn var_mapped(v: IRVarId, map: Seq<IRVarId>) -> bool {
    v.0 < map.len() && map[v.0 as int].0 != UNDEFINED_VAR
}

/// Whether every variable of a list has a new name.
pub open spec fn vars_mapped(vs: Seq<IRVarId>, map: Seq<IRVarId>) -> bool {
    forall|i: int| 0 <= i < vs.len() ==> var_mapped(#[trigger] vs[i], map)
}

/// The new name of `v`.
pub open spec fn renamed_var(v: IRVarId, map: Seq<IRVarId>) -> IRVarId {
    map[v.0 as int]
}

/// The new names of a list of variables.
pub open spec fn renamed_vars(vs: Seq<IRVarId>, map: Seq<IRVarId>) -> Seq<IRVarId> {
    vs.map_values(|v: IRVarId| renamed_var(v, map))
}

/// The new names in a list of shuffled bits.
pub open spec fn renamed_bits(bits: Seq<(u8, IRVarId)>, map: Seq<IRVarId>) -> Seq<(u8, IRVarId)> {
    bits.map_values(|b: (u8, IRVarId)| (b.0, renamed_var(b.1, map)))
}

/// The order of variables.
pub open spec fn var_le() -> spec_fn(IRVarId, IRVarId) -> bool {
    |a: IRVarId, b: IRVarId| a.0 <= b.0
}

/// A list of variables in increasing order.
pub open spec fn sorted_vars(vs: Seq<IRVarId>) -> Seq<IRVarId> {
    vs.sort_by(var_le())
}

/// Coefficients with `coeff` added to the monomial `key`. Coefficients add by
/// exclusive or, and a monomial whose coefficient becomes 0 is dropped.
pub open spec fn add_term(
    acc: Seq<(Seq<IRVarId>, u8)>,
    key: Seq<IRVarId>,
    coeff: u8,
) -> Seq<(Seq<IRVarId>, u8)> {
    let sum = match assoc_get(acc, key) {
        Some(c) => c ^ coeff,
        None => 0u8 ^ coeff,
    };
    if sum == 0 {
        assoc_remove(acc, key)
    } else {
        assoc_insert(acc, key, sum, vars_order())
    }
}

/// The coefficients under new names: each monomial is renamed and put in
/// variable order, and monomials that become equal are added up.
pub open spec fn renamed_terms(
    terms: Seq<(Seq<IRVarId>, u8)>,
    map: Seq<IRVarId>,
) -> Seq<(Seq<IRVarId>, u8)>
    decreases terms.len(),
{
    if terms.len() == 0 {
        Seq::empty()
    } else {
        add_term(
            renamed_terms(terms.drop_last(), map),
            sorted_vars(renamed_vars(terms.last().0, map)),
            terms.last().1,
        )
    }
}

/// Whether every variable of every monomial has a new name.
pub open spec fn terms_mapped(terms: Seq<(Seq<IRVarId>, u8)>, map: Seq<IRVarId>) -> bool {
    forall|i: int| 0 <= i < terms.len() ==> vars_mapped((#[trigger] terms[i]).0, map)
}

/// Whether every variable of a list of shuffled bits has a new name.
pub open spec fn bits_mapped(bits: Seq<(u8, IRVarId)>, map: Seq<IRVarId>) -> bool {
    forall|i: int| 0 <= i < bits.len() ==> var_mapped((#[trigger] bits[i]).1, map)
}

/// Whether a statement can be renamed: every variable that it reads has a new
/// name, and it is not an action store.
pub open spec fn stmt_mapped(s: StmtView, map: Seq<IRVarId>) -> bool {
    match s {
        StmtView::Const(..) => true,
        StmtView::StorageRead { addr, .. } => var_mapped(addr, map),
        StmtView::StorageWrite { src, addr, .. } => var_mapped(src, map) && var_mapped(addr, map),
        StmtView::Transmute { src, .. } => var_mapped(src, map),
        StmtView::Poly { coeffs, .. } => terms_mapped(coeffs, map),
        StmtView::Rol { src, .. } => var_mapped(src, map),
        StmtView::Ror { src, .. } => var_mapped(src, map),
        StmtView::Merge { parts, .. } => vars_mapped(parts, map),
        StmtView::Splat { src, .. } => var_mapped(src, map),
        StmtView::Shuffle { result_bits, .. } => bits_mapped(result_bits, map),
        StmtView::OracleCall { args, .. } => vars_mapped(args, map),
        StmtView::OracleOutput { call, .. } => var_mapped(call, map),
        StmtView::ActionCall { guard, args, fallbacks, .. } => var_mapped(guard, map) && vars_mapped(args, map) && vars_mapped(fallbacks, map),
        StmtView::ActionOutput { call, .. } => var_mapped(call, map),
        StmtView::ActionStore { .. } => false,
        StmtView::Rng { .. } => true,
    }
}

/// A statement under new variable names.
pub open spec fn renamed_stmt(s: StmtView, map: Seq<IRVarId>) -> StmtView {
    match s {
        StmtView::Const(a0, a1) => StmtView::Const(a0, a1),
        StmtView::StorageRead { storage, ty, addr } => StmtView::StorageRead { storage, ty, addr: renamed_var(addr, map) },
        StmtView::StorageWrite { storage, src, ty, addr } => StmtView::StorageWrite { storage, src: renamed_var(src, map), ty, addr: renamed_var(addr, map) },
        StmtView::Transmute { src, src_ty, dst_ty } => StmtView::Transmute { src: renamed_var(src, map), src_ty, dst_ty },
        StmtView::Poly { ty, coeffs, constant } => StmtView::Poly { ty, coeffs: renamed_terms(coeffs, map), constant },
        StmtView::Rol { src, ty, n } => StmtView::Rol { src: renamed_var(src, map), ty, n },
        StmtView::Ror { src, ty, n } => StmtView::Ror { src: renamed_var(src, map), ty, n },
        StmtView::Merge { parts, ty } => StmtView::Merge { parts: renamed_vars(parts, map), ty },
        StmtView::Splat { src, ty } => StmtView::Splat { src: renamed_var(src, map), ty },
        StmtView::Shuffle { result_bits, ty } => StmtView::Shuffle { result_bits: renamed_bits(result_bits, map), ty },
        StmtView::OracleCall { name, args, output_tys, result_ty } => StmtView::OracleCall { name, args: renamed_vars(args, map), output_tys, result_ty },
        StmtView::OracleOutput { call, idx, ty } => StmtView::OracleOutput { call: renamed_var(call, map), idx, ty },
        StmtView::ActionCall { name, guard, args, fallbacks, output_tys, result_ty } => StmtView::ActionCall { name, guard: renamed_var(guard, map), args: renamed_vars(args, map), fallbacks: renamed_vars(fallbacks, map), output_tys, result_ty },
        StmtView::ActionOutput { call, idx, ty } => StmtView::ActionOutput { call: renamed_var(call, map), idx, ty },
        StmtView::ActionStore { .. } => s,
        StmtView::Rng { name, ty } => StmtView::Rng { name, ty },
    }
}

/// The new name of `v`.
pub fn remap_var(v: IRVarId, map: &Vec<IRVarId>) -> (r: IRVarId)
    requires
        var_mapped(v, map@),
    ensures
        r == renamed_var(v, map@),
{
    map[v.0 as usize]
}

/// The new names of a list of variables.
pub fn remap_vars(vs: &Vec<IRVarId>, map: &Vec<IRVarId>) -> (r: Vec<IRVarId>)
    requires
        vars_mapped(vs@, map@),
    ensures
        r@ == renamed_vars(vs@, map@),
{
    let mut out: Vec<IRVarId> = Vec::new();
    let mut i: usize = 0;
    while i < vs.len()
        invariant
            i <= vs.len(),
            out@.len() == i,
            vars_mapped(vs@, map@),
            forall|j: int| 0 <= j < i ==> #[trigger] out@[j] == renamed_var(vs@[j], map@),
        decreases vs.len() - i,
    {
        assert(var_mapped(vs@[i as int], map@));
        out.push(remap_var(vs[i], map));
        i += 1;
    }
    assert(out@ =~= renamed_vars(vs@, map@));
    out
}

/// The new names in a list of shuffled bits.
fn remap_bits(bits: &Vec<(u8, IRVarId)>, map: &Vec<IRVarId>) -> (r: Vec<(u8, IRVarId)>)
    requires
        bits_mapped(bits@, map@),
    ensures
        r@ == renamed_bits(bits@, map@),
{
    let mut out: Vec<(u8, IRVarId)> = Vec::new();
    let mut i: usize = 0;
    while i < bits.len()
        invariant
            i <= bits.len(),
            out@.len() == i,
            bits_mapped(bits@, map@),
            forall|j: int|
                0 <= j < i ==> #[trigger] out@[j] == (bits@[j].0, renamed_var(bits@[j].1, map@)),
        decreases bits.len() - i,
    {
        assert(var_mapped(bits@[i as int].1, map@));
        out.push((bits[i].0, remap_var(bits[i].1, map)));
        i += 1;
    }
    assert(out@ =~= renamed_bits(bits@, map@));
    out
}

/// Inserting an element adds it to the multiset of a list.
proof fn lemma_insert_multiset(s: Seq<IRVarId>, i: int, v: IRVarId)
    requires
        0 <= i <= s.len(),
    ensures
        s.insert(i, v).to_multiset() == s.to_multiset().insert(v),
{
    s.to_multiset_ensures();
    broadcast use vstd::seq_lib::group_to_multiset_ensures;

    let a = s.take(i);
    let b = s.skip(i);
    assert(s =~= a + b);
    assert(s.insert(i, v) =~= a.push(v) + b);
    vstd::seq_lib::lemma_multiset_commutative(a, b);
    vstd::seq_lib::lemma_multiset_commutative(a.push(v), b);
    assert(a.push(v).to_multiset() =~= a.to_multiset().insert(v));
    assert(s.insert(i, v).to_multiset() =~= s.to_multiset().insert(v));
}

/// A list of variables in increasing order.
pub fn sort_vars(vs: &Vec<IRVarId>) -> (r: Vec<IRVarId>)
    ensures
        r@ == sorted_vars(vs@),
{
    let mut out: Vec<IRVarId> = Vec::new();
    let mut i: usize = 0;
    proof {
        vs@.take(0).to_multiset_ensures();
        out@.to_multiset_ensures();
        assert(vs@.take(0) =~= out@);
    }
    while i < vs.len()
        invariant
            i <= vs.len(),
            sorted_by(out@, var_le()),
            out@.to_multiset() == vs@.take(i as int).to_multiset(),
        decreases vs.len() - i,
    {
        let v: IRVarId = vs[i];
        let mut k: usize = 0;
        while k < out.len() && out[k].0 <= v.0
            invariant
                k <= out.len(),
                sorted_by(out@, var_le()),
                forall|j: int| 0 <= j < k ==> (#[trigger] out@[j]).0 <= v.0,
            decreases out.len() - k,
        {
            k += 1;
        }
        let ghost before = out@;
        out.insert(k, v);
        proof {
            let less = var_le();
            assert forall|a: int, b: int| 0 <= a < b < out@.len() implies #[trigger] less(
                out@[a],
                out@[b],
            ) by {
                let a2 = if a < k { a } else { a - 1 };
                let b2 = if b < k { b } else { b - 1 };
                if a != k && b != k {
                    assert(less(before[a2], before[b2]));
                } else if b == k {
                    assert(out@[a] == before[a]);
                } else {
                    assert(out@[b] == before[b - 1]);
                    if b - 1 > k {
                        assert(less(before[k as int], before[b - 1]));
                    }
                }
            }
            lemma_insert_multiset(before, k as int, v);
            vs@.take(i as int).to_multiset_ensures();
            assert(vs@.take(i + 1) =~= vs@.take(i as int).push(v));
        }
        i += 1;
    }
    proof {
        assert(vs@.take(i as int) =~= vs@);
        assert(total_ordering(var_le()));
        vs@.lemma_sort_by_ensures(var_le());
        lemma_sorted_unique(out@, sorted_vars(vs@), var_le());
    }
    out
}

/// The coefficients under new names.
pub fn remap_coeffs(coeffs: &PolyCoeffs, map: &Vec<IRVarId>) -> (r: PolyCoeffs)
    requires
        terms_mapped(coeffs@, map@),
    ensures
        r@ == renamed_terms(coeffs@, map@),
{
    let mut out = PolyCoeffs::new();
    let mut i: usize = 0;
    while i < coeffs.terms.len()
        invariant
            i <= coeffs.terms.len(),
            terms_mapped(coeffs@, map@),
            out@ == renamed_terms(coeffs@.take(i as int), map@),
        decreases coeffs.terms.len() - i,
    {
        let ghost t = coeffs@[i as int];
        assert(vars_mapped(t.0, map@));
        let renamed = remap_vars(&coeffs.terms[i].0, map);
        let key = sort_vars(&renamed);
        let c: u8 = coeffs.terms[i].1;
        let old_c: u8 = match out.get(&key) {
            Some(x) => x,
            None => 0,
        };
        let sum: u8 = old_c ^ c;
        proof {
            let longer = coeffs@.take(i + 1);
            assert(longer.drop_last() =~= coeffs@.take(i as int));
            assert(longer.last() == t);
        }
        if sum == 0 {
            out.remove(&key);
        } else {
            out.insert(key, sum);
        }
        i += 1;
    }
    assert(coeffs@.take(i as int) =~= coeffs@);
    out
}

/// A statement under new variable names.
pub fn remap_stmt(s: &IRStmt, map: &Vec<IRVarId>) -> (r: IRStmt)
    requires
        stmt_mapped(s@, map@),
    ensures
        r@ == renamed_stmt(s@, map@),
{
    match s {
        Stmt::Const(a0, a1) => Stmt::Const(*a0, *a1),
        Stmt::StorageRead { storage, ty, addr } => Stmt::StorageRead { storage: *storage, ty: *ty, addr: remap_var(*addr, map) },
        Stmt::StorageWrite { storage, src, ty, addr } => Stmt::StorageWrite { storage: *storage, src: remap_var(*src, map), ty: *ty, addr: remap_var(*addr, map) },
        Stmt::Transmute { src, src_ty, dst_ty } => Stmt::Transmute { src: remap_var(*src, map), src_ty: *src_ty, dst_ty: *dst_ty },
        Stmt::Poly { ty, coeffs, constant } => Stmt::Poly { ty: *ty, coeffs: remap_coeffs(coeffs, map), constant: *constant },
        Stmt::Rol { src, ty, n } => Stmt::Rol { src: remap_var(*src, map), ty: *ty, n: *n },
        Stmt::Ror { src, ty, n } => Stmt::Ror { src: remap_var(*src, map), ty: *ty, n: *n },
        Stmt::Merge { parts, ty } => Stmt::Merge { parts: remap_vars(parts, map), ty: *ty },
        Stmt::Splat { src, ty } => Stmt::Splat { src: remap_var(*src, map), ty: *ty },
        Stmt::Shuffle { result_bits, ty } => Stmt::Shuffle { result_bits: remap_bits(result_bits, map), ty: *ty },
        Stmt::OracleCall { name, args, output_tys, result_ty } => Stmt::OracleCall { name: name.clone(), args: remap_vars(args, map), output_tys: output_tys.clone(), result_ty: *result_ty },
        Stmt::OracleOutput { call, idx, ty } => Stmt::OracleOutput { call: remap_var(*call, map), idx: *idx, ty: *ty },
        Stmt::ActionCall { name, guard, args, fallbacks, output_tys, result_ty } => Stmt::ActionCall { name: name.clone(), guard: remap_var(*guard, map), args: remap_vars(args, map), fallbacks: remap_vars(fallbacks, map), output_tys: output_tys.clone(), result_ty: *result_ty },
        Stmt::ActionOutput { call, idx, ty } => Stmt::ActionOutput { call: remap_var(*call, map), idx: *idx, ty: *ty },
        Stmt::ActionStore { .. } => s.clone(),
        Stmt::Rng { name, ty } => Stmt::Rng { name: name.clone(), ty: *ty },
    }
}

/// Whether every argument of a branch has a new name, and the variable of its
/// destination too, if there is one.
pub open spec fn branch_mapped(b: BranchView, map: Seq<IRVarId>) -> bool {
    &&& vars_mapped(b.args, map)
    &&& b.dest matches IRBlockTargetId::Dyn(v) ==> var_mapped(v, map)
}

/// A destination under new variable names.
pub open spec fn renamed_dest(d: IRBlockTargetId, map: Seq<IRVarId>) -> IRBlockTargetId {
    match d {
        IRBlockTargetId::Dyn(v) => IRBlockTargetId::Dyn(renamed_var(v, map)),
        _ => d,
    }
}

/// A branch under new variable names.
pub open spec fn renamed_branch(b: BranchView, map: Seq<IRVarId>) -> BranchView {
    BranchView { dest: renamed_dest(b.dest, map), args: renamed_vars(b.args, map), ..b }
}

/// Whether every variable that a terminator passes on, decides by or jumps to
/// has a new name.
pub open spec fn term_mapped(t: TermView, map: Seq<IRVarId>) -> bool {
    match t {
        TermView::Jmp { target } => branch_mapped(target, map),
        TermView::JumpCond { condition, then_target, else_target } => var_mapped(condition, map)
            && branch_mapped(then_target, map) && branch_mapped(else_target, map),
        TermView::JumpTable { index, cases } => var_mapped(index, map) && forall|i: int|
            0 <= i < cases.len() ==> branch_mapped((#[trigger] cases[i]).1, map),
    }
}

/// A terminator under new variable names.
pub open spec fn renamed_term(t: TermView, map: Seq<IRVarId>) -> TermView {
    match t {
        TermView::Jmp { target } => TermView::Jmp { target: renamed_branch(target, map) },
        TermView::JumpCond { condition, then_target, else_target } => TermView::JumpCond {
            condition: renamed_var(condition, map),
            then_target: renamed_branch(then_target, map),
            else_target: renamed_branch(else_target, map),
        },
        TermView::JumpTable { index, cases } => TermView::JumpTable {
            index: renamed_var(index, map),
            cases: cases.map_values(
                |c: (Constant, BranchView)| (c.0, renamed_branch(c.1, map)),
            ),
        },
    }
}

/// A branch under new variable names.
fn remap_branch(b: &IRBranchTarget, map: &Vec<IRVarId>) -> (r: IRBranchTarget)
    requires
        branch_mapped(b@, map@),
    ensures
        r@ == renamed_branch(b@, map@),
{
    IRBranchTarget {
        dest: match b.dest {
            IRBlockTargetId::Dyn(v) => IRBlockTargetId::Dyn(remap_var(v, map)),
            dest => dest,
        },
        args: remap_vars(&b.args, map),
        reentry: clone_hint(&b.reentry),
    }
}

/// A terminator under new variable names.
pub fn remap_ir_terminator_vars(t: &IRTerminator, map: &Vec<IRVarId>) -> (r: IRTerminator)
    requires
        term_mapped(t@, map@),
    ensures
        r@ == renamed_term(t@, map@),
{
    match t {
        IRTerminator::Jmp { target } => IRTerminator::Jmp { target: remap_branch(target, map) },
        IRTerminator::JumpCond { condition, then_target, else_target } => IRTerminator::JumpCond {
            condition: remap_var(*condition, map),
            then_target: remap_branch(then_target, map),
            else_target: remap_branch(else_target, map),
        },
        IRTerminator::JumpTable { index, cases } => {
            let mut out: Vec<(Constant, IRBranchTarget)> = Vec::new();
            let ghost cv = case_views(cases@);
            let mut i: usize = 0;
            while i < cases.len()
                invariant
                    i <= cases.len(),
                    cv == case_views(cases@),
                    out@.len() == i,
                    forall|j: int| 0 <= j < cv.len() ==> branch_mapped((#[trigger] cv[j]).1, map@),
                    forall|j: int|
                        0 <= j < i ==> (#[trigger] out@[j]).0 == cv[j].0 && out@[j].1@
                            == renamed_branch(cv[j].1, map@),
                decreases cases.len() - i,
            {
                assert(cv[i as int] == (cases@[i as int].0, cases@[i as int].1@));
                out.push((cases[i].0, remap_branch(&cases[i].1, map)));
                i += 1;
            }
            assert(case_views(out@) =~= cv.map_values(
                |c: (Constant, BranchView)| (c.0, renamed_branch(c.1, map@)),
            ));
            IRTerminator::JumpTable { index: remap_var(*index, map), cases: out }
        },
    }
}

// ---------------------------------------------------------------------------
// Boolean statements
// ---------------------------------------------------------------------------

/// The new name of `v`; a variable beyond the map keeps its name.
pub open spec fn renamed_bit(v: IRVarId, map: Seq<IRVarId>) -> IRVarId {
    if v.0 < map.len() {
        map[v.0 as int]
    } else {
        v
    }
}

/// The new names of a list of variables.
pub open spec fn renamed_bit_list(vs: Seq<IRVarId>, map: Seq<IRVarId>) -> Seq<IRVarId> {
    vs.map_values(|v: IRVarId| renamed_bit(v, map))
}

/// A boolean statement under new variable names.
pub open spec fn renamed_bir_stmt(s: BIrStmtView, map: Seq<IRVarId>) -> BIrStmtView {
    match s {
        BIrStmtView::Zero => BIrStmtView::Zero,
        BIrStmtView::One => BIrStmtView::One,
        BIrStmtView::And(a0, a1) => BIrStmtView::And(renamed_bit(a0, map), renamed_bit(a1, map)),
        BIrStmtView::Or(a0, a1) => BIrStmtView::Or(renamed_bit(a0, map), renamed_bit(a1, map)),
        BIrStmtView::Xor(a0, a1) => BIrStmtView::Xor(renamed_bit(a0, map), renamed_bit(a1, map)),
        BIrStmtView::Not(a0) => BIrStmtView::Not(renamed_bit(a0, map)),
        BIrStmtView::OracleCall { name, args, num_bits } => BIrStmtView::OracleCall { name, args: renamed_bit_list(args, map), num_bits },
        BIrStmtView::OracleBit { name, args, bit, occurrence } => BIrStmtView::OracleBit { name, args: renamed_bit_list(args, map), bit, occurrence },
        BIrStmtView::OracleProjectedBit { call, bit } => BIrStmtView::OracleProjectedBit { call: renamed_bit(call, map), bit },
        BIrStmtView::ActionCall { name, guard, args, fallback, num_bits } => BIrStmtView::ActionCall { name, guard: renamed_bit(guard, map), args: renamed_bit_list(args, map), fallback: renamed_bit_list(fallback, map), num_bits },
        BIrStmtView::ActionBit { call, bit } => BIrStmtView::ActionBit { call: renamed_bit(call, map), bit },
        BIrStmtView::ActionStoreBit { name, guard, args, fallback, storage, lane, addr, bit, occurrence } => BIrStmtView::ActionStoreBit { name, guard: renamed_bit(guard, map), args: renamed_bit_list(args, map), fallback: renamed_bit(fallback, map), storage, lane, addr: renamed_bit_list(addr, map), bit, occurrence },
        BIrStmtView::Rng { name } => BIrStmtView::Rng { name },
        BIrStmtView::RngBit { name, bit, occurrence } => BIrStmtView::RngBit { name, bit, occurrence },
        BIrStmtView::StorageRead { storage, lane, addr } => BIrStmtView::StorageRead { storage, lane, addr: renamed_bit_list(addr, map) },
        BIrStmtView::StorageWrite { storage, lane, src, addr } => BIrStmtView::StorageWrite { storage, lane, src: renamed_bit(src, map), addr: renamed_bit_list(addr, map) },
    }
}

/// The new name of `v`.
pub fn remap_v(v: IRVarId, map: &Vec<IRVarId>) -> (r: IRVarId)
    ensures
        r == renamed_bit(v, map@),
{
    if (v.0 as usize) < map.len() {
        map[v.0 as usize]
    } else {
        v
    }
}

/// The new names of a list of variables.
pub fn remap_vs(vs: &Vec<IRVarId>, map: &Vec<IRVarId>) -> (r: Vec<IRVarId>)
    ensures
        r@ == renamed_bit_list(vs@, map@),
{
    let mut out: Vec<IRVarId> = Vec::new();
    let mut i: usize = 0;
    while i < vs.len()
        invariant
            i <= vs.len(),
            out@.len() == i,
            forall|j: int| 0 <= j < i ==> #[trigger] out@[j] == renamed_bit(vs@[j], map@),
        decreases vs.len() - i,
    {
        out.push(remap_v(vs[i], map));
        i += 1;
    }
    assert(out@ =~= renamed_bit_list(vs@, map@));
    out
}

/// A boolean statement under new variable names.
pub fn remap_bir_stmt(s: &BIrStmt, map: &Vec<IRVarId>) -> (r: BIrStmt)
    ensures
        r@ == renamed_bir_stmt(s@, map@),
{
    match s {
        BIrStmt::Zero => BIrStmt::Zero,
        BIrStmt::One => BIrStmt::One,
        BIrStmt::And(a0, a1) => BIrStmt::And(remap_v(*a0, map), remap_v(*a1, map)),
        BIrStmt::Or(a0, a1) => BIrStmt::Or(remap_v(*a0, map), remap_v(*a1, map)),
        BIrStmt::Xor(a0, a1) => BIrStmt::Xor(remap_v(*a0, map), remap_v(*a1, map)),
        BIrStmt::Not(a0) => BIrStmt::Not(remap_v(*a0, map)),
        BIrStmt::OracleCall { name, args, num_bits } => BIrStmt::OracleCall { name: name.clone(), args: remap_vs(args, map), num_bits: *num_bits },
        BIrStmt::OracleBit { name, args, bit, occurrence } => BIrStmt::OracleBit { name: name.clone(), args: remap_vs(args, map), bit: *bit, occurrence: *occurrence },
        BIrStmt::OracleProjectedBit { call, bit } => BIrStmt::OracleProjectedBit { call: remap_v(*call, map), bit: *bit },
        BIrStmt::ActionCall { name, guard, args, fallback, num_bits } => BIrStmt::ActionCall { name: name.clone(), guard: remap_v(*guard, map), args: remap_vs(args, map), fallback: remap_vs(fallback, map), num_bits: *num_bits },
        BIrStmt::ActionBit { call, bit } => BIrStmt::ActionBit { call: remap_v(*call, map), bit: *bit },
        BIrStmt::ActionStoreBit { name, guard, args, fallback, storage, lane, addr, bit, occurrence } => BIrStmt::ActionStoreBit { name: name.clone(), guard: remap_v(*guard, map), args: remap_vs(args, map), fallback: remap_v(*fallback, map), storage: *storage, lane: *lane, addr: remap_vs(addr, map), bit: *bit, occurrence: *occurrence },
        BIrStmt::Rng { name } => BIrStmt::Rng { name: name.clone() },
        BIrStmt::RngBit { name, bit, occurrence } => BIrStmt::RngBit { name: name.clone(), bit: *bit, occurrence: *occurrence },
        BIrStmt::StorageRead { storage, lane, addr } => BIrStmt::StorageRead { storage: *storage, lane: *lane, addr: remap_vs(addr, map) },
        BIrStmt::StorageWrite { storage, lane, src, addr } => BIrStmt::StorageWrite { storage: *storage, lane: *lane, src: remap_v(*src, map), addr: remap_vs(addr, map) },
    }
}

/// A target whose arguments have new names.
pub open spec fn renamed_bir_target(t: BIrTargetView, map: Seq<IRVarId>) -> BIrTargetView {
    BIrTargetView { block: t.block, args: renamed_bit_list(t.args, map) }
}

/// A boolean terminator under new variable names. Destinations stay.
pub open spec fn renamed_bir_term(t: BIrTermView, map: Seq<IRVarId>) -> BIrTermView {
    match t {
        BIrTermView::Jmp(target) => BIrTermView::Jmp(renamed_bir_target(target, map)),
        BIrTermView::CondJmp { val, then_target, else_target } => BIrTermView::CondJmp {
            val: renamed_bit(val, map),
            then_target: renamed_bir_target(then_target, map),
            else_target: renamed_bir_target(else_target, map),
        },
    }
}

/// A target whose arguments have new names.
fn remap_bir_target(t: &BIrTarget, map: &Vec<IRVarId>) -> (r: BIrTarget)
    ensures
        r@ == renamed_bir_target(t@, map@),
{
    BIrTarget { block: t.block, args: remap_vs(&t.args, map) }
}

/// A boolean terminator under new variable names.
pub fn remap_bir_terminator_vars(t: &BIrTerminator, map: &Vec<IRVarId>) -> (r: BIrTerminator)
    ensures
        r@ == renamed_bir_term(t@, map@),
{
    match t {
        BIrTerminator::Jmp(target) => BIrTerminator::Jmp(remap_bir_target(target, map)),
        BIrTerminator::CondJmp { val, then_target, else_target } => BIrTerminator::CondJmp {
            val: remap_v(*val, map),
            then_target: remap_bir_target(then_target, map),
            else_target: remap_bir_target(else_target, map),
        },
    }
}

} // verus!
