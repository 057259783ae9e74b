//! What holds of constants, types, storage tables and the places of statements
//! and jumps, whatever they are used for.

use vstd::arithmetic::div_mod::lemma_div_denominator;
use vstd::arithmetic::power2::{lemma_pow2_pos, lemma_pow2_unfold, pow2};
use vstd::prelude::*;

use crate::boolar::{
    BIrBlocks, BIrStmt, BIrStmtView, BIrTarget, BIrTargetView, BIrTermView, BIrTerminator,
};
use crate::common::{
    constant_nth_bit, declared_access, interned, interned_index, nth_bit, Constant, IrTypeView,
    StorageAccess, StorageEntry, StorageId, StorageTable,
};
use crate::ir::{
    output_type, vars_less, BranchView, IRBlockTargetId, IRBlocks, IRBranchTarget, IRTerminator,
    IRVarId, Stmt, TermView,
};
use crate::stmt_vars::{same_stmt, stmt_slots, Slot};
use crate::vars::{
    bir_end_vars, branch_vars, cases_vars, dest_vars, end_vars, same_bir_end, same_branch,
    same_cases, same_dest, same_end, same_target, target_vars,
};

verus! {

// ---------------------------------------------------------------------------
// Constants, types, storage
// ---------------------------------------------------------------------------

proof fn lemma_nth_bit(n: nat, k: nat)
    ensures
        nth_bit(n, k) == (n / pow2(k) % 2 == 1),
    decreases k,
{
    if k == 0 {
        vstd::arithmetic::power2::lemma2_to64();
        assert(n / 1 == n);
    } else {
        lemma_nth_bit(n / 2, (k - 1) as nat);
        lemma_pow2_unfold(k);
        lemma_pow2_pos((k - 1) as nat);
        lemma_div_denominator(n as int, 2, pow2((k - 1) as nat) as int);
    }
}

/// Bit `b` of a constant is that of its low half below place 128 and that of its
/// high half from there on.
pub proof fn law_constant_bits(c: Constant, b: nat)
    ensures
        b < 128 ==> constant_nth_bit(c, b) == (c.lo as nat / pow2(b) % 2 == 1),
        b >= 128 ==> constant_nth_bit(c, b) == (c.hi as nat / pow2((b - 128) as nat) % 2 == 1),
{
    if b < 128 {
        lemma_nth_bit(c.lo as nat, b);
    } else {
        lemma_nth_bit(c.hi as nat, (b - 128) as nat);
    }
}

/// Constants are in order of their values.
pub proof fn law_constant_order(a: Constant, b: Constant)
    ensures
        a.less(b) <==> a.hi * 0x1_0000_0000_0000_0000_0000_0000_0000_0000int + a.lo < b.hi
            * 0x1_0000_0000_0000_0000_0000_0000_0000_0000int + b.lo,
{
}

/// A type that was handed in has the place that it was given, what was in the
/// table keeps its place, and the table grows by that type alone, only if it was
/// not there.
pub proof fn law_interned(table: Seq<IrTypeView>, ty: IrTypeView, other: IrTypeView)
    ensures
        0 <= interned_index(table, ty) < interned(table, ty).len(),
        interned(table, ty)[interned_index(table, ty)] == ty,
        forall|i: int| 0 <= i < table.len() ==> #[trigger] interned(table, ty)[i] == table[i],
        forall|i: int|
            0 <= i < interned_index(table, ty) ==> #[trigger] interned(table, ty)[i] != ty,
        interned(table, ty).len() == table.len() + (if exists|i: int|
            0 <= i < table.len() && table[i] == ty {
            0int
        } else {
            1int
        }),
        interned(interned(table, ty), ty) == interned(table, ty),
        interned_index(interned(table, ty), ty) == interned_index(table, ty),
        table.contains(other) ==> interned_index(interned(table, ty), other) == interned_index(
            table,
            other,
        ),
{
    let after = interned(table, ty);
    if table.contains(ty) {
        table.index_of_first_ensures(ty);
    } else {
        assert(after[table.len() as int] == ty);
        assert(after.contains(ty));
        after.index_of_first_ensures(ty);
        assert forall|i: int| 0 <= i < table.len() implies #[trigger] after[i] != ty by {
            assert(table[i] == after[i]);
        }
        if table.contains(other) {
            table.index_of_first_ensures(other);
            let k = table.index_of_first(other).unwrap();
            assert(after[k] == other);
            assert(after.contains(other));
            after.index_of_first_ensures(other);
            let m = after.index_of_first(other).unwrap();
            assert(after[k] == table[k]);
            if m < k {
                assert(after[m] == table[m]);
            }
        }
    }
}

/// The access of a storage space is that of its first entry; without one it can
/// be read and written.
pub proof fn law_storage_access(t: StorageTable, storage: StorageId, i: int)
    ensures
        0 <= i < t.entries@.len() && t.entries@[i].storage == storage && (forall|j: int|
            0 <= j < i ==> (#[trigger] t.entries@[j]).storage != storage) ==> t.declared(storage)
            == Some(t.entries@[i].access) && t.access(storage) == t.entries@[i].access,
        (forall|j: int|
            0 <= j < t.entries@.len() ==> (#[trigger] t.entries@[j]).storage != storage)
            ==> t.declared(storage) is None && t.access(storage) == StorageAccess::ReadWrite,
{
    lemma_first_entry(t.entries@, storage, i);
}

proof fn lemma_first_entry(entries: Seq<StorageEntry>, storage: StorageId, i: int)
    ensures
        0 <= i < entries.len() && entries[i].storage == storage && (forall|j: int|
            0 <= j < i ==> (#[trigger] entries[j]).storage != storage) ==> declared_access(
            entries,
            storage,
        ) == Some(entries[i].access),
        (forall|j: int| 0 <= j < entries.len() ==> (#[trigger] entries[j]).storage != storage)
            ==> declared_access(entries, storage) is None,
    decreases entries.len(),
{
    if entries.len() > 0 {
        let rest = entries.drop_first();
        lemma_first_entry(rest, storage, i - 1);
        assert(entries[0].storage == storage || entries[0].storage != storage);
        assert forall|j: int| 0 <= j < rest.len() implies #[trigger] rest[j] == entries[j + 1] by {}
        if 0 < i < entries.len() {
            assert(rest[i - 1] == entries[i]);
        }
    }
}

/// What a statement defines: a write and a store of action outputs define
/// nothing, a change of type a value of the new type, a call a handle of the
/// type of its result, every other one a value of its own type.
pub proof fn law_defined_type(s: Stmt)
    ensures
        output_type(s@) is None <==> (s is StorageWrite || s is ActionStore),
        s is Transmute ==> output_type(s@) == Some(s->dst_ty),
        s is OracleCall ==> output_type(s@) == Some(s->OracleCall_result_ty),
        s is ActionCall ==> output_type(s@) == Some(s->ActionCall_result_ty),
        s is Const ==> output_type(s@) == Some(s->Const_1),
        s is StorageRead ==> output_type(s@) == Some(s->StorageRead_ty),
        s is Poly ==> output_type(s@) == Some(s->Poly_ty),
        s is Rol ==> output_type(s@) == Some(s->Rol_ty),
        s is Ror ==> output_type(s@) == Some(s->Ror_ty),
        s is Merge ==> output_type(s@) == Some(s->Merge_ty),
        s is Splat ==> output_type(s@) == Some(s->Splat_ty),
        s is Shuffle ==> output_type(s@) == Some(s->Shuffle_ty),
        s is OracleOutput ==> output_type(s@) == Some(s->OracleOutput_ty),
        s is ActionOutput ==> output_type(s@) == Some(s->ActionOutput_ty),
        s is Rng ==> output_type(s@) == Some(s->Rng_ty),
{
}

/// Monomials are in lexicographic order of their variables: the first place at
/// which two differ decides, and a prefix stands before its extensions.
pub proof fn law_monomial_order(a: Seq<IRVarId>, b: Seq<IRVarId>, i: int)
    requires
        0 <= i <= a.len(),
        i <= b.len(),
        forall|j: int| 0 <= j < i ==> #[trigger] a[j] == b[j],
        i < a.len() && i < b.len() ==> a[i] != b[i],
    ensures
        i < a.len() && i < b.len() ==> (vars_less(a, b) <==> a[i].0 < b[i].0),
        i == a.len() && i < b.len() ==> vars_less(a, b),
        i == b.len() ==> !vars_less(a, b),
    decreases i,
{
    if i > 0 {
        let x = a.drop_first();
        let y = b.drop_first();
        assert(a[0] == b[0]);
        assert forall|j: int| 0 <= j < i - 1 implies #[trigger] x[j] == y[j] by {
            assert(a[j + 1] == b[j + 1]);
        }
        law_monomial_order(x, y, i - 1);
    }
}

// ---------------------------------------------------------------------------
// Places
// ---------------------------------------------------------------------------

proof fn lemma_listed<V, S>(vs: Seq<V>, ws: Seq<V>, all: Seq<Slot<V, S>>, at: int)
    requires
        vs.len() == ws.len(),
        0 <= at,
        at + vs.len() <= all.len(),
        forall|i: int| 0 <= i < vs.len() ==> #[trigger] all[at + i] == Slot::<V, S>::Var(vs[i]),
        forall|i: int| 0 <= i < vs.len() ==> #[trigger] all[at + i] == Slot::<V, S>::Var(ws[i]),
    ensures
        vs == ws,
{
    assert forall|i: int| 0 <= i < vs.len() implies vs[i] == ws[i] by {
        assert(all[at + i] == Slot::<V, S>::Var(vs[i]));
    }
    assert(vs =~= ws);
}

/// The places of a statement stand in the order in which it holds them: a guard,
/// arguments, a fallback, a storage space, a written value, an address.
pub proof fn law_places_in_order<V, S>(s: BIrStmt<V, S>)
    ensures
        match s {
            BIrStmt::Zero => stmt_slots(s@).len() == 0,
            BIrStmt::One => stmt_slots(s@).len() == 0,
            BIrStmt::And(a, b) => stmt_slots(s@) == seq![
                Slot::<V, S>::Var(a),
                Slot::<V, S>::Var(b),
            ],
            BIrStmt::Or(a, b) => stmt_slots(s@) == seq![
                Slot::<V, S>::Var(a),
                Slot::<V, S>::Var(b),
            ],
            BIrStmt::Xor(a, b) => stmt_slots(s@) == seq![
                Slot::<V, S>::Var(a),
                Slot::<V, S>::Var(b),
            ],
            BIrStmt::Not(a) => stmt_slots(s@) == seq![Slot::<V, S>::Var(a)],
            BIrStmt::OracleCall { args, .. } => {
                &&& stmt_slots(s@).len() == args@.len()
                &&& forall|i: int|
                    0 <= i < args@.len() ==> #[trigger] stmt_slots(s@)[i] == Slot::<V, S>::Var(
                        args@[i],
                    )
            },
            BIrStmt::OracleBit { args, .. } => {
                &&& stmt_slots(s@).len() == args@.len()
                &&& forall|i: int|
                    0 <= i < args@.len() ==> #[trigger] stmt_slots(s@)[i] == Slot::<V, S>::Var(
                        args@[i],
                    )
            },
            BIrStmt::OracleProjectedBit { call, .. } => stmt_slots(s@) == seq![
                Slot::<V, S>::Var(call),
            ],
            BIrStmt::ActionCall { guard, args, fallback, .. } => {
                &&& stmt_slots(s@).len() == 1 + args@.len() + fallback@.len()
                &&& stmt_slots(s@)[0] == Slot::<V, S>::Var(guard)
                &&& forall|i: int|
                    0 <= i < args@.len() ==> stmt_slots(s@)[1 + i] == Slot::<V, S>::Var(
                        #[trigger] args@[i],
                    )
                &&& forall|i: int|
                    0 <= i < fallback@.len() ==> stmt_slots(s@)[1 + args@.len() + i] == Slot::<
                        V,
                        S,
                    >::Var(#[trigger] fallback@[i])
            },
            BIrStmt::ActionBit { call, .. } => stmt_slots(s@) == seq![Slot::<V, S>::Var(call)],
            BIrStmt::ActionStoreBit { guard, args, fallback, storage, addr, .. } => {
                &&& stmt_slots(s@).len() == 3 + args@.len() + addr@.len()
                &&& stmt_slots(s@)[0] == Slot::<V, S>::Var(guard)
                &&& forall|i: int|
                    0 <= i < args@.len() ==> stmt_slots(s@)[1 + i] == Slot::<V, S>::Var(
                        #[trigger] args@[i],
                    )
                &&& stmt_slots(s@)[1 + args@.len() as int] == Slot::<V, S>::Var(fallback)
                &&& stmt_slots(s@)[2 + args@.len() as int] == Slot::<V, S>::Stor(storage)
                &&& forall|i: int|
                    0 <= i < addr@.len() ==> stmt_slots(s@)[3 + args@.len() + i] == Slot::<
                        V,
                        S,
                    >::Var(#[trigger] addr@[i])
            },
            BIrStmt::Rng { .. } => stmt_slots(s@).len() == 0,
            BIrStmt::RngBit { .. } => stmt_slots(s@).len() == 0,
            BIrStmt::StorageRead { storage, addr, .. } => {
                &&& stmt_slots(s@).len() == 1 + addr@.len()
                &&& stmt_slots(s@)[0] == Slot::<V, S>::Stor(storage)
                &&& forall|i: int|
                    0 <= i < addr@.len() ==> stmt_slots(s@)[1 + i] == Slot::<V, S>::Var(
                        #[trigger] addr@[i],
                    )
            },
            BIrStmt::StorageWrite { storage, src, addr, .. } => {
                &&& stmt_slots(s@).len() == 2 + addr@.len()
                &&& stmt_slots(s@)[0] == Slot::<V, S>::Stor(storage)
                &&& stmt_slots(s@)[1] == Slot::<V, S>::Var(src)
                &&& forall|i: int|
                    0 <= i < addr@.len() ==> stmt_slots(s@)[2 + i] == Slot::<V, S>::Var(
                        #[trigger] addr@[i],
                    )
            },
        },
{
}

/// A statement is what it is like and what stands in its places: two that agree
/// in both are equal.
pub proof fn law_places_determine_statement<V, S>(a: BIrStmtView<V, S>, b: BIrStmtView<V, S>)
    requires
        same_stmt(a, b),
        stmt_slots(a) == stmt_slots(b),
    ensures
        a == b,
{
    let all = stmt_slots(a);
    match (a, b) {
        (BIrStmtView::And(x, y), BIrStmtView::And(v, w)) => {
            assert(all[0] == Slot::<V, S>::Var(x) && all[0] == Slot::<V, S>::Var(v));
            assert(all[1] == Slot::<V, S>::Var(y) && all[1] == Slot::<V, S>::Var(w));
        },
        (BIrStmtView::Or(x, y), BIrStmtView::Or(v, w)) => {
            assert(all[0] == Slot::<V, S>::Var(x) && all[0] == Slot::<V, S>::Var(v));
            assert(all[1] == Slot::<V, S>::Var(y) && all[1] == Slot::<V, S>::Var(w));
        },
        (BIrStmtView::Xor(x, y), BIrStmtView::Xor(v, w)) => {
            assert(all[0] == Slot::<V, S>::Var(x) && all[0] == Slot::<V, S>::Var(v));
            assert(all[1] == Slot::<V, S>::Var(y) && all[1] == Slot::<V, S>::Var(w));
        },
        (BIrStmtView::Not(x), BIrStmtView::Not(v)) => {
            assert(all[0] == Slot::<V, S>::Var(x) && all[0] == Slot::<V, S>::Var(v));
        },
        (BIrStmtView::OracleCall { args: x, .. }, BIrStmtView::OracleCall { args: v, .. }) => {
            lemma_listed(x, v, all, 0);
        },
        (BIrStmtView::OracleBit { args: x, .. }, BIrStmtView::OracleBit { args: v, .. }) => {
            lemma_listed(x, v, all, 0);
        },
        (
            BIrStmtView::OracleProjectedBit { call: x, .. },
            BIrStmtView::OracleProjectedBit { call: v, .. },
        ) => {
            assert(all[0] == Slot::<V, S>::Var(x) && all[0] == Slot::<V, S>::Var(v));
        },
        (
            BIrStmtView::ActionCall { guard: x, args: y, fallback: z, .. },
            BIrStmtView::ActionCall { guard: u, args: v, fallback: w, .. },
        ) => {
            assert(all[0] == Slot::<V, S>::Var(x) && all[0] == Slot::<V, S>::Var(u));
            lemma_listed(y, v, all, 1);
            lemma_listed(z, w, all, 1 + y.len() as int);
        },
        (BIrStmtView::ActionBit { call: x, .. }, BIrStmtView::ActionBit { call: v, .. }) => {
            assert(all[0] == Slot::<V, S>::Var(x) && all[0] == Slot::<V, S>::Var(v));
        },
        (
            BIrStmtView::ActionStoreBit { guard: x, args: y, fallback: z, storage: s, addr: p, .. },
            BIrStmtView::ActionStoreBit { guard: u, args: v, fallback: w, storage: t, addr: q, .. },
        ) => {
            assert(all[0] == Slot::<V, S>::Var(x) && all[0] == Slot::<V, S>::Var(u));
            lemma_listed(y, v, all, 1);
            let n = y.len() as int;
            assert(all[1 + n] == Slot::<V, S>::Var(z) && all[1 + n] == Slot::<V, S>::Var(w));
            assert(all[2 + n] == Slot::<V, S>::Stor(s) && all[2 + n] == Slot::<V, S>::Stor(t));
            lemma_listed(p, q, all, 3 + n);
        },
        (
            BIrStmtView::StorageRead { storage: s, addr: p, .. },
            BIrStmtView::StorageRead { storage: t, addr: q, .. },
        ) => {
            assert(all[0] == Slot::<V, S>::Stor(s) && all[0] == Slot::<V, S>::Stor(t));
            lemma_listed(p, q, all, 1);
        },
        (
            BIrStmtView::StorageWrite { storage: s, src: x, addr: p, .. },
            BIrStmtView::StorageWrite { storage: t, src: v, addr: q, .. },
        ) => {
            assert(all[0] == Slot::<V, S>::Stor(s) && all[0] == Slot::<V, S>::Stor(t));
            assert(all[1] == Slot::<V, S>::Var(x) && all[1] == Slot::<V, S>::Var(v));
            lemma_listed(p, q, all, 2);
        },
        _ => {},
    }
}

/// A jump is where it goes, what it hands on and its hint: two that agree but
/// for their variables, and in these, are equal.
pub proof fn law_variables_determine_jump<V>(
    d: IRBlockTargetId<V>,
    e: IRBlockTargetId<V>,
    a: BranchView<V>,
    b: BranchView<V>,
    s: BIrTargetView<V>,
    t: BIrTargetView<V>,
)
    ensures
        same_dest(d, e) && dest_vars(d) == dest_vars(e) ==> d == e,
        same_branch(a, b) && branch_vars(a) == branch_vars(b) ==> a == b,
        same_target(s, t) && target_vars(s) == target_vars(t) ==> s == t,
{
    if same_dest(d, e) && dest_vars(d) == dest_vars(e) {
        lemma_dest(d, e);
    }
    if same_branch(a, b) && branch_vars(a) == branch_vars(b) {
        lemma_two(dest_vars(a.dest), dest_vars(b.dest), a.args, b.args);
        lemma_dest(a.dest, b.dest);
    }
    if same_target(s, t) && target_vars(s) == target_vars(t) {
        lemma_two(dest_vars(s.block), dest_vars(t.block), s.args, t.args);
        lemma_dest(s.block, t.block);
    }
}

proof fn lemma_dest<V>(d: IRBlockTargetId<V>, e: IRBlockTargetId<V>)
    requires
        same_dest(d, e),
        dest_vars(d) == dest_vars(e),
    ensures
        d == e,
{
    match (d, e) {
        (IRBlockTargetId::Dyn(v), IRBlockTargetId::Dyn(w)) => {
            assert(seq![v][0] == v);
            assert(seq![w][0] == w);
            assert(dest_vars(d) == seq![v]);
            assert(dest_vars(e) == seq![w]);
        },
        (IRBlockTargetId::Block(x), IRBlockTargetId::Block(y)) => {
            assert(x == y);
        },
        _ => {},
    }
}

proof fn lemma_two<V>(a: Seq<V>, b: Seq<V>, c: Seq<V>, d: Seq<V>)
    requires
        c.len() == d.len(),
        a + c == b + d,
    ensures
        a == b,
        c == d,
{
    assert((a + c).len() == (b + d).len());
    assert(a =~= (a + c).take(a.len() as int));
    assert(b =~= (b + d).take(b.len() as int));
    assert(c =~= (a + c).skip(a.len() as int));
    assert(d =~= (b + d).skip(b.len() as int));
}

proof fn lemma_same_count<V>(a: BranchView<V>, b: BranchView<V>)
    requires
        same_branch(a, b),
    ensures
        branch_vars(a).len() == branch_vars(b).len(),
{
}

proof fn lemma_cases<V>(a: Seq<(Constant, BranchView<V>)>, b: Seq<(Constant, BranchView<V>)>)
    requires
        same_cases(a, b),
        cases_vars(a) == cases_vars(b),
    ensures
        a == b,
    decreases a.len(),
{
    if a.len() == 0 {
        assert(a =~= b);
    } else {
        let x = a.last();
        let y = b.last();
        assert(a[a.len() - 1].0 == b[a.len() - 1].0);
        lemma_same_count(x.1, y.1);
        lemma_two(
            cases_vars(a.drop_last()),
            cases_vars(b.drop_last()),
            branch_vars(x.1),
            branch_vars(y.1),
        );
        assert forall|k: int| 0 <= k < a.len() - 1 implies (#[trigger] a.drop_last()[k]).0
            == b.drop_last()[k].0 && same_branch(a.drop_last()[k].1, b.drop_last()[k].1) by {
            assert(a[k].0 == b[k].0);
        }
        lemma_cases(a.drop_last(), b.drop_last());
        law_variables_determine_jump(
            x.1.dest,
            y.1.dest,
            x.1,
            y.1,
            BIrTargetView { block: x.1.dest, args: x.1.args },
            BIrTargetView { block: y.1.dest, args: y.1.args },
        );
        assert(a =~= a.drop_last().push(x));
        assert(b =~= b.drop_last().push(y));
    }
}

/// The end of a typed block is what it is like and its variables: two that agree
/// in both are equal.
pub proof fn law_variables_determine_end<V>(a: TermView<V>, b: TermView<V>)
    requires
        same_end(a, b),
        end_vars(a) == end_vars(b),
    ensures
        a == b,
{
    match (a, b) {
        (TermView::Jmp { target: s }, TermView::Jmp { target: t }) => {
            lemma_branch(s, t);
        },
        (
            TermView::JumpCond { condition: c, then_target: s, else_target: x },
            TermView::JumpCond { condition: d, then_target: t, else_target: y },
        ) => {
            lemma_same_count(s, t);
            lemma_same_count(x, y);
            lemma_two(
                seq![c],
                seq![d],
                branch_vars(s) + branch_vars(x),
                branch_vars(t) + branch_vars(y),
            );
            assert(seq![c][0] == seq![d][0]);
            lemma_two(branch_vars(s), branch_vars(t), branch_vars(x), branch_vars(y));
            lemma_branch(s, t);
            lemma_branch(x, y);
        },
        (
            TermView::JumpTable { index: c, cases: x },
            TermView::JumpTable { index: d, cases: y },
        ) => {
            lemma_case_count(x, y);
            lemma_two(seq![c], seq![d], cases_vars(x), cases_vars(y));
            assert(seq![c][0] == seq![d][0]);
            lemma_cases(x, y);
        },
        _ => {},
    }
}

proof fn lemma_branch<V>(s: BranchView<V>, t: BranchView<V>)
    requires
        same_branch(s, t),
        branch_vars(s) == branch_vars(t),
    ensures
        s == t,
{
    law_variables_determine_jump(
        s.dest,
        t.dest,
        s,
        t,
        BIrTargetView { block: s.dest, args: s.args },
        BIrTargetView { block: t.dest, args: t.args },
    );
}

proof fn lemma_case_count<V>(a: Seq<(Constant, BranchView<V>)>, b: Seq<(Constant, BranchView<V>)>)
    requires
        same_cases(a, b),
    ensures
        cases_vars(a).len() == cases_vars(b).len(),
    decreases a.len(),
{
    if a.len() > 0 {
        assert(a[a.len() - 1].0 == b[a.len() - 1].0);
        lemma_same_count(a.last().1, b.last().1);
        assert forall|k: int| 0 <= k < a.len() - 1 implies (#[trigger] a.drop_last()[k]).0
            == b.drop_last()[k].0 && same_branch(a.drop_last()[k].1, b.drop_last()[k].1) by {
            assert(a[k].0 == b[k].0);
        }
        lemma_case_count(a.drop_last(), b.drop_last());
    }
}

/// So is the end of a boolean block.
pub proof fn law_variables_determine_bir_end<V>(a: BIrTermView<V>, b: BIrTermView<V>)
    requires
        same_bir_end(a, b),
        bir_end_vars(a) == bir_end_vars(b),
    ensures
        a == b,
{
    match (a, b) {
        (BIrTermView::Jmp(s), BIrTermView::Jmp(t)) => {
            lemma_two(dest_vars(s.block), dest_vars(t.block), s.args, t.args);
            lemma_dest(s.block, t.block);
        },
        (
            BIrTermView::CondJmp { val: c, then_target: s, else_target: x },
            BIrTermView::CondJmp { val: d, then_target: t, else_target: y },
        ) => {
            lemma_two(
                seq![c],
                seq![d],
                target_vars(s) + target_vars(x),
                target_vars(t) + target_vars(y),
            );
            assert(seq![c][0] == seq![d][0]);
            lemma_two(target_vars(s), target_vars(t), target_vars(x), target_vars(y));
            lemma_two(dest_vars(s.block), dest_vars(t.block), s.args, t.args);
            lemma_two(dest_vars(x.block), dest_vars(y.block), x.args, y.args);
            lemma_dest(s.block, t.block);
            lemma_dest(x.block, y.block);
        },
        _ => {},
    }
}

/// The variables of an end stand in order: what decides, then the first
/// destination and what it is handed, then the second.
pub proof fn law_variables_in_order<V>(t: IRTerminator<V>, u: BIrTerminator<V>)
    ensures
        match t {
            IRTerminator::Jmp { target } => end_vars(t@) == dest_vars(target.dest) + target.args@,
            IRTerminator::JumpCond { condition, then_target, else_target } => end_vars(t@)
                == seq![condition] + dest_vars(then_target.dest) + then_target.args@ + dest_vars(
                else_target.dest,
            ) + else_target.args@,
            IRTerminator::JumpTable { index, cases } => end_vars(t@).len() > 0 && end_vars(t@)[0]
                == index,
        },
        match u {
            BIrTerminator::Jmp(to) => bir_end_vars(u@) == dest_vars(to.block) + to.args@,
            BIrTerminator::CondJmp { val, then_target, else_target } => bir_end_vars(u@)
                == seq![val]
                + dest_vars(then_target.block) + then_target.args@ + dest_vars(else_target.block)
                + else_target.args@,
        },
{
    if let IRTerminator::JumpCond { condition, then_target, else_target } = t {
        assert(end_vars(t@) =~= seq![condition] + dest_vars(then_target.dest) + then_target.args@
            + dest_vars(else_target.dest) + else_target.args@);
    }
    if let BIrTerminator::CondJmp { val, then_target, else_target } = u {
        assert(bir_end_vars(u@) =~= seq![val] + dest_vars(then_target.block) + then_target.args@
            + dest_vars(else_target.block) + else_target.args@);
    }
}

// ---------------------------------------------------------------------------
// What values denote
// ---------------------------------------------------------------------------

/// A jump denotes where it goes, what it hands on and its hint; two of them
/// denote the same only if they agree in all three.
pub proof fn law_jump_denotes(a: IRBranchTarget, b: IRBranchTarget, c: BIrTarget)
    ensures
        a@.dest == a.dest,
        a@.args == a.args@,
        match a.reentry {
            Some(h) => a@.reentry == Some(h.measures@),
            None => a@.reentry is None,
        },
        a@ == b@ ==> a.dest == b.dest && a.args@ == b.args@ && (a.reentry is Some
            <==> b.reentry is Some),
        c@.block == c.block,
        c@.args == c.args@,
{
}

/// The end of a block denotes its kind, what decides and its jumps.
pub proof fn law_end_denotes(t: IRTerminator, u: BIrTerminator)
    ensures
        match t {
            IRTerminator::Jmp { target } => t@ == (TermView::Jmp { target: target@ }),
            IRTerminator::JumpCond { condition, then_target, else_target } => t@ == (
            TermView::JumpCond {
                condition,
                then_target: then_target@,
                else_target: else_target@,
            }),
            IRTerminator::JumpTable { index, cases } => match t@ {
                TermView::JumpTable { index: i, cases: k } => {
                    &&& i == index
                    &&& k.len() == cases@.len()
                    &&& forall|j: int|
                        0 <= j < k.len() ==> #[trigger] k[j] == (cases@[j].0, cases@[j].1@)
                },
                _ => false,
            },
        },
        match u {
            BIrTerminator::Jmp(to) => u@ == BIrTermView::Jmp(to@),
            BIrTerminator::CondJmp { val, then_target, else_target } => u@ == (
            BIrTermView::CondJmp { val, then_target: then_target@, else_target: else_target@ }),
        },
{
}

/// A typed program denotes its declarations, its blocks without annotations and
/// its initial storage.
pub proof fn law_program_denotes<P>(m: IRBlocks<P>, i: int, j: int)
    ensures
        m@.oracles.len() == m.oracles@.len(),
        m@.actions.len() == m.actions@.len(),
        m@.rngs.len() == m.rngs@.len(),
        m@.blocks.len() == m.blocks@.len(),
        m@.pre_init.len() == m.pre_init@.len(),
        0 <= i < m.oracles@.len() ==> m@.oracles[i].name == m.oracles@[i].name@
            && m@.oracles[i].params == m.oracles@[i].params@ && m@.oracles[i].results
            == m.oracles@[i].results@,
        0 <= i < m.actions@.len() ==> m@.actions[i].name == m.actions@[i].name@
            && m@.actions[i].params == m.actions@[i].params@ && m@.actions[i].results
            == m.actions@[i].results@,
        0 <= i < m.rngs@.len() ==> m@.rngs[i].name == m.rngs@[i].name@ && m@.rngs[i].ty
            == m.rngs@[i].ty,
        0 <= i < m.pre_init@.len() ==> m@.pre_init[i].storage == m.pre_init@[i].storage
            && m@.pre_init[i].ty == m.pre_init@[i].ty && m@.pre_init[i].offset
            == m.pre_init@[i].offset && m@.pre_init[i].data == m.pre_init@[i].data@,
        0 <= i < m.blocks@.len() ==> {
            let b = m.blocks@[i];
            &&& m@.blocks[i].params == b.params@
            &&& m@.blocks[i].stmts.len() == b.stmts@.len()
            &&& m@.blocks[i].terminator == b.terminator@
            &&& 0 <= j < b.stmts@.len() ==> m@.blocks[i].stmts[j] == b.stmts@[j].kind@
            &&& m@.blocks[i].var_space() == b.params@.len() + b.stmts@.len()
        },
{
}

/// So does a boolean program.
pub proof fn law_bir_program_denotes<P>(m: BIrBlocks<P>, i: int, j: int)
    ensures
        m@.blocks.len() == m.blocks@.len(),
        m@.pre_init.len() == m.pre_init@.len(),
        0 <= i < m.pre_init@.len() ==> m@.pre_init[i].storage == m.pre_init@[i].storage
            && m@.pre_init[i].lane == m.pre_init@[i].lane && m@.pre_init[i].offset
            == m.pre_init@[i].offset && m@.pre_init[i].data == m.pre_init@[i].data@,
        0 <= i < m.blocks@.len() ==> {
            let b = m.blocks@[i];
            &&& m@.blocks[i].params == b.params
            &&& m@.blocks[i].stmts.len() == b.stmts@.len()
            &&& m@.blocks[i].terminator == b.terminator@
            &&& 0 <= j < b.stmts@.len() ==> m@.blocks[i].stmts[j] == b.stmts@[j].kind@
            &&& m@.blocks[i].var_space() == b.params + b.stmts@.len()
        },
{
}

} // verus!
