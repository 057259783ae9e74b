//! How typed programs run, and what renaming their variables keeps.

use vstd::arithmetic::power2::pow2;
use vstd::prelude::*;

use crate::common::{Constant, PreInitView, StorageId};
use crate::ir::{
    vars_order, BranchView, IRBlockId, IRBlockTargetId, IRBlockView, IRBlocksView, IRTypeId,
    IRVarId, StmtView, TermView,
};
use crate::sorted::{
    assoc_get, assoc_insert, assoc_remove, assoc_sorted, law_assoc_insert_sorted, strict_order,
};
use crate::virt::canon::zero_constant;
use crate::virt::emit::xor_terms;
use crate::virt::regs::{arms, var_types};
use crate::virt::remap::{
    add_term, renamed_bits, renamed_stmt, renamed_terms, renamed_var, renamed_vars, sorted_vars,
    stmt_mapped, terms_mapped, var_le, var_mapped, vars_mapped,
};
use crate::virt::schema::{constant_of, constant_of_bit};

verus! {

// ---------------------------------------------------------------------------
// Running
// ---------------------------------------------------------------------------

/// What a running program changes: the stored values and the world outside.
#[verifier::reject_recursive_types(V)]
pub struct IrState<V, W> {
    pub cells: spec_fn(StorageId, IRTypeId, nat) -> V,
    pub world: W,
}

/// How a machine computes on values of type `V` in a world of type `W`.
#[verifier::reject_recursive_types(V)]
#[verifier::reject_recursive_types(W)]
pub struct Machine<V, W> {
    /// The value of a constant.
    pub constant: spec_fn(Constant, IRTypeId) -> V,
    /// The sum of two values.
    pub plus: spec_fn(IRTypeId, V, V) -> V,
    /// The product of two values.
    pub times: spec_fn(IRTypeId, V, V) -> V,
    /// The product of no values.
    pub one: spec_fn(IRTypeId) -> V,
    /// A value with a coefficient.
    pub scaled: spec_fn(IRTypeId, u8, V) -> V,
    /// A value of one type as one of another.
    pub transmute: spec_fn(IRTypeId, IRTypeId, V) -> V,
    /// The number that a value denotes: as a cell, a case, a truth value or a
    /// block.
    pub number: spec_fn(V) -> nat,
    /// The handle of an oracle call. Oracles are pure.
    pub oracle: spec_fn(Seq<char>, Seq<V>) -> V,
    /// What a statement without a value gives.
    pub unit: V,
    /// What any other statement gives on the given values, and the world behind
    /// it.
    pub other: spec_fn(StmtView, Seq<V>, W) -> (V, W),
}

/// The value of a variable.
pub open spec fn at<V>(v: IRVarId, env: Seq<V>) -> V {
    env[v.0 as int]
}

/// The values of variables.
pub open spec fn at_all<V>(vs: Seq<IRVarId>, env: Seq<V>) -> Seq<V> {
    vs.map_values(|v: IRVarId| at(v, env))
}

/// The product of some values, if there are any.
pub open spec fn product_of<V, W>(m: Machine<V, W>, ty: IRTypeId, vs: Seq<V>) -> Option<V> {
    vs.fold_left(None, times_next(m, ty))
}

/// One more factor.
pub open spec fn times_next<V, W>(m: Machine<V, W>, ty: IRTypeId) -> spec_fn(Option<V>, V) -> Option<
    V,
> {
    |a: Option<V>, x: V|
        match a {
            Some(y) => Some((m.times)(ty, y, x)),
            None => Some(x),
        }
}

/// A monomial.
pub open spec fn term<V, W>(m: Machine<V, W>, ty: IRTypeId, vs: Seq<V>, coeff: u8) -> V {
    (m.scaled)(
        ty,
        coeff,
        match product_of(m, ty, vs) {
            Some(x) => x,
            None => (m.one)(ty),
        },
    )
}

/// The value of zero.
pub open spec fn zero<V, W>(m: Machine<V, W>, ty: IRTypeId) -> V {
    (m.constant)(zero_constant(), ty)
}

/// The sum of monomials.
pub open spec fn sum<V, W>(
    m: Machine<V, W>,
    ty: IRTypeId,
    terms: Seq<(Seq<IRVarId>, u8)>,
    env: Seq<V>,
) -> V
    decreases terms.len(),
{
    if terms.len() == 0 {
        zero(m, ty)
    } else {
        (m.plus)(
            ty,
            term(m, ty, at_all(terms[0].0, env), terms[0].1),
            sum(m, ty, terms.drop_first(), env),
        )
    }
}

/// As many variables as in a list, all the same.
pub open spec fn blank(vs: Seq<IRVarId>) -> Seq<IRVarId> {
    Seq::new(vs.len(), |i: int| IRVarId(0))
}

/// A statement without its variables.
pub open spec fn shape(s: StmtView) -> StmtView {
    match s {
        StmtView::Rol { ty, n, .. } => StmtView::Rol { src: IRVarId(0), ty, n },
        StmtView::Ror { ty, n, .. } => StmtView::Ror { src: IRVarId(0), ty, n },
        StmtView::Merge { parts, ty } => StmtView::Merge { parts: blank(parts), ty },
        StmtView::Splat { ty, .. } => StmtView::Splat { src: IRVarId(0), ty },
        StmtView::Shuffle { result_bits, ty } => StmtView::Shuffle {
            result_bits: result_bits.map_values(|b: (u8, IRVarId)| (b.0, IRVarId(0))),
            ty,
        },
        StmtView::OracleOutput { idx, ty, .. } => StmtView::OracleOutput {
            call: IRVarId(0),
            idx,
            ty,
        },
        StmtView::ActionCall { name, args, fallbacks, output_tys, result_ty, .. } => StmtView::ActionCall {
            name,
            guard: IRVarId(0),
            args: blank(args),
            fallbacks: blank(fallbacks),
            output_tys,
            result_ty,
        },
        StmtView::ActionOutput { idx, ty, .. } => StmtView::ActionOutput {
            call: IRVarId(0),
            idx,
            ty,
        },
        _ => s,
    }
}

/// The variables of a statement, in order.
pub open spec fn operands(s: StmtView) -> Seq<IRVarId> {
    match s {
        StmtView::Rol { src, .. } => seq![src],
        StmtView::Ror { src, .. } => seq![src],
        StmtView::Merge { parts, .. } => parts,
        StmtView::Splat { src, .. } => seq![src],
        StmtView::Shuffle { result_bits, .. } => result_bits.map_values(|b: (u8, IRVarId)| b.1),
        StmtView::OracleOutput { call, .. } => seq![call],
        StmtView::ActionCall { guard, args, fallbacks, .. } => seq![guard] + args + fallbacks,
        StmtView::ActionOutput { call, .. } => seq![call],
        _ => Seq::empty(),
    }
}

/// The cells with one changed.
pub open spec fn stored<V>(
    cells: spec_fn(StorageId, IRTypeId, nat) -> V,
    s: StorageId,
    ty: IRTypeId,
    a: nat,
    v: V,
) -> spec_fn(StorageId, IRTypeId, nat) -> V {
    |s2: StorageId, ty2: IRTypeId, a2: nat|
        if s2 == s && ty2 == ty && a2 == a {
            v
        } else {
            cells(s2, ty2, a2)
        }
}

/// What a statement gives and changes. Action stores, which no virtual program
/// has, are not described.
pub open spec fn act<V, W>(m: Machine<V, W>, s: StmtView, env: Seq<V>, st: IrState<V, W>) -> (
    V,
    IrState<V, W>,
) {
    match s {
        StmtView::Const(c, ty) => ((m.constant)(c, ty), st),
        StmtView::StorageRead { storage, ty, addr } => (
            (st.cells)(storage, ty, (m.number)(at(addr, env))),
            st,
        ),
        StmtView::StorageWrite { storage, src, ty, addr } => (
            m.unit,
            IrState {
                cells: stored(st.cells, storage, ty, (m.number)(at(addr, env)), at(src, env)),
                ..st
            },
        ),
        StmtView::Transmute { src, src_ty, dst_ty } => (
            (m.transmute)(src_ty, dst_ty, at(src, env)),
            st,
        ),
        StmtView::Poly { ty, coeffs, constant } => (
            (m.plus)(ty, sum(m, ty, coeffs, env), (m.constant)(constant, ty)),
            st,
        ),
        StmtView::OracleCall { name, args, .. } => ((m.oracle)(name, at_all(args, env)), st),
        _ => {
            let (v, world) = (m.other)(shape(s), at_all(operands(s), env), st.world);
            (v, IrState { world, ..st })
        },
    }
}

/// Run statements, one after the other.
pub open spec fn run_stmts<V, W>(
    m: Machine<V, W>,
    ss: Seq<StmtView>,
    env: Seq<V>,
    st: IrState<V, W>,
) -> (Seq<V>, IrState<V, W>)
    decreases ss.len(),
{
    if ss.len() == 0 {
        (env, st)
    } else {
        let (e, s) = run_stmts(m, ss.drop_last(), env, st);
        let (v, s2) = act(m, ss.last(), e, s);
        (e.push(v), s2)
    }
}

/// How a block is left.
#[verifier::ext_equal]
pub enum Exit<V> {
    Return(Seq<V>),
    Block(IRBlockId, Seq<V>),
    /// To the block of a number, with values of the given types.
    Dynamic(nat, Seq<IRTypeId>, Seq<V>),
    /// No case matches.
    Nowhere,
}

/// Where a branch goes, and what it hands on.
pub open spec fn follow<V, W>(
    m: Machine<V, W>,
    b: IRBlockView,
    t: BranchView,
    env: Seq<V>,
) -> Exit<V> {
    match t.dest {
        IRBlockTargetId::Return => Exit::Return(at_all(t.args, env)),
        IRBlockTargetId::Block(i) => Exit::Block(i, at_all(t.args, env)),
        IRBlockTargetId::Dyn(v) => Exit::Dynamic(
            (m.number)(at(v, env)),
            var_types(b, t.args),
            at_all(t.args, env),
        ),
    }
}

/// The number of a constant.
pub open spec fn constant_number(c: Constant) -> nat {
    c.hi as nat * pow2(128) + c.lo as nat
}

/// The first case for a number, if there is one.
pub open spec fn case_of(cases: Seq<(Constant, BranchView)>, n: nat) -> Option<int>
    decreases cases.len(),
{
    if cases.len() == 0 {
        None
    } else {
        match case_of(cases.drop_last(), n) {
            Some(a) => Some(a),
            None => if constant_number(cases.last().0) == n {
                Some(cases.len() - 1)
            } else {
                None
            },
        }
    }
}

/// The branch that a terminator takes, if there is one.
pub open spec fn taken<V, W>(m: Machine<V, W>, t: TermView, env: Seq<V>) -> Option<int> {
    match t {
        TermView::Jmp { .. } => Some(0),
        TermView::JumpCond { condition, .. } => if (m.number)(at(condition, env)) != 0 {
            Some(0)
        } else {
            Some(1)
        },
        TermView::JumpTable { index, cases } => case_of(cases, (m.number)(at(index, env))),
    }
}

/// How a block ends.
pub open spec fn leave<V, W>(m: Machine<V, W>, b: IRBlockView, env: Seq<V>) -> Exit<V> {
    match taken(m, b.terminator, env) {
        Some(a) => follow(m, b, arms(b.terminator)[a], env),
        None => Exit::Nowhere,
    }
}

/// Run a block.
pub open spec fn run_block<V, W>(
    m: Machine<V, W>,
    b: IRBlockView,
    args: Seq<V>,
    st: IrState<V, W>,
) -> (Exit<V>, IrState<V, W>) {
    let (env, s) = run_stmts(m, b.stmts, args, st);
    (leave(m, b, env), s)
}

/// What a program returns from block `i` on, and the state behind it, if it
/// returns within `fuel` blocks. A dynamic jump reaches a block that takes
/// values of the types that it hands over.
pub open spec fn run<V, W>(
    m: Machine<V, W>,
    blocks: Seq<IRBlockView>,
    i: int,
    args: Seq<V>,
    st: IrState<V, W>,
    fuel: nat,
) -> Option<(Seq<V>, IrState<V, W>)>
    decreases fuel,
{
    if fuel == 0 || !(0 <= i < blocks.len()) {
        None
    } else {
        let (exit, s) = run_block(m, blocks[i], args, st);
        match exit {
            Exit::Return(vals) => Some((vals, s)),
            Exit::Block(b, next) => run(m, blocks, b.0 as int, next, s, (fuel - 1) as nat),
            Exit::Dynamic(n, tys, next) => if n < blocks.len() && blocks[n as int].params == tys {
                run(m, blocks, n as int, next, s, (fuel - 1) as nat)
            } else {
                None
            },
            Exit::Nowhere => None,
        }
    }
}

/// The value that a cell holds at the start.
pub open spec fn initial_cell<V, W>(
    m: Machine<V, W>,
    segs: Seq<PreInitView>,
    s: StorageId,
    ty: IRTypeId,
    a: nat,
) -> V
    decreases segs.len(),
{
    if segs.len() == 0 {
        zero(m, ty)
    } else {
        let x = segs.last();
        if x.storage == s && x.ty == ty && x.offset <= a < x.offset + x.data.len() {
            (m.constant)(x.data[a - x.offset], ty)
        } else {
            initial_cell(m, segs.drop_last(), s, ty, a)
        }
    }
}

/// The stored values at the start.
pub open spec fn initial_cells<V, W>(m: Machine<V, W>, segs: Seq<PreInitView>) -> spec_fn(
    StorageId,
    IRTypeId,
    nat,
) -> V {
    |s: StorageId, ty: IRTypeId, a: nat| initial_cell(m, segs, s, ty, a)
}

/// What a program returns for some inputs, and the world behind it, if it
/// returns within `fuel` blocks.
pub open spec fn results<V, W>(
    m: Machine<V, W>,
    prog: IRBlocksView,
    inputs: Seq<V>,
    world: W,
    fuel: nat,
) -> Option<(Seq<V>, W)> {
    match run(
        m,
        prog.blocks,
        0,
        inputs,
        IrState { cells: initial_cells(m, prog.pre_init), world },
        fuel,
    ) {
        Some((vals, st)) => Some((vals, st.world)),
        None => None,
    }
}

// ---------------------------------------------------------------------------
// Lawful machines
// ---------------------------------------------------------------------------

/// What holds of sums and products: both are commutative and associative, zero
/// is neutral, and coefficients add by exclusive or.
#[verifier::opaque]
pub open spec fn adds_up<V, W>(m: Machine<V, W>) -> bool {
    &&& forall|ty: IRTypeId, a: V, b: V| #[trigger] (m.plus)(ty, a, b) == (m.plus)(ty, b, a)
    &&& forall|ty: IRTypeId, a: V, b: V, c: V| #[trigger]
        (m.plus)(ty, (m.plus)(ty, a, b), c) == (m.plus)(ty, a, (m.plus)(ty, b, c))
    &&& forall|ty: IRTypeId, a: V| #[trigger] (m.plus)(ty, zero(m, ty), a) == a
    &&& forall|ty: IRTypeId, a: V, b: V| #[trigger] (m.times)(ty, a, b) == (m.times)(ty, b, a)
    &&& forall|ty: IRTypeId, a: V, b: V, c: V| #[trigger]
        (m.times)(ty, (m.times)(ty, a, b), c) == (m.times)(ty, a, (m.times)(ty, b, c))
    &&& forall|ty: IRTypeId, x: u8, y: u8, a: V| #[trigger]
        (m.plus)(ty, (m.scaled)(ty, x, a), (m.scaled)(ty, y, a)) == (m.scaled)(ty, x ^ y, a)
    &&& forall|ty: IRTypeId, a: V| #[trigger] (m.scaled)(ty, 0, a) == zero(m, ty)
    &&& forall|ty: IRTypeId, a: V| #[trigger] (m.scaled)(ty, 1, a) == a
}

/// What holds of numbers: constants of addresses and bits denote what they
/// are, and a value keeps its number as an address.
pub open spec fn numbers<V, W>(m: Machine<V, W>, addr_ty: IRTypeId, bit_ty: IRTypeId) -> bool {
    &&& forall|x: u32| #[trigger] (m.number)((m.constant)(constant_of(x), addr_ty)) == x
    &&& forall|b: bool| #[trigger]
        (m.number)((m.constant)(constant_of_bit(b), bit_ty)) == (if b {
            1nat
        } else {
            0
        })
    &&& forall|ty: IRTypeId, a: V| #[trigger]
        (m.number)((m.transmute)(ty, addr_ty, a)) == (m.number)(a)
}

/// Summands change places.
pub proof fn lemma_swap<V, W>(m: Machine<V, W>, ty: IRTypeId, x: V, y: V, z: V)
    requires
        adds_up(m),
    ensures
        (m.plus)(ty, x, (m.plus)(ty, y, z)) == (m.plus)(ty, y, (m.plus)(ty, x, z)),
{
    reveal(adds_up);
    assert((m.plus)(ty, (m.plus)(ty, x, y), z) == (m.plus)(ty, x, (m.plus)(ty, y, z)));
    assert((m.plus)(ty, (m.plus)(ty, y, x), z) == (m.plus)(ty, y, (m.plus)(ty, x, z)));
    assert((m.plus)(ty, x, y) == (m.plus)(ty, y, x));
}

/// Sums associate.
pub proof fn lemma_associates<V, W>(m: Machine<V, W>, ty: IRTypeId, x: V, y: V, z: V)
    requires
        adds_up(m),
    ensures
        (m.plus)(ty, (m.plus)(ty, x, y), z) == (m.plus)(ty, x, (m.plus)(ty, y, z)),
{
    reveal(adds_up);
}

/// Sums commute.
pub proof fn lemma_plus_commutes<V, W>(m: Machine<V, W>, ty: IRTypeId, x: V, y: V)
    requires
        adds_up(m),
    ensures
        (m.plus)(ty, x, y) == (m.plus)(ty, y, x),
{
    reveal(adds_up);
}

/// Zero is neutral.
pub proof fn lemma_zero<V, W>(m: Machine<V, W>, ty: IRTypeId, x: V)
    requires
        adds_up(m),
    ensures
        (m.plus)(ty, zero(m, ty), x) == x,
        (m.plus)(ty, x, zero(m, ty)) == x,
{
    reveal(adds_up);
    assert((m.plus)(ty, x, zero(m, ty)) == (m.plus)(ty, zero(m, ty), x));
}

/// Coefficients add, and 0 and 1 are what they are.
pub proof fn lemma_coefficients<V, W>(m: Machine<V, W>, ty: IRTypeId, a: u8, b: u8, x: V)
    requires
        adds_up(m),
    ensures
        (m.plus)(ty, (m.scaled)(ty, a, x), (m.scaled)(ty, b, x)) == (m.scaled)(ty, a ^ b, x),
        (m.scaled)(ty, 0, x) == zero(m, ty),
        (m.scaled)(ty, 1, x) == x,
{
    reveal(adds_up);
}

// ---------------------------------------------------------------------------
// A machine on words
// ---------------------------------------------------------------------------

/// A machine whose values are words: sums are exclusive ors, products are
/// conjunctions, and a coefficient counts when it is odd. What oracles and the
/// other statements give is left open.
pub open spec fn word_machine<W>(
    oracle: spec_fn(Seq<char>, Seq<u128>) -> u128,
    other: spec_fn(StmtView, Seq<u128>, W) -> (u128, W),
) -> Machine<u128, W> {
    Machine {
        constant: |c: Constant, ty: IRTypeId| c.lo,
        plus: |ty: IRTypeId, a: u128, b: u128| a ^ b,
        times: |ty: IRTypeId, a: u128, b: u128| a & b,
        one: |ty: IRTypeId| 0xffff_ffff_ffff_ffff_ffff_ffff_ffff_ffffu128,
        scaled: |ty: IRTypeId, k: u8, a: u128|
            if k % 2 == 1 {
                a
            } else {
                0u128
            },
        transmute: |from: IRTypeId, to: IRTypeId, a: u128| a,
        number: |a: u128| a as nat,
        oracle,
        unit: 0,
        other,
    }
}

/// A machine on words obeys what the laws of running programs ask of a
/// machine.
pub proof fn law_words_add_up<W>(
    oracle: spec_fn(Seq<char>, Seq<u128>) -> u128,
    other: spec_fn(StmtView, Seq<u128>, W) -> (u128, W),
    addr_ty: IRTypeId,
    bit_ty: IRTypeId,
)
    ensures
        adds_up(word_machine(oracle, other)),
        numbers(word_machine(oracle, other), addr_ty, bit_ty),
{
    let m = word_machine(oracle, other);
    reveal(adds_up);
    assert forall|ty: IRTypeId, a: u128, b: u128| #[trigger]
        (m.plus)(ty, a, b) == (m.plus)(ty, b, a) by {
        assert(a ^ b == b ^ a) by (bit_vector);
    }
    assert forall|ty: IRTypeId, a: u128, b: u128, c: u128| #[trigger]
        (m.plus)(ty, (m.plus)(ty, a, b), c) == (m.plus)(ty, a, (m.plus)(ty, b, c)) by {
        assert((a ^ b) ^ c == a ^ (b ^ c)) by (bit_vector);
    }
    assert forall|ty: IRTypeId, a: u128| #[trigger] (m.plus)(ty, zero(m, ty), a) == a by {
        assert(0u128 ^ a == a) by (bit_vector);
    }
    assert forall|ty: IRTypeId, a: u128, b: u128| #[trigger]
        (m.times)(ty, a, b) == (m.times)(ty, b, a) by {
        assert(a & b == b & a) by (bit_vector);
    }
    assert forall|ty: IRTypeId, a: u128, b: u128, c: u128| #[trigger]
        (m.times)(ty, (m.times)(ty, a, b), c) == (m.times)(ty, a, (m.times)(ty, b, c)) by {
        assert((a & b) & c == a & (b & c)) by (bit_vector);
    }
    assert forall|ty: IRTypeId, x: u8, y: u8, a: u128| #[trigger]
        (m.plus)(ty, (m.scaled)(ty, x, a), (m.scaled)(ty, y, a)) == (m.scaled)(ty, x ^ y, a) by {
        assert((x ^ y) % 2 == 1 <==> (x % 2 == 1) != (y % 2 == 1)) by (bit_vector);
        assert(a ^ a == 0u128) by (bit_vector);
        assert(a ^ 0u128 == a) by (bit_vector);
        assert(0u128 ^ a == a) by (bit_vector);
        assert(0u128 ^ 0u128 == 0u128) by (bit_vector);
    }
}

// ---------------------------------------------------------------------------
// Renaming
// ---------------------------------------------------------------------------

/// Whether every variable that `scope` names holds, under its new name, what it
/// holds.
pub open spec fn renames<V>(
    scope: Seq<IRVarId>,
    map: Seq<IRVarId>,
    env: Seq<V>,
    env2: Seq<V>,
) -> bool {
    forall|v: IRVarId| #[trigger]
        var_mapped(v, scope) ==> v.0 < map.len() && at(v, env) == at(renamed_var(v, map), env2)
}

/// Variables under new names hold what they hold.
pub proof fn lemma_renamed_list<V>(
    vs: Seq<IRVarId>,
    scope: Seq<IRVarId>,
    map: Seq<IRVarId>,
    env: Seq<V>,
    env2: Seq<V>,
)
    requires
        renames(scope, map, env, env2),
        vars_mapped(vs, scope),
    ensures
        at_all(renamed_vars(vs, map), env2) == at_all(vs, env),
{
    let a = at_all(renamed_vars(vs, map), env2);
    let b = at_all(vs, env);
    assert forall|i: int| 0 <= i < vs.len() implies a[i] == b[i] by {
        assert(var_mapped(vs[i], scope));
    }
    assert(a =~= b);
}

/// The order of factors does not matter.
pub proof fn lemma_sorted_factors<V, W>(
    m: Machine<V, W>,
    ty: IRTypeId,
    vs: Seq<IRVarId>,
    env: Seq<V>,
)
    requires
        adds_up(m),
    ensures
        product_of(m, ty, at_all(sorted_vars(vs), env)) == product_of(m, ty, at_all(vs, env)),
{
    let f = times_next(m, ty);
    assert(vstd::seq_lib::commutative_foldl(f)) by {
        reveal(adds_up);
        assert forall|x: V, y: V, v: Option<V>| #[trigger] f(f(v, x), y) == f(f(v, y), x) by {
            match v {
                Some(a) => {
                    assert((m.times)(ty, (m.times)(ty, a, x), y) == (m.times)(
                        ty,
                        a,
                        (m.times)(ty, x, y),
                    ));
                    assert((m.times)(ty, (m.times)(ty, a, y), x) == (m.times)(
                        ty,
                        a,
                        (m.times)(ty, y, x),
                    ));
                    assert((m.times)(ty, x, y) == (m.times)(ty, y, x));
                },
                None => {
                    assert((m.times)(ty, x, y) == (m.times)(ty, y, x));
                },
            }
        }
    }
    let s = sorted_vars(vs);
    assert(vstd::relations::total_ordering(var_le()));
    vs.lemma_sort_by_ensures(var_le());
    lemma_mapped_multiset(vs, s, env);
    vstd::seq_lib::lemma_fold_left_permutation(at_all(s, env), at_all(vs, env), f, None);
}

/// Lists with the same elements have values with the same elements.
pub proof fn lemma_mapped_multiset<V>(a: Seq<IRVarId>, b: Seq<IRVarId>, env: Seq<V>)
    requires
        a.to_multiset() == b.to_multiset(),
    ensures
        at_all(b, env).to_multiset() == at_all(a, env).to_multiset(),
    decreases a.len(),
{
    broadcast use vstd::seq_lib::group_to_multiset_ensures;

    a.to_multiset_ensures();
    b.to_multiset_ensures();
    assert(a.len() == b.len());
    if a.len() == 0 {
        assert(at_all(a, env) =~= at_all(b, env));
    } else {
        let x = a.last();
        let rest = a.drop_last();
        assert(a =~= rest.push(x));
        assert(b.to_multiset().count(x) > 0);
        let k = b.index_of(x);
        assert(b.contains(x));
        let other = b.remove(k);
        assert(other.to_multiset() =~= b.to_multiset().remove(x));
        assert(rest.to_multiset() =~= a.to_multiset().remove(x));
        lemma_mapped_multiset(rest, other, env);
        let va = at_all(a, env);
        let vb = at_all(b, env);
        let v = at(x, env);
        assert(va =~= at_all(rest, env).push(v));
        assert(vb.remove(k) =~= at_all(other, env));
        assert(vb[k] == v);
        assert(vb.remove(k).to_multiset() =~= vb.to_multiset().remove(v));
        assert(vb.contains(v));
        assert(vb.to_multiset() =~= vb.remove(k).to_multiset().insert(v));
        assert(va.to_multiset() =~= at_all(rest, env).to_multiset().insert(v));
    }
}

/// Putting a monomial in its place, or adding to its coefficient, adds it to the
/// sum.
pub proof fn lemma_add_term<V, W>(
    m: Machine<V, W>,
    ty: IRTypeId,
    acc: Seq<(Seq<IRVarId>, u8)>,
    key: Seq<IRVarId>,
    coeff: u8,
    env: Seq<V>,
)
    requires
        adds_up(m),
        assoc_sorted(acc, vars_order()),
    ensures
        sum(m, ty, add_term(acc, key, coeff), env) == (m.plus)(
            ty,
            term(m, ty, at_all(key, env), coeff),
            sum(m, ty, acc, env),
        ),
{
    let less = vars_order();
    match assoc_get(acc, key) {
        Some(c) => {
            lemma_replaced(m, ty, acc, key, c, coeff, env);
        },
        None => {
            assert(0u8 ^ coeff == coeff) by (bit_vector);
            lemma_inserted(m, ty, acc, key, coeff, env);
        },
    }
}

/// Inserting a new monomial.
pub proof fn lemma_inserted<V, W>(
    m: Machine<V, W>,
    ty: IRTypeId,
    acc: Seq<(Seq<IRVarId>, u8)>,
    key: Seq<IRVarId>,
    coeff: u8,
    env: Seq<V>,
)
    requires
        adds_up(m),
        assoc_get(acc, key) is None,
    ensures
        sum(m, ty, assoc_insert(acc, key, coeff, vars_order()), env) == (m.plus)(
            ty,
            term(m, ty, at_all(key, env), coeff),
            sum(m, ty, acc, env),
        ),
        coeff == 0 ==> sum(m, ty, assoc_remove(acc, key), env) == (m.plus)(
            ty,
            term(m, ty, at_all(key, env), coeff),
            sum(m, ty, acc, env),
        ),
    decreases acc.len(),
{
    let less = vars_order();
    let t = term(m, ty, at_all(key, env), coeff);
    let after = assoc_insert(acc, key, coeff, less);
    if coeff == 0 {
        let v = match product_of(m, ty, at_all(key, env)) {
            Some(v) => v,
            None => (m.one)(ty),
        };
        lemma_coefficients(m, ty, 0, 0, v);
        lemma_zero(m, ty, sum(m, ty, acc, env));
    }
    if acc.len() == 0 {
        assert(after.drop_first() =~= acc);
    } else {
        let rest = acc.drop_first();
        lemma_inserted(m, ty, rest, key, coeff, env);
        let x = term(m, ty, at_all(acc[0].0, env), acc[0].1);
        let s = sum(m, ty, rest, env);
        lemma_swap(m, ty, x, t, s);
        if less(key, acc[0].0) {
            assert(after.drop_first() =~= acc);
        } else {
            assert(after.drop_first() =~= assoc_insert(rest, key, coeff, less));
        }
        let gone = assoc_remove(acc, key);
        assert(gone.drop_first() =~= assoc_remove(rest, key));
    }
}

/// Changing the coefficient of a monomial, or dropping it.
pub proof fn lemma_replaced<V, W>(
    m: Machine<V, W>,
    ty: IRTypeId,
    acc: Seq<(Seq<IRVarId>, u8)>,
    key: Seq<IRVarId>,
    c: u8,
    coeff: u8,
    env: Seq<V>,
)
    requires
        adds_up(m),
        assoc_get(acc, key) == Some(c),
        assoc_sorted(acc, vars_order()),
    ensures
        sum(m, ty, assoc_insert(acc, key, c ^ coeff, vars_order()), env) == (m.plus)(
            ty,
            term(m, ty, at_all(key, env), coeff),
            sum(m, ty, acc, env),
        ),
        c ^ coeff == 0 ==> sum(m, ty, assoc_remove(acc, key), env) == (m.plus)(
            ty,
            term(m, ty, at_all(key, env), coeff),
            sum(m, ty, acc, env),
        ),
    decreases acc.len(),
{
    let less = vars_order();
    let t = term(m, ty, at_all(key, env), coeff);
    let after = assoc_insert(acc, key, c ^ coeff, less);
    let gone = assoc_remove(acc, key);
    let rest = acc.drop_first();
    let s = sum(m, ty, rest, env);
    let x = term(m, ty, at_all(acc[0].0, env), acc[0].1);
    if acc[0].0 == key {
        assert(after.drop_first() =~= rest);
        let both = term(m, ty, at_all(key, env), c ^ coeff);
        let v = match product_of(m, ty, at_all(key, env)) {
            Some(v) => v,
            None => (m.one)(ty),
        };
        lemma_coefficients(m, ty, c, coeff, v);
        assert(both == (m.plus)(ty, x, t));
        lemma_associates(m, ty, x, t, s);
        lemma_swap(m, ty, x, t, s);
        lemma_zero(m, ty, s);
    } else {
        assert forall|i: int, j: int| #![trigger rest[i], rest[j]] 0 <= i < j < rest.len() implies less(
            rest[i].0,
            rest[j].0,
        ) by {
            assert(rest[i] == acc[i + 1] && rest[j] == acc[j + 1]);
        }
        lemma_replaced(m, ty, rest, key, c, coeff, env);
        crate::sorted::lemma_assoc_get_some(rest, key);
        let k = choose|k: int| 0 <= k < rest.len() && (#[trigger] rest[k]).0 == key;
        assert(less(acc[0].0, acc[k + 1].0));
        assert(!less(key, acc[0].0)) by {
            lemma_order();
        }
        assert(after.drop_first() =~= assoc_insert(rest, key, c ^ coeff, less));
        assert(gone.drop_first() =~= assoc_remove(rest, key));
        lemma_swap(m, ty, x, t, s);
    }
}

/// Monomials are put in a strict order.
pub proof fn lemma_order()
    ensures
        strict_order(vars_order()),
{
    crate::ir::lemma_vars_order();
}

/// Dropping a monomial keeps the order.
pub proof fn lemma_removed_sorted(acc: Seq<(Seq<IRVarId>, u8)>, key: Seq<IRVarId>)
    requires
        assoc_sorted(acc, vars_order()),
    ensures
        assoc_sorted(assoc_remove(acc, key), vars_order()),
        forall|i: int|
            0 <= i < assoc_remove(acc, key).len() ==> exists|j: int|
                0 <= j < acc.len() && (#[trigger] assoc_remove(acc, key)[i]) == #[trigger] acc[j],
    decreases acc.len(),
{
    if acc.len() > 0 {
        let rest = acc.drop_first();
        assert forall|i: int, j: int| #![trigger rest[i], rest[j]] 0 <= i < j < rest.len() implies vars_order()(
            rest[i].0,
            rest[j].0,
        ) by {
            assert(rest[i] == acc[i + 1] && rest[j] == acc[j + 1]);
        }
        lemma_removed_sorted(rest, key);
        let gone = assoc_remove(acc, key);
        if acc[0].0 == key {
            assert forall|i: int| 0 <= i < gone.len() implies exists|j: int|
                0 <= j < acc.len() && (#[trigger] gone[i]) == #[trigger] acc[j] by {
                assert(gone[i] == acc[i + 1]);
            }
        } else {
            let tail = assoc_remove(rest, key);
            assert(gone =~= seq![acc[0]] + tail);
            assert forall|i: int| 0 <= i < gone.len() implies exists|j: int|
                0 <= j < acc.len() && (#[trigger] gone[i]) == #[trigger] acc[j] by {
                if i == 0 {
                    assert(gone[0] == acc[0]);
                } else {
                    let j = choose|j: int| 0 <= j < rest.len() && tail[i - 1] == #[trigger] rest[j];
                    assert(gone[i] == acc[j + 1]);
                }
            }
            assert forall|i: int, j: int| #![trigger gone[i], gone[j]] 0 <= i < j < gone.len() implies vars_order()(
                gone[i].0,
                gone[j].0,
            ) by {
                if i == 0 {
                    let q = choose|q: int| 0 <= q < rest.len() && tail[j - 1] == #[trigger] rest[q];
                    assert(gone[j] == acc[q + 1]);
                    assert(gone[0] == acc[0]);
                } else {
                    assert(gone[i] == tail[i - 1] && gone[j] == tail[j - 1]);
                }
            }
        }
    }
}

/// A sum under new names is the same.
pub proof fn lemma_renamed_sum<V, W>(
    m: Machine<V, W>,
    ty: IRTypeId,
    terms: Seq<(Seq<IRVarId>, u8)>,
    scope: Seq<IRVarId>,
    map: Seq<IRVarId>,
    env: Seq<V>,
    env2: Seq<V>,
)
    requires
        adds_up(m),
        renames(scope, map, env, env2),
        terms_mapped(terms, scope),
    ensures
        sum(m, ty, renamed_terms(terms, map), env2) == sum(m, ty, terms, env),
        assoc_sorted(renamed_terms(terms, map), vars_order()),
    decreases terms.len(),
{
    if terms.len() > 0 {
        let before = terms.drop_last();
        let acc = renamed_terms(before, map);
        let last = terms.last();
        lemma_renamed_sum(m, ty, before, scope, map, env, env2);
        let renamed = renamed_vars(last.0, map);
        let key = sorted_vars(renamed);
        lemma_add_term(m, ty, acc, key, last.1, env2);
        assert(vars_mapped(terms[terms.len() - 1].0, scope));
        lemma_renamed_list(last.0, scope, map, env, env2);
        lemma_sorted_factors(m, ty, renamed, env2);
        lemma_sum_last(m, ty, terms, env);
        lemma_order();
        lemma_removed_sorted(acc, key);
        match assoc_get(acc, key) {
            Some(c) => {
                law_assoc_insert_sorted(acc, key, c ^ last.1, vars_order());
            },
            None => {
                law_assoc_insert_sorted(acc, key, 0u8 ^ last.1, vars_order());
            },
        }
    }
}

/// The last monomial of a sum.
pub proof fn lemma_sum_last<V, W>(
    m: Machine<V, W>,
    ty: IRTypeId,
    terms: Seq<(Seq<IRVarId>, u8)>,
    env: Seq<V>,
)
    requires
        adds_up(m),
        terms.len() > 0,
    ensures
        sum(m, ty, terms, env) == (m.plus)(
            ty,
            term(m, ty, at_all(terms.last().0, env), terms.last().1),
            sum(m, ty, terms.drop_last(), env),
        ),
    decreases terms.len(),
{
    let t = term(m, ty, at_all(terms.last().0, env), terms.last().1);
    if terms.len() == 1 {
        assert(terms.drop_first() =~= terms.drop_last());
    } else {
        let rest = terms.drop_first();
        lemma_sum_last(m, ty, rest, env);
        let x = term(m, ty, at_all(terms[0].0, env), terms[0].1);
        let mid = rest.drop_last();
        let s = sum(m, ty, mid, env);
        assert(terms.drop_last().drop_first() =~= mid);
        lemma_swap(m, ty, x, t, s);
    }
}

/// A statement under new names does the same.
pub proof fn lemma_renamed_stmt<V, W>(
    m: Machine<V, W>,
    s: StmtView,
    scope: Seq<IRVarId>,
    map: Seq<IRVarId>,
    env: Seq<V>,
    env2: Seq<V>,
    st: IrState<V, W>,
)
    requires
        adds_up(m),
        renames(scope, map, env, env2),
        stmt_mapped(s, scope),
    ensures
        act(m, renamed_stmt(s, map), env2, st) == act(m, s, env, st),
{
    match s {
        StmtView::Poly { ty, coeffs, .. } => {
            lemma_renamed_sum(m, ty, coeffs, scope, map, env, env2);
        },
        StmtView::OracleCall { args, .. } => {
            lemma_renamed_list(args, scope, map, env, env2);
        },
        StmtView::Const(..) => {},
        StmtView::StorageRead { addr, .. } => {
            assert(var_mapped(addr, scope));
        },
        StmtView::StorageWrite { src, addr, .. } => {
            assert(var_mapped(addr, scope));
            assert(var_mapped(src, scope));
        },
        StmtView::Transmute { src, .. } => {
            assert(var_mapped(src, scope));
        },
        _ => {
            let r = renamed_stmt(s, map);
            let ops = operands(s);
            assert(vars_mapped(ops, scope)) by {
                assert forall|i: int| 0 <= i < ops.len() implies var_mapped(
                    #[trigger] ops[i],
                    scope,
                ) by {
                    match s {
                        StmtView::Shuffle { result_bits, .. } => {
                            assert(var_mapped(result_bits[i].1, scope));
                        },
                        StmtView::ActionCall { guard, args, fallbacks, .. } => {
                            if i == 0 {
                            } else if i < 1 + args.len() {
                                assert(ops[i] == args[i - 1]);
                            } else {
                                assert(ops[i] == fallbacks[i - 1 - args.len()]);
                            }
                        },
                        _ => {},
                    }
                }
            }
            lemma_renamed_list(ops, scope, map, env, env2);
            assert(operands(r) =~= renamed_vars(ops, map));
            assert(shape(r) == shape(s)) by {
                match s {
                    StmtView::Merge { parts, .. } => {
                        assert(blank(renamed_vars(parts, map)) =~= blank(parts));
                    },
                    StmtView::Shuffle { result_bits, .. } => {
                        assert(renamed_bits(result_bits, map).map_values(
                            |b: (u8, IRVarId)| (b.0, IRVarId(0)),
                        ) =~= result_bits.map_values(|b: (u8, IRVarId)| (b.0, IRVarId(0))));
                    },
                    StmtView::ActionCall { args, fallbacks, .. } => {
                        assert(blank(renamed_vars(args, map)) =~= blank(args));
                        assert(blank(renamed_vars(fallbacks, map)) =~= blank(fallbacks));
                    },
                    _ => {},
                }
            }
        },
    }
}

// ---------------------------------------------------------------------------
// Steps
// ---------------------------------------------------------------------------

/// One more statement.
pub proof fn lemma_run_push<V, W>(
    m: Machine<V, W>,
    ss: Seq<StmtView>,
    x: StmtView,
    env: Seq<V>,
    st: IrState<V, W>,
)
    ensures
        ({
            let (e, s) = run_stmts(m, ss, env, st);
            let (v, s2) = act(m, x, e, s);
            run_stmts(m, ss.push(x), env, st) == (e.push(v), s2)
        }),
{
    assert(ss.push(x).drop_last() =~= ss);
}

/// Statements behind others.
pub proof fn lemma_run_both<V, W>(
    m: Machine<V, W>,
    a: Seq<StmtView>,
    b: Seq<StmtView>,
    env: Seq<V>,
    st: IrState<V, W>,
)
    ensures
        ({
            let (e, s) = run_stmts(m, a, env, st);
            run_stmts(m, a + b, env, st) == run_stmts(m, b, e, s)
        }),
    decreases b.len(),
{
    if b.len() == 0 {
        assert(a + b =~= a);
    } else {
        lemma_run_both(m, a, b.drop_last(), env, st);
        assert((a + b).drop_last() =~= a + b.drop_last());
        assert((a + b).last() == b.last());
    }
}

/// Every statement adds a value.
pub proof fn lemma_run_length<V, W>(
    m: Machine<V, W>,
    ss: Seq<StmtView>,
    env: Seq<V>,
    st: IrState<V, W>,
)
    ensures
        run_stmts(m, ss, env, st).0.len() == env.len() + ss.len(),
        forall|j: int| 0 <= j < env.len() ==> run_stmts(m, ss, env, st).0[j] == #[trigger] env[j],
    decreases ss.len(),
{
    if ss.len() > 0 {
        lemma_run_length(m, ss.drop_last(), env, st);
    }
}

/// The sum of two variables.
pub proof fn lemma_xor<V, W>(
    m: Machine<V, W>,
    ty: IRTypeId,
    a: IRVarId,
    b: IRVarId,
    env: Seq<V>,
)
    requires
        adds_up(m),
        a != b,
    ensures
        (m.plus)(ty, sum(m, ty, xor_terms(a, b), env), zero(m, ty)) == (m.plus)(
            ty,
            at(a, env),
            at(b, env),
        ),
{
    let none = Seq::<(Seq<IRVarId>, u8)>::empty();
    let one = assoc_insert(none, seq![a], 1u8, vars_order());
    assert(one =~= seq![(seq![a], 1u8)]);
    assert(assoc_get(none, seq![a]) is None);
    assert(one.drop_first() =~= none);
    assert(seq![a] != seq![b]) by {
        assert(seq![a][0] == a && seq![b][0] == b);
    }
    assert(assoc_get(one.drop_first(), seq![b]) is None);
    assert(assoc_get(one, seq![b]) is None);
    lemma_inserted(m, ty, none, seq![a], 1, env);
    lemma_inserted(m, ty, one, seq![b], 1, env);
    lemma_single(m, ty, a, env);
    lemma_single(m, ty, b, env);
    let x = at(a, env);
    let y = at(b, env);
    lemma_zero(m, ty, x);
    assert(sum(m, ty, xor_terms(a, b), env) == (m.plus)(ty, y, x));
    lemma_plus_commutes(m, ty, x, y);
    lemma_zero(m, ty, (m.plus)(ty, x, y));
}

/// A monomial of one variable.
pub proof fn lemma_single<V, W>(m: Machine<V, W>, ty: IRTypeId, a: IRVarId, env: Seq<V>)
    requires
        adds_up(m),
    ensures
        term(m, ty, at_all(seq![a], env), 1) == at(a, env),
{
    let vs = at_all(seq![a], env);
    assert(vs =~= seq![at(a, env)]);
    let f = times_next(m, ty);
    assert(vs.drop_last() =~= Seq::empty());
    assert(vs.drop_last().fold_left(None::<V>, f) == None::<V>);
    assert(vs.fold_left(None, f) == f(vs.drop_last().fold_left(None, f), vs.last()));
    lemma_coefficients(m, ty, 1, 1, at(a, env));
}

/// One step of a run.
pub proof fn lemma_one<V, W>(
    m: Machine<V, W>,
    vb: Seq<IRBlockView>,
    i: int,
    args: Seq<V>,
    st: IrState<V, W>,
    b: IRBlockId,
    next: Seq<V>,
    s: IrState<V, W>,
    fuel: nat,
)
    requires
        0 <= i < vb.len(),
        run_block(m, vb[i], args, st) == (Exit::Block(b, next), s),
    ensures
        run(m, vb, i, args, st, fuel + 1) == run(m, vb, b.0 as int, next, s, fuel),
{
}

/// The number of a constant of a number.
pub proof fn lemma_constant_number(x: u32)
    ensures
        constant_number(constant_of(x)) == x,
{
    assert(0 * pow2(128) == 0) by (nonlinear_arith);
}

/// Which case is taken depends on the constants alone.
pub proof fn lemma_same_case(
    x: Seq<(Constant, BranchView)>,
    y: Seq<(Constant, BranchView)>,
    n: nat,
)
    requires
        x.len() == y.len(),
        forall|k: int| 0 <= k < x.len() ==> (#[trigger] x[k]).0 == y[k].0,
    ensures
        case_of(x, n) == case_of(y, n),
        case_of(x, n) matches Some(a) ==> 0 <= a < x.len(),
    decreases x.len(),
{
    if x.len() > 0 {
        assert(x[x.len() - 1].0 == y[x.len() - 1].0);
        lemma_same_case(x.drop_last(), y.drop_last(), n);
    }
}

} // verus!
