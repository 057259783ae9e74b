//! How boolean programs run, and that a virtualised program runs like the one
//! it was made of.

use vstd::arithmetic::power2::{lemma2_to64, lemma_pow2_unfold, pow2};
use vstd::prelude::*;

use crate::boolar::{
    BIrBlockView, BIrBlocks, BIrBlocksView, BIrPreInitView, BIrStmtView, BIrTargetView, BIrTermView, LaneId,
};
use crate::common::{nth_bit, StorageId, StorageTable};
use crate::ir::{IRBlockId, IRBlockTargetId, IRVarId};
use crate::virt::bir::{
    all_targets, bir_block_keys, bir_handler, bir_lane, bir_lanes, bir_module, bir_plan, bir_ready,
    bir_rows, bir_setup_block, bir_storage, bir_targets, bits_for, dispatch_node, dispatcher_nodes,
    first_slot, handler_vars, is_handler, law_bits_determine, law_bits_least, lemma_is_handler_len,
    merged_bir_blocks, n_targets, rewritten_target, slot_lanes, target_bits, target_lane,
    virtualizes_bir, BIR_DISPATCHER_BID, BirFrame, BirPlan,
};
use crate::virt::canon::{bir_key, lifted_bir_targets, lifted_dest};
use crate::virt::cse::{bir_merged_prefix, identity_map, lemma_bir_merged_prefix, merged_bir_block};
use crate::virt::ctx::{distinct, law_distinct, VirtOutput};
use crate::virt::remap::{renamed_bir_stmt, renamed_bit, renamed_bit_list};

verus! {

// ---------------------------------------------------------------------------
// Running
// ---------------------------------------------------------------------------

/// What a variable holds.
#[verifier::ext_equal]
pub enum Val {
    Bit(bool),
    /// The handle of an oracle call: the oracle and its inputs.
    Oracle(Seq<char>, Seq<bool>),
    /// Any other handle.
    Bits(Seq<bool>),
    /// Nothing.
    Unit,
}

impl Val {
    /// The value as a bit.
    pub open spec fn bit(self) -> bool {
        self == Val::Bit(true)
    }
}

/// The values as bits.
pub open spec fn bits(vs: Seq<Val>) -> Seq<bool> {
    vs.map_values(|v: Val| v.bit())
}

/// What a running program changes: the stored bits and the world outside.
pub struct BirState<W> {
    pub cells: spec_fn(StorageId, LaneId, nat) -> bool,
    pub world: W,
}

/// How the world answers.
#[verifier::reject_recursive_types(W)]
pub struct Outside<W> {
    /// A bit of an oracle, by its name and inputs. Oracles are pure.
    pub oracle: spec_fn(Seq<char>, Seq<bool>, usize) -> bool,
    /// What any other statement that asks the world gives, and the world
    /// behind it.
    pub other: spec_fn(BIrStmtView<Val>, W) -> (Val, W),
}

/// The number that bits denote, least significant first.
pub open spec fn addr_of(b: Seq<bool>) -> nat
    decreases b.len(),
{
    if b.len() == 0 {
        0
    } else {
        (if b[0] {
            1nat
        } else {
            0
        }) + 2 * addr_of(b.drop_first())
    }
}

/// The cells with one changed.
pub open spec fn stored(
    cells: spec_fn(StorageId, LaneId, nat) -> bool,
    s: StorageId,
    l: LaneId,
    a: nat,
    bit: bool,
) -> spec_fn(StorageId, LaneId, nat) -> bool {
    |s2: StorageId, l2: LaneId, a2: nat|
        if s2 == s && l2 == l && a2 == a {
            bit
        } else {
            cells(s2, l2, a2)
        }
}

/// What a statement on values gives and changes.
pub open spec fn act<W>(x: BIrStmtView<Val>, st: BirState<W>, out: Outside<W>) -> (
    Val,
    BirState<W>,
) {
    match x {
        BIrStmtView::Zero => (Val::Bit(false), st),
        BIrStmtView::One => (Val::Bit(true), st),
        BIrStmtView::And(a, b) => (Val::Bit(a.bit() && b.bit()), st),
        BIrStmtView::Or(a, b) => (Val::Bit(a.bit() || b.bit()), st),
        BIrStmtView::Xor(a, b) => (Val::Bit(a.bit() != b.bit()), st),
        BIrStmtView::Not(a) => (Val::Bit(!a.bit()), st),
        BIrStmtView::OracleCall { name, args, .. } => (Val::Oracle(name, bits(args)), st),
        BIrStmtView::OracleProjectedBit { call, bit } => (
            match call {
                Val::Oracle(name, inputs) => Val::Bit((out.oracle)(name, inputs, bit)),
                _ => Val::Unit,
            },
            st,
        ),
        BIrStmtView::StorageRead { storage, lane, addr } => (
            Val::Bit((st.cells)(storage, lane, addr_of(bits(addr)))),
            st,
        ),
        BIrStmtView::StorageWrite { storage, lane, src, addr } => (
            Val::Unit,
            BirState {
                cells: stored(st.cells, storage, lane, addr_of(bits(addr)), src.bit()),
                ..st
            },
        ),
        BIrStmtView::ActionStoreBit { storage, lane, addr, .. } => {
            let (v, world) = (out.other)(x, st.world);
            (
                Val::Unit,
                BirState {
                    cells: stored(st.cells, storage, lane, addr_of(bits(addr)), v.bit()),
                    world,
                },
            )
        },
        _ => {
            let (v, world) = (out.other)(x, st.world);
            (v, BirState { world, ..st })
        },
    }
}

/// The value of a variable.
pub open spec fn at(v: IRVarId, env: Seq<Val>) -> Val {
    env[v.0 as int]
}

/// The values of variables.
pub open spec fn at_all(vs: Seq<IRVarId>, env: Seq<Val>) -> Seq<Val> {
    vs.map_values(|v: IRVarId| at(v, env))
}

/// A statement with the values of its variables in their places.
pub open spec fn resolved(s: BIrStmtView, env: Seq<Val>) -> BIrStmtView<Val> {
    match s {
        BIrStmtView::Zero => BIrStmtView::Zero,
        BIrStmtView::One => BIrStmtView::One,
        BIrStmtView::And(a0, a1) => BIrStmtView::And(at(a0, env), at(a1, env)),
        BIrStmtView::Or(a0, a1) => BIrStmtView::Or(at(a0, env), at(a1, env)),
        BIrStmtView::Xor(a0, a1) => BIrStmtView::Xor(at(a0, env), at(a1, env)),
        BIrStmtView::Not(a0) => BIrStmtView::Not(at(a0, env)),
        BIrStmtView::OracleCall { name, args, num_bits } => BIrStmtView::OracleCall {
            name,
            args: at_all(args, env),
            num_bits,
        },
        BIrStmtView::OracleBit { name, args, bit, occurrence } => BIrStmtView::OracleBit {
            name,
            args: at_all(args, env),
            bit,
            occurrence,
        },
        BIrStmtView::OracleProjectedBit { call, bit } => BIrStmtView::OracleProjectedBit {
            call: at(call, env),
            bit,
        },
        BIrStmtView::ActionCall { name, guard, args, fallback, num_bits } => BIrStmtView::ActionCall {
            name,
            guard: at(guard, env),
            args: at_all(args, env),
            fallback: at_all(fallback, env),
            num_bits,
        },
        BIrStmtView::ActionBit { call, bit } => BIrStmtView::ActionBit {
            call: at(call, env),
            bit,
        },
        BIrStmtView::ActionStoreBit { name, guard, args, fallback, storage, lane, addr, bit, occurrence } => BIrStmtView::ActionStoreBit {
            name,
            guard: at(guard, env),
            args: at_all(args, env),
            fallback: at(fallback, env),
            storage,
            lane,
            addr: at_all(addr, env),
            bit,
            occurrence,
        },
        BIrStmtView::Rng { name } => BIrStmtView::Rng {
            name,
        },
        BIrStmtView::RngBit { name, bit, occurrence } => BIrStmtView::RngBit {
            name,
            bit,
            occurrence,
        },
        BIrStmtView::StorageRead { storage, lane, addr } => BIrStmtView::StorageRead {
            storage,
            lane,
            addr: at_all(addr, env),
        },
        BIrStmtView::StorageWrite { storage, lane, src, addr } => BIrStmtView::StorageWrite {
            storage,
            lane,
            src: at(src, env),
            addr: at_all(addr, env),
        },
    }
}

/// Run statements, one after the other.
pub open spec fn run_stmts<W>(
    ss: Seq<BIrStmtView>,
    env: Seq<Val>,
    st: BirState<W>,
    out: Outside<W>,
) -> (Seq<Val>, BirState<W>)
    decreases ss.len(),
{
    if ss.len() == 0 {
        (env, st)
    } else {
        let (e, s) = run_stmts(ss.drop_last(), env, st, out);
        let (v, s2) = act(resolved(ss.last(), e), s, out);
        (e.push(v), s2)
    }
}

/// How a block is left.
#[verifier::ext_equal]
pub enum Exit {
    Return(Seq<Val>),
    Block(IRBlockId, Seq<Val>),
    /// To a block that is not known here.
    Elsewhere,
}

/// Where a jump goes, and what it hands on.
pub open spec fn follow(t: BIrTargetView, env: Seq<Val>) -> Exit {
    match t.block {
        IRBlockTargetId::Return => Exit::Return(at_all(t.args, env)),
        IRBlockTargetId::Block(b) => Exit::Block(b, at_all(t.args, env)),
        IRBlockTargetId::Dyn(_) => Exit::Elsewhere,
    }
}

/// How a block ends.
pub open spec fn leave(t: BIrTermView, env: Seq<Val>) -> Exit {
    match t {
        BIrTermView::Jmp(x) => follow(x, env),
        BIrTermView::CondJmp { val, then_target, else_target } => if at(val, env).bit() {
            follow(then_target, env)
        } else {
            follow(else_target, env)
        },
    }
}

/// Run a block.
pub open spec fn run_block<W>(
    b: BIrBlockView,
    args: Seq<Val>,
    st: BirState<W>,
    out: Outside<W>,
) -> (Exit, BirState<W>) {
    let (env, s) = run_stmts(b.stmts, args, st, out);
    (leave(b.terminator, env), s)
}

/// What a program returns from block `i` on, and the state behind it, if it
/// returns within `fuel` blocks.
pub open spec fn run<W>(
    blocks: Seq<BIrBlockView>,
    i: int,
    args: Seq<Val>,
    st: BirState<W>,
    out: Outside<W>,
    fuel: nat,
) -> Option<(Seq<Val>, BirState<W>)>
    decreases fuel,
{
    if fuel == 0 || !(0 <= i < blocks.len()) {
        None
    } else {
        let (exit, s) = run_block(blocks[i], args, st, out);
        match exit {
            Exit::Return(vals) => Some((vals, s)),
            Exit::Block(b, next) => run(blocks, b.0 as int, next, s, out, (fuel - 1) as nat),
            Exit::Elsewhere => None,
        }
    }
}

/// The bit that a cell holds at the start.
pub open spec fn initial_cell(segs: Seq<BIrPreInitView>, s: StorageId, l: LaneId, a: nat) -> bool
    decreases segs.len(),
{
    if segs.len() == 0 {
        false
    } else {
        let x = segs.last();
        if x.storage == s && x.lane == l && x.offset <= a < x.offset + x.data.len() {
            x.data[a - x.offset]
        } else {
            initial_cell(segs.drop_last(), s, l, a)
        }
    }
}

/// The stored bits at the start.
pub open spec fn initial_cells(segs: Seq<BIrPreInitView>) -> spec_fn(StorageId, LaneId, nat) -> bool {
    |s: StorageId, l: LaneId, a: nat| initial_cell(segs, s, l, a)
}

/// What a program returns for some inputs, if it returns within `fuel` blocks.
pub open spec fn results<W>(
    m: BIrBlocksView,
    inputs: Seq<Val>,
    world: W,
    out: Outside<W>,
    fuel: nat,
) -> Option<(Seq<Val>, W)> {
    match run(
        m.blocks,
        0,
        inputs,
        BirState { cells: initial_cells(m.pre_init), world },
        out,
        fuel,
    ) {
        Some((vals, st)) => Some((vals, st.world)),
        None => None,
    }
}

// ---------------------------------------------------------------------------
// Well-formed programs
// ---------------------------------------------------------------------------

/// Whether every variable of a list is among the first `n`.
pub open spec fn all_below(vs: Seq<IRVarId>, n: nat) -> bool {
    forall|i: int| 0 <= i < vs.len() ==> (#[trigger] vs[i]).0 < n
}

/// Whether a statement uses only the first `n` variables.
pub open spec fn uses_below(s: BIrStmtView, n: nat) -> bool {
    match s {
        BIrStmtView::And(a0, a1) => a0.0 < n && a1.0 < n,
        BIrStmtView::Or(a0, a1) => a0.0 < n && a1.0 < n,
        BIrStmtView::Xor(a0, a1) => a0.0 < n && a1.0 < n,
        BIrStmtView::Not(a0) => a0.0 < n,
        BIrStmtView::OracleCall { args, .. } => all_below(args, n),
        BIrStmtView::OracleBit { args, .. } => all_below(args, n),
        BIrStmtView::OracleProjectedBit { call, .. } => call.0 < n,
        BIrStmtView::ActionCall { guard, args, fallback, .. } => guard.0 < n && all_below(args, n) && all_below(fallback, n),
        BIrStmtView::ActionBit { call, .. } => call.0 < n,
        BIrStmtView::ActionStoreBit { guard, args, fallback, addr, .. } => guard.0 < n && all_below(args, n) && fallback.0 < n && all_below(addr, n),
        BIrStmtView::StorageRead { addr, .. } => all_below(addr, n),
        BIrStmtView::StorageWrite { src, addr, .. } => src.0 < n && all_below(addr, n),
        _ => true,
    }
}

/// Whether a jump uses only the first `n` variables, and hands `params` values
/// to one of `count` blocks or returns.
pub open spec fn jump_fits(t: BIrTargetView, n: nat, params: u32, count: nat) -> bool {
    &&& all_below(t.args, n)
    &&& match t.block {
        IRBlockTargetId::Block(b) => b.0 < count && t.args.len() == params,
        IRBlockTargetId::Return => true,
        IRBlockTargetId::Dyn(_) => false,
    }
}

/// Whether a block uses variables only behind their definitions, and jumps to
/// one of `count` blocks with `params` values each.
pub open spec fn block_fits(b: BIrBlockView, params: u32, count: nat) -> bool {
    &&& b.params == params
    &&& forall|i: int|
        0 <= i < b.stmts.len() ==> uses_below(#[trigger] b.stmts[i], (b.params + i) as nat)
    &&& match b.terminator {
        BIrTermView::Jmp(t) => jump_fits(t, b.var_space(), params, count),
        BIrTermView::CondJmp { val, then_target, else_target } => {
            &&& val.0 < b.var_space()
            &&& jump_fits(then_target, b.var_space(), params, count)
            &&& jump_fits(else_target, b.var_space(), params, count)
        },
    }
}

/// Whether every block fits.
pub open spec fn program_fits(blocks: Seq<BIrBlockView>) -> bool {
    forall|i: int|
        0 <= i < blocks.len() ==> block_fits(#[trigger] blocks[i], blocks[0].params, blocks.len())
}

// ---------------------------------------------------------------------------
// Renaming
// ---------------------------------------------------------------------------

/// Whether the first `n` variables hold, under their new names, what they hold.
pub open spec fn renames(map: Seq<IRVarId>, env: Seq<Val>, env2: Seq<Val>, n: nat) -> bool {
    &&& map.len() >= n
    &&& forall|j: int| 0 <= j < n ==> #[trigger] env[j] == env2[map[j].0 as int]
}

proof fn lemma_renamed_list(vs: Seq<IRVarId>, map: Seq<IRVarId>, env: Seq<Val>, env2: Seq<Val>, n: nat)
    requires
        renames(map, env, env2, n),
        all_below(vs, n),
    ensures
        at_all(renamed_bit_list(vs, map), env2) == at_all(vs, env),
{
    assert forall|i: int| 0 <= i < vs.len() implies at_all(renamed_bit_list(vs, map), env2)[i]
        == at_all(vs, env)[i] by {
        assert(vs[i].0 < n);
        assert(env[vs[i].0 as int] == env2[map[vs[i].0 as int].0 as int]);
    }
    assert(at_all(renamed_bit_list(vs, map), env2) =~= at_all(vs, env));
}

/// A statement under new names works on the same values.
proof fn lemma_renamed_stmt(s: BIrStmtView, map: Seq<IRVarId>, env: Seq<Val>, env2: Seq<Val>, n: nat)
    requires
        renames(map, env, env2, n),
        uses_below(s, n),
    ensures
        resolved(renamed_bir_stmt(s, map), env2) == resolved(s, env),
{
    assert forall|v: IRVarId| v.0 < n implies at(renamed_bit(v, map), env2) == #[trigger] at(
        v,
        env,
    ) by {
        assert(env[v.0 as int] == env2[map[v.0 as int].0 as int]);
    }
    assert forall|vs: Seq<IRVarId>| all_below(vs, n) implies at_all(
        renamed_bit_list(vs, map),
        env2,
    ) == #[trigger] at_all(vs, env) by {
        lemma_renamed_list(vs, map, env, env2, n);
    }
}

/// Running extends what variables hold, one value for each statement.
proof fn lemma_run_length<W>(ss: Seq<BIrStmtView>, env: Seq<Val>, st: BirState<W>, out: Outside<W>)
    ensures
        run_stmts(ss, env, st, out).0.len() == env.len() + ss.len(),
        forall|j: int| 0 <= j < env.len() ==> run_stmts(ss, env, st, out).0[j] == #[trigger] env[j],
    decreases ss.len(),
{
    if ss.len() > 0 {
        lemma_run_length(ss.drop_last(), env, st, out);
    }
}

/// Running statements in two parts.
proof fn lemma_run_both<W>(
    a: Seq<BIrStmtView>,
    b: Seq<BIrStmtView>,
    env: Seq<Val>,
    st: BirState<W>,
    out: Outside<W>,
)
    ensures
        run_stmts(a + b, env, st, out) == ({
            let (e, s) = run_stmts(a, env, st, out);
            run_stmts(b, e, s, out)
        }),
    decreases b.len(),
{
    if b.len() == 0 {
        assert(a + b =~= a);
    } else {
        lemma_run_both(a, b.drop_last(), env, st, out);
        assert((a + b).drop_last() =~= a + b.drop_last());
        assert((a + b).last() == b.last());
    }
}

// ---------------------------------------------------------------------------
// Merged oracle calls
// ---------------------------------------------------------------------------

/// After `n` statements: what was left gives every variable its value under
/// its new name, and every first call the handle of the call.
proof fn lemma_merged_run<W>(
    b: BIrBlockView,
    n: int,
    params: u32,
    count: nat,
    args: Seq<Val>,
    st: BirState<W>,
    out: Outside<W>,
)
    requires
        0 <= n <= b.stmts.len(),
        b.var_space() <= u32::MAX,
        block_fits(b, params, count),
        args.len() == b.params,
    ensures
        ({
            let m = bir_merged_prefix(b, n);
            let (e, s) = run_stmts(b.stmts.take(n), args, st, out);
            let (e2, s2) = run_stmts(m.stmts, args, st, out);
            &&& s == s2
            &&& renames(m.names, e, e2, (b.params + n) as nat)
            &&& forall|c: (Seq<char>, Seq<IRVarId>)| #[trigger]
                m.calls.contains_key(c) ==> e2[m.calls[c].0 as int] == Val::Oracle(
                    c.0,
                    bits(at_all(c.1, e2)),
                ) && all_below(c.1, e2.len())
        }),
    decreases n,
{
    lemma_bir_merged_prefix(b, n);
    let m = bir_merged_prefix(b, n);
    if n == 0 {
        assert(b.stmts.take(0) =~= Seq::empty());
        assert(m.stmts =~= Seq::empty());
    } else {
        lemma_merged_run(b, n - 1, params, count, args, st, out);
        lemma_bir_merged_prefix(b, n - 1);
        let p = bir_merged_prefix(b, n - 1);
        let x = b.stmts[n - 1];
        assert(b.stmts.take(n).drop_last() =~= b.stmts.take(n - 1));
        let (e, s) = run_stmts(b.stmts.take(n - 1), args, st, out);
        let (e2, s2) = run_stmts(p.stmts, args, st, out);
        lemma_run_length(b.stmts.take(n - 1), args, st, out);
        lemma_run_length(p.stmts, args, st, out);
        lemma_renamed_stmt(x, p.names, e, e2, (b.params + n - 1) as nat);
        let again = x matches BIrStmtView::OracleCall { name, args: a, .. } && p.calls.contains_key(
            (name, renamed_bit_list(a, p.names)),
        );
        let (v, s3) = act(resolved(x, e), s, out);
        assert(run_stmts(b.stmts.take(n), args, st, out) == (e.push(v), s3));
        if again {
            let name = x->OracleCall_name;
            let a = x->OracleCall_args;
            let c = (name, renamed_bit_list(a, p.names));
            lemma_renamed_list(a, p.names, e, e2, (b.params + n - 1) as nat);
            assert(m.names == p.names.push(p.calls[c]));
            assert(m.stmts == p.stmts);
            assert(v == e2[p.calls[c].0 as int]);
            assert(renames(m.names, e.push(v), e2, (b.params + n) as nat)) by {
                assert forall|j: int| 0 <= j < b.params + n implies #[trigger] e.push(v)[j]
                    == e2[m.names[j].0 as int] by {
                    if j < b.params + n - 1 {
                        assert(e.push(v)[j] == e[j]);
                        assert(e[j] == e2[p.names[j].0 as int]);
                    }
                }
            }
        } else {
            let y = renamed_bir_stmt(x, p.names);
            assert(m.stmts =~= p.stmts.push(y));
            assert(m.stmts.drop_last() =~= p.stmts);
            let e3 = e2.push(v);
            assert(run_stmts(m.stmts, args, st, out) == (e3, s3));
            let fresh = IRVarId((b.params + p.stmts.len()) as u32);
            assert(m.names == p.names.push(fresh));
            assert(renames(m.names, e.push(v), e3, (b.params + n) as nat)) by {
                assert forall|j: int| 0 <= j < b.params + n implies #[trigger] e.push(v)[j]
                    == e3[m.names[j].0 as int] by {
                    if j < b.params + n - 1 {
                        assert(e.push(v)[j] == e[j]);
                        assert(e[j] == e2[p.names[j].0 as int]);
                        assert(p.names[j].0 < b.params + p.stmts.len());
                    }
                }
            }
            assert forall|c: (Seq<char>, Seq<IRVarId>)| #[trigger]
                m.calls.contains_key(c) implies e3[m.calls[c].0 as int] == Val::Oracle(
                c.0,
                bits(at_all(c.1, e3)),
            ) && all_below(c.1, e3.len()) by {
                if p.calls.contains_key(c) && m.calls[c] == p.calls[c] {
                    assert(e2[p.calls[c].0 as int] == Val::Oracle(c.0, bits(at_all(c.1, e2))));
                    assert(all_below(c.1, e2.len()));
                    assert(at_all(c.1, e3) =~= at_all(c.1, e2)) by {
                        assert forall|i: int| 0 <= i < c.1.len() implies at_all(c.1, e3)[i]
                            == at_all(c.1, e2)[i] by {
                            assert(c.1[i].0 < e2.len());
                        }
                    }
                    assert(p.calls[c].0 < b.params + p.stmts.len());
                } else {
                    let a = x->OracleCall_args;
                    assert(c == (x->OracleCall_name, renamed_bit_list(a, p.names)));
                    lemma_renamed_list(a, p.names, e, e2, (b.params + n - 1) as nat);
                    assert(all_below(c.1, e2.len())) by {
                        assert forall|i: int| 0 <= i < c.1.len() implies (#[trigger] c.1[i]).0
                            < e2.len() by {
                            assert(a[i].0 < b.params + n - 1);
                            assert(c.1[i] == p.names[a[i].0 as int]);
                        }
                    }
                    assert(at_all(c.1, e3) =~= at_all(c.1, e2)) by {
                        assert forall|i: int| 0 <= i < c.1.len() implies at_all(c.1, e3)[i]
                            == at_all(c.1, e2)[i] by {
                            assert(c.1[i].0 < e2.len());
                        }
                    }
                }
            }
        }
    }
}

/// A jump under new names goes to the same place with the same values.
proof fn lemma_renamed_jump(
    t: BIrTargetView,
    map: Seq<IRVarId>,
    env: Seq<Val>,
    env2: Seq<Val>,
    n: nat,
    params: u32,
    count: nat,
)
    requires
        renames(map, env, env2, n),
        jump_fits(t, n, params, count),
    ensures
        ({
            let t2 = BIrTargetView { block: t.block, args: renamed_bit_list(t.args, map) };
            follow(t2, env2) == follow(t, env)
        }),
{
    lemma_renamed_list(t.args, map, env, env2, n);
}

/// A block runs the same way with its repeated oracle calls merged: oracles are
/// pure.
pub proof fn law_merged_bir_block<W>(
    b: BIrBlockView,
    params: u32,
    count: nat,
    args: Seq<Val>,
    st: BirState<W>,
    out: Outside<W>,
)
    requires
        b.var_space() <= u32::MAX,
        block_fits(b, params, count),
        args.len() == b.params,
    ensures
        run_block(merged_bir_block(b), args, st, out) == run_block(b, args, st, out),
{
    let n = b.stmts.len() as int;
    lemma_merged_run(b, n, params, count, args, st, out);
    assert(b.stmts.take(n) =~= b.stmts);
    let m = bir_merged_prefix(b, n);
    let (e, _) = run_stmts(b.stmts, args, st, out);
    let (e2, _) = run_stmts(m.stmts, args, st, out);
    match b.terminator {
        BIrTermView::Jmp(t) => {
            lemma_renamed_jump(t, m.names, e, e2, b.var_space(), params, count);
        },
        BIrTermView::CondJmp { val, then_target, else_target } => {
            lemma_renamed_jump(then_target, m.names, e, e2, b.var_space(), params, count);
            lemma_renamed_jump(else_target, m.names, e, e2, b.var_space(), params, count);
            assert(e[val.0 as int] == e2[m.names[val.0 as int].0 as int]);
        },
    }
}

/// A program runs the same way with the repeated oracle calls of its blocks
/// merged.
pub proof fn law_merged_bir_program<W>(
    blocks: Seq<BIrBlockView>,
    i: int,
    args: Seq<Val>,
    st: BirState<W>,
    out: Outside<W>,
    fuel: nat,
)
    requires
        program_fits(blocks),
        forall|k: int| 0 <= k < blocks.len() ==> (#[trigger] blocks[k]).var_space() <= u32::MAX,
        0 <= i < blocks.len(),
        args.len() == blocks[0].params,
    ensures
        run(merged_bir_blocks(blocks), i, args, st, out, fuel) == run(
            blocks,
            i,
            args,
            st,
            out,
            fuel,
        ),
    decreases fuel,
{
    if fuel > 0 {
        let b = blocks[i];
        assert(block_fits(b, blocks[0].params, blocks.len()));
        assert(merged_bir_blocks(blocks)[i] == merged_bir_block(b));
        law_merged_bir_block(b, blocks[0].params, blocks.len(), args, st, out);
        let (exit, s) = run_block(b, args, st, out);
        match exit {
            Exit::Block(j, next) => {
                law_merged_bir_program(blocks, j.0 as int, next, s, out, (fuel - 1) as nat);
            },
            _ => {},
        }
    }
}

// ---------------------------------------------------------------------------
// The table
// ---------------------------------------------------------------------------

/// Whether a storage holds a part of the table.
pub open spec fn in_table(p: BirPlan, s: StorageId) -> bool {
    p.frame.base.0 <= s.0 < p.frame.base.0 + p.frame.handler_bits + all_targets(p.keys)
        * p.frame.pc_bits
}

/// The storage that a statement reads or writes, if there is one.
pub open spec fn touched(s: BIrStmtView) -> Option<StorageId> {
    match s {
        BIrStmtView::StorageRead { storage, .. } => Some(storage),
        BIrStmtView::StorageWrite { storage, .. } => Some(storage),
        BIrStmtView::ActionStoreBit { storage, .. } => Some(storage),
        _ => None,
    }
}

/// Whether no statement of the blocks reads or writes the storage of the table.
pub open spec fn keeps_off(blocks: Seq<BIrBlockView>, p: BirPlan) -> bool {
    forall|i: int, k: int|
        0 <= i < blocks.len() && 0 <= k < blocks[i].stmts.len() ==> match touched(
            #[trigger] blocks[i].stmts[k],
        ) {
            Some(s) => !in_table(p, s),
            None => true,
        }
}

/// Whether stored bits hold row `pc` of the table.
pub open spec fn holds_row(
    cells: spec_fn(StorageId, LaneId, nat) -> bool,
    p: BirPlan,
    pc: int,
) -> bool {
    let f = p.frame;
    let h = bir_rows(p)[pc] as int;
    &&& forall|k: int|
        0 <= k < f.handler_bits ==> #[trigger] cells(
            StorageId((f.base.0 + k) as u32),
            LaneId(0),
            pc as nat,
        ) == nth_bit(h as nat, k as nat)
    &&& forall|j: int, k: int|
        0 <= j < n_targets(p.keys[h]) && 0 <= k < f.pc_bits ==> #[trigger] cells(
            StorageId((first_slot(f, p.keys, h) + j * f.pc_bits + k) as u32),
            LaneId(0),
            pc as nat,
        ) == nth_bit(bir_targets(p)[pc][j].0 as nat, k as nat)
}

/// Whether stored bits hold the table.
pub open spec fn holds_table(cells: spec_fn(StorageId, LaneId, nat) -> bool, p: BirPlan) -> bool {
    forall|pc: int| 0 <= pc < p.blocks.len() ==> #[trigger] holds_row(cells, p, pc)
}

/// Whether the second state is the first one with the table beside it.
pub open spec fn beside_table<W>(st: BirState<W>, st2: BirState<W>, p: BirPlan) -> bool {
    &&& st.world == st2.world
    &&& forall|s: StorageId, l: LaneId, a: nat|
        !in_table(p, s) ==> #[trigger] (st.cells)(s, l, a) == (st2.cells)(s, l, a)
    &&& holds_table(st2.cells, p)
}

/// The number of targets before a handler and its own are among all.
proof fn lemma_targets_before(keys: Seq<BIrBlockView>, h: int)
    requires
        0 <= h < keys.len(),
    ensures
        all_targets(keys.take(h)) + n_targets(keys[h]) <= all_targets(keys),
    decreases keys.len(),
{
    if h == keys.len() - 1 {
        assert(keys.take(h) =~= keys.drop_last());
    } else {
        lemma_targets_before(keys.drop_last(), h);
        assert(keys.drop_last().take(h) =~= keys.take(h));
    }
}

/// The storage of a bit of a target is part of the table.
proof fn lemma_slot_in_table(p: BirPlan, h: int, j: int, k: int)
    requires
        0 <= h < p.keys.len(),
        0 <= j < n_targets(p.keys[h]),
        0 <= k < p.frame.pc_bits,
    ensures
        p.frame.base.0 + p.frame.handler_bits <= first_slot(p.frame, p.keys, h) + j
            * p.frame.pc_bits + k < p.frame.base.0 + p.frame.handler_bits + all_targets(p.keys)
            * p.frame.pc_bits,
{
    lemma_targets_before(p.keys, h);
    let b = p.frame.pc_bits as int;
    let t0 = all_targets(p.keys.take(h)) as int;
    let t1 = all_targets(p.keys) as int;
    assert(t0 * b + j * b + k < t1 * b) by (nonlinear_arith)
        requires
            t0 + j + 1 <= t1,
            k < b,
            0 <= b,
    ;
    assert(0 <= t0 * b && 0 <= j * b) by (nonlinear_arith)
        requires
            0 <= t0,
            0 <= j,
            0 <= b,
    ;
}

/// A statement that keeps off the table does the same beside it.
proof fn lemma_act_beside<W>(
    x: BIrStmtView,
    env: Seq<Val>,
    st: BirState<W>,
    st2: BirState<W>,
    out: Outside<W>,
    p: BirPlan,
)
    requires
        beside_table(st, st2, p),
        touched(x) matches Some(s) ==> !in_table(p, s),
        p.frame.base.0 + p.frame.handler_bits + all_targets(p.keys) * p.frame.pc_bits <= u32::MAX,
        forall|pc: int| 0 <= pc < p.blocks.len() ==> (#[trigger] bir_rows(p)[pc]) < p.keys.len(),
    ensures
        ({
            let (v, s) = act(resolved(x, env), st, out);
            let (v2, s2) = act(resolved(x, env), st2, out);
            v == v2 && beside_table(s, s2, p)
        }),
{
    let (v, s) = act(resolved(x, env), st, out);
    let (v2, s2) = act(resolved(x, env), st2, out);
    match touched(x) {
        Some(at) => {
            assert(holds_table(s2.cells, p)) by {
                assert forall|pc: int| 0 <= pc < p.blocks.len() implies #[trigger] holds_row(
                    s2.cells,
                    p,
                    pc,
                ) by {
                    assert(holds_row(st2.cells, p, pc));
                    lemma_row_kept(st2.cells, s2.cells, p, pc, at);
                }
            }
        },
        None => {
            assert(s2.cells == st2.cells);
        },
    }
}

/// A row stays in place where only a storage beside the table changes.
proof fn lemma_row_kept(
    c: spec_fn(StorageId, LaneId, nat) -> bool,
    c2: spec_fn(StorageId, LaneId, nat) -> bool,
    p: BirPlan,
    pc: int,
    other: StorageId,
)
    requires
        holds_row(c, p, pc),
        !in_table(p, other),
        0 <= pc < p.blocks.len(),
        bir_rows(p)[pc] < p.keys.len(),
        p.frame.base.0 + p.frame.handler_bits + all_targets(p.keys) * p.frame.pc_bits <= u32::MAX,
        forall|s: StorageId, l: LaneId, a: nat|
            s != other ==> #[trigger] c2(s, l, a) == c(s, l, a),
    ensures
        holds_row(c2, p, pc),
{
    let f = p.frame;
    let h = bir_rows(p)[pc] as int;
    assert(0 <= all_targets(p.keys) * f.pc_bits) by (nonlinear_arith);
    assert forall|k: int| 0 <= k < f.handler_bits implies #[trigger] c2(
        StorageId((f.base.0 + k) as u32),
        LaneId(0),
        pc as nat,
    ) == nth_bit(h as nat, k as nat) by {
        let s = StorageId((f.base.0 + k) as u32);
        assert(in_table(p, s));
        assert(c2(s, LaneId(0), pc as nat) == c(s, LaneId(0), pc as nat));
    }
    assert forall|j: int, k: int|
        0 <= j < n_targets(p.keys[h]) && 0 <= k < f.pc_bits implies #[trigger] c2(
        StorageId((first_slot(f, p.keys, h) + j * f.pc_bits + k) as u32),
        LaneId(0),
        pc as nat,
    ) == nth_bit(bir_targets(p)[pc][j].0 as nat, k as nat) by {
        lemma_slot_in_table(p, h, j, k);
        let s = StorageId((first_slot(f, p.keys, h) + j * f.pc_bits + k) as u32);
        assert(in_table(p, s));
        assert(c2(s, LaneId(0), pc as nat) == c(s, LaneId(0), pc as nat));
    }
}

// ---------------------------------------------------------------------------
// Numbers in bits
// ---------------------------------------------------------------------------

/// The first `n` bits of a number.
pub open spec fn number_bits(i: nat, n: nat) -> Seq<bool> {
    Seq::new(n, |k: int| nth_bit(i, k as nat))
}

/// The bits of a number denote it, if there are enough of them.
proof fn lemma_number_bits(i: nat, n: nat)
    requires
        i < pow2(n),
    ensures
        addr_of(number_bits(i, n)) == i,
    decreases n,
{
    lemma2_to64();
    let b = number_bits(i, n);
    if n == 0 {
    } else {
        lemma_pow2_unfold(n);
        lemma_number_bits(i / 2, (n - 1) as nat);
        assert(b[0] == nth_bit(i, 0));
        assert(b.drop_first() =~= number_bits(i / 2, (n - 1) as nat)) by {
            assert forall|k: int| 0 <= k < n - 1 implies b.drop_first()[k] == number_bits(
                i / 2,
                (n - 1) as nat,
            )[k] by {
                assert(b[k + 1] == nth_bit(i, (k + 1) as nat));
            }
        }
    }
}

/// A number as values, one for each bit.
pub open spec fn number_vals(i: nat, n: nat) -> Seq<Val> {
    Seq::new(n, |k: int| Val::Bit(nth_bit(i, k as nat)))
}

// ---------------------------------------------------------------------------
// Steps of the virtual program
// ---------------------------------------------------------------------------

/// What is known of a virtualisation.
pub open spec fn ready(p: BirPlan) -> bool {
    let f = p.frame;
    &&& p.blocks.len() > 0
    &&& p.keys == distinct(bir_block_keys(p.blocks))
    &&& f.n_handlers == p.keys.len()
    &&& f.pc_bits == bits_for(p.blocks.len())
    &&& f.handler_bits == bits_for(p.keys.len())
    &&& f.params == p.blocks[0].params
    &&& program_fits(p.blocks)
    &&& forall|h: int|
        0 <= h < p.keys.len() ==> f.full() + n_targets(#[trigger] p.keys[h]) * f.pc_bits
            + p.keys[h].stmts.len() <= u32::MAX
    &&& f.full() + 3 * f.handler_bits <= u32::MAX
    &&& 2 + f.interior() + p.keys.len() <= u32::MAX
    &&& f.base.0 + f.handler_bits + all_targets(p.keys) * f.pc_bits <= u32::MAX
    &&& keeps_off(p.blocks, p)
}

/// The handler of each row is there, and has the key of the block.
proof fn lemma_row(p: BirPlan, i: int)
    requires
        ready(p),
        0 <= i < p.blocks.len(),
    ensures
        bir_rows(p)[i] < p.keys.len(),
        p.keys[bir_rows(p)[i] as int] == bir_key(p.blocks[i]),
{
    let ks = bir_block_keys(p.blocks);
    law_distinct(ks);
    assert(ks[i] == bir_key(p.blocks[i]));
    assert(ks.contains(ks[i]));
    let k = bir_key(p.blocks[i]);
    assert(p.keys.contains(k));
    p.keys.index_of_first_ensures(k);
}

/// The state and the row, as values.
pub open spec fn packed(p: BirPlan, args: Seq<Val>, pc: nat) -> Seq<Val> {
    args + number_vals(pc, p.frame.pc_bits)
}

/// Reading bits of the current row, each from its own storage.
proof fn lemma_reads<W>(
    p: BirPlan,
    args: Seq<Val>,
    pc: int,
    slot: int,
    n: nat,
    env: Seq<Val>,
    st: BirState<W>,
    out: Outside<W>,
)
    requires
        ready(p),
        args.len() == p.frame.params,
        0 <= pc < p.blocks.len(),
        env.len() >= p.frame.full(),
        forall|j: int| 0 <= j < p.frame.full() ==> #[trigger] env[j] == packed(p, args, pc as nat)[j],
    ensures
        ({
            let f = p.frame;
            let (e, s) = run_stmts(Seq::new(n, |i: int| f.read(slot + i)), env, st, out);
            &&& s == st
            &&& e == env + Seq::new(
                n,
                |i: int| Val::Bit((st.cells)(StorageId((slot + i) as u32), LaneId(0), pc as nat)),
            )
        }),
    decreases n,
{
    let f = p.frame;
    let ss = Seq::new(n, |i: int| f.read(slot + i));
    let got = Seq::new(
        n,
        |i: int| Val::Bit((st.cells)(StorageId((slot + i) as u32), LaneId(0), pc as nat)),
    );
    if n == 0 {
        assert(env + got =~= env);
    } else {
        let m = (n - 1) as nat;
        lemma_reads(p, args, pc, slot, m, env, st, out);
        let ss0 = Seq::new(m, |i: int| f.read(slot + i));
        let got0 = Seq::new(
            m,
            |i: int| Val::Bit((st.cells)(StorageId((slot + i) as u32), LaneId(0), pc as nat)),
        );
        assert(ss.drop_last() =~= ss0);
        let e = env + got0;
        let addr = at_all(f.pc_addr(), e);
        assert(bits(addr) =~= number_bits(pc as nat, f.pc_bits)) by {
            assert forall|k: int| 0 <= k < f.pc_bits implies bits(addr)[k] == number_bits(
                pc as nat,
                f.pc_bits,
            )[k] by {
                assert(f.pc_addr()[k].0 == f.params + k);
                assert(e[f.params + k] == env[f.params + k]);
                assert(env[f.params + k] == packed(p, args, pc as nat)[f.params + k]);
                assert(packed(p, args, pc as nat)[f.params + k] == Val::Bit(
                    nth_bit(pc as nat, k as nat),
                ));
            }
        }
        law_bits_least(p.blocks.len());
        lemma_number_bits(pc as nat, f.pc_bits);
        assert(ss.last() == f.read(slot + m));
        assert(env + got =~= e.push(got[m as int]));
    }
}

/// Whether the first `n` bits of two numbers agree.
pub open spec fn agree(i: nat, h: nat, n: nat) -> bool {
    forall|k: nat| k < n ==> #[trigger] nth_bit(i, k) == nth_bit(h, k)
}

/// The test of a handler index gives whether it is the one tested for.
proof fn lemma_test<W>(
    f: BirFrame,
    i: nat,
    n: nat,
    h: nat,
    env: Seq<Val>,
    st: BirState<W>,
    out: Outside<W>,
)
    requires
        1 <= n <= f.handler_bits,
        f.full() + 3 * f.handler_bits <= u32::MAX,
        env.len() == f.full() + f.handler_bits,
        forall|k: int|
            0 <= k < f.handler_bits ==> #[trigger] env[f.full() + k] == Val::Bit(
                nth_bit(h, k as nat),
            ),
    ensures
        ({
            let t = is_handler(f, i, n);
            let (e, s) = run_stmts(t.stmts, env, st, out);
            &&& s == st
            &&& t.acc.0 < e.len()
            &&& e[t.acc.0 as int] == Val::Bit(agree(i, h, n))
        }),
    decreases n,
{
    lemma_is_handler_len(f, i, n);
    let t = is_handler(f, i, n);
    let w = f.full() + (n - 1);
    let bit = IRVarId(w as u32);
    assert(env[w] == Val::Bit(nth_bit(h, (n - 1) as nat)));
    if n == 1 {
        if nth_bit(i, 0) {
            assert(run_stmts(t.stmts, env, st, out) == (env, st));
        } else {
            assert(t.stmts =~= seq![BIrStmtView::Not(bit)]);
            assert(t.stmts.drop_last() =~= Seq::empty());
            assert(t.stmts.last() == BIrStmtView::Not::<IRVarId, StorageId>(bit));
            assert(run_stmts(t.stmts.drop_last(), env, st, out) == (env, st));
        }
        assert(agree(i, h, 1) == (nth_bit(i, 0) == nth_bit(h, 0)));
    } else {
        let m = (n - 1) as nat;
        lemma_is_handler_len(f, i, m);
        lemma_test(f, i, m, h, env, st, out);
        let before = is_handler(f, i, m);
        let (e, s) = run_stmts(before.stmts, env, st, out);
        lemma_run_length(before.stmts, env, st, out);
        assert(e[w] == env[w]);
        assert(agree(i, h, n) == (agree(i, h, m) && nth_bit(i, m) == nth_bit(h, m))) by {
            if agree(i, h, m) && nth_bit(i, m) == nth_bit(h, m) {
                assert forall|k: nat| k < n implies #[trigger] nth_bit(i, k) == nth_bit(h, k) by {
                    if k == m {
                    }
                }
            }
        }
        if nth_bit(i, m) {
            assert(t.stmts.drop_last() =~= before.stmts);
            assert(t.stmts.last() == BIrStmtView::And::<IRVarId, StorageId>(before.acc, bit));
        } else {
            let no = BIrStmtView::Not::<IRVarId, StorageId>(bit);
            let mid = before.stmts.push(no);
            let at2 = IRVarId((f.full() + f.handler_bits + before.stmts.len()) as u32);
            assert(t.stmts.drop_last() =~= mid);
            assert(mid.drop_last() =~= before.stmts);
            assert(mid.last() == no);
            assert(t.stmts.last() == BIrStmtView::And::<IRVarId, StorageId>(before.acc, at2));
            let e2 = e.push(Val::Bit(!nth_bit(h, m)));
            assert(run_stmts(mid, env, st, out) == (e2, st));
            assert(e2[before.acc.0 as int] == e[before.acc.0 as int]);
            assert(at2.0 == e.len());
        }
    }
}

/// The blocks of the virtual program.
pub open spec fn virtual_blocks(p: BirPlan) -> Seq<BIrBlockView> {
    bir_module(p.frame, p.keys)
}

/// Where the blocks of the virtual program stand.
proof fn lemma_places(p: BirPlan)
    requires
        ready(p),
    ensures
        p.keys.len() > 0,
        virtual_blocks(p)[0] == bir_setup_block(p.frame),
        forall|k: int|
            0 <= k < dispatcher_nodes(p.frame).len() ==> #[trigger] virtual_blocks(p)[1 + k]
                == dispatcher_nodes(p.frame)[k],
        forall|h: int|
            0 <= h < p.keys.len() ==> virtual_blocks(p)[#[trigger] p.frame.handler_bid(h) as int]
                == bir_handler(p.frame, p.keys[h], first_slot(p.frame, p.keys, h)),
        forall|h: int|
            0 <= h < p.keys.len() ==> #[trigger] p.frame.handler_bid(h) < virtual_blocks(p).len(),
        dispatcher_nodes(p.frame).len() == p.frame.interior() + 1,
        virtual_blocks(p).len() == 2 + p.frame.interior() + p.keys.len(),
{
    lemma_row(p, 0);
    let f = p.frame;
    let a = seq![bir_setup_block(f)];
    let b = dispatcher_nodes(f);
    let c = Seq::new(
        p.keys.len(),
        |h: int| bir_handler(f, p.keys[h], first_slot(f, p.keys, h)),
    );
    assert(virtual_blocks(p) == a + b + c);
    assert forall|h: int| 0 <= h < p.keys.len() implies virtual_blocks(
        p,
    )[#[trigger] p.frame.handler_bid(h) as int] == bir_handler(
        p.frame,
        p.keys[h],
        first_slot(p.frame, p.keys, h),
    ) by {
        assert((a + b + c)[a.len() + b.len() + h] == c[h]);
    }
}

/// The state and the row are handed on as they are.
proof fn lemma_pass_on(p: BirPlan, env: Seq<Val>, args: Seq<Val>, pc: nat)
    requires
        args.len() == p.frame.params,
        p.frame.full() <= u32::MAX,
        env.len() >= p.frame.full(),
        forall|j: int| 0 <= j < p.frame.full() ==> #[trigger] env[j] == packed(p, args, pc)[j],
    ensures
        at_all(p.frame.state_pc(), env) == packed(p, args, pc),
{
    let a = at_all(p.frame.state_pc(), env);
    let b = packed(p, args, pc);
    assert forall|j: int| 0 <= j < b.len() implies a[j] == b[j] by {
        assert(p.frame.state_pc()[j].0 == j);
        assert(env[j] == b[j]);
    }
    assert(a =~= b);
}

/// From the block of the dispatcher that tests for handler `k`, with a row
/// whose handler is `k` or a later one, control reaches that handler with the
/// state and the row unchanged, in `d` blocks.
proof fn lemma_dispatch<W>(
    p: BirPlan,
    k: int,
    args: Seq<Val>,
    pc: int,
    st: BirState<W>,
    out: Outside<W>,
) -> (d: nat)
    requires
        ready(p),
        args.len() == p.frame.params,
        0 <= pc < p.blocks.len(),
        holds_row(st.cells, p, pc),
        0 <= k <= bir_rows(p)[pc],
        k < dispatcher_nodes(p.frame).len(),
    ensures
        forall|fuel: nat|
            run(virtual_blocks(p), 1 + k, packed(p, args, pc as nat), st, out, d + fuel)
                == #[trigger] run(
                virtual_blocks(p),
                p.frame.handler_bid(bir_rows(p)[pc] as int) as int,
                packed(p, args, pc as nat),
                st,
                out,
                fuel,
            ),
    decreases p.keys.len() - k,
{
    lemma_places(p);
    lemma_row(p, pc);
    let f = p.frame;
    let h = bir_rows(p)[pc] as int;
    let vb = virtual_blocks(p);
    let state = packed(p, args, pc as nat);
    let node = dispatcher_nodes(f)[k];
    assert(vb[1 + k] == node);
    lemma_reads(p, args, pc, f.base.0 as int, f.handler_bits, state, st, out);
    let reads = f.index_reads();
    assert(reads =~= Seq::new(f.handler_bits, |i: int| f.read(f.base.0 + i)));
    let e = run_stmts(reads, state, st, out).0;
    assert(state.len() == f.full());
    if f.n_handlers <= 1 {
        assert(k == 0 && h == 0);
        lemma_pass_on(p, e, args, pc as nat);
        assert(run_block(node, state, st, out) == (
            Exit::Block(IRBlockId(f.handler_bid(0)), state),
            st,
        ));
        assert forall|fuel: nat|
            run(vb, 1 + k, state, st, out, 1 + fuel) == #[trigger] run(
                vb,
                f.handler_bid(h) as int,
                state,
                st,
                out,
                fuel,
            ) by {}
        1
    } else {
        let t = is_handler(f, k as nat, f.handler_bits);
        assert(f.handler_bits >= 1);
        assert forall|i: int| 0 <= i < f.handler_bits implies #[trigger] e[f.full() + i]
            == Val::Bit(nth_bit(h as nat, i as nat)) by {
            assert((st.cells)(StorageId((f.base.0 + i) as u32), LaneId(0), pc as nat) == nth_bit(
                h as nat,
                i as nat,
            ));
        }
        lemma_test(f, k as nat, f.handler_bits, h as nat, e, st, out);
        lemma_run_both(reads, t.stmts, state, st, out);
        let e2 = run_stmts(t.stmts, e, st, out).0;
        lemma_run_length(t.stmts, e, st, out);
        assert forall|j: int| 0 <= j < f.full() implies #[trigger] e2[j] == state[j] by {
            assert(e2[j] == e[j]);
            assert(e[j] == state[j]);
        }
        lemma_pass_on(p, e2, args, pc as nat);
        if agree(k as nat, h as nat, f.handler_bits) {
            law_bits_determine(p.keys.len(), k as nat, h as nat);
        }
        assert(agree(k as nat, h as nat, f.handler_bits) == (k == h));
        assert(node == dispatch_node(f, k));
        if k == h {
            assert(run_block(node, state, st, out) == (
                Exit::Block(IRBlockId(f.handler_bid(k)), state),
                st,
            ));
            assert forall|fuel: nat|
                run(vb, 1 + k, state, st, out, 1 + fuel) == #[trigger] run(
                    vb,
                    f.handler_bid(h) as int,
                    state,
                    st,
                    out,
                    fuel,
                ) by {}
            1
        } else if k + 2 == f.n_handlers {
            assert(h == k + 1);
            assert(run_block(node, state, st, out) == (
                Exit::Block(IRBlockId(f.handler_bid(k + 1)), state),
                st,
            ));
            assert forall|fuel: nat|
                run(vb, 1 + k, state, st, out, 1 + fuel) == #[trigger] run(
                    vb,
                    f.handler_bid(h) as int,
                    state,
                    st,
                    out,
                    fuel,
                ) by {}
            1
        } else {
            let d = lemma_dispatch(p, k + 1, args, pc, st, out);
            assert(run_block(node, state, st, out) == (
                Exit::Block(IRBlockId((2 + k) as u32), state),
                st,
            ));
            assert forall|fuel: nat|
                run(vb, 1 + k, state, st, out, 1 + d + fuel) == #[trigger] run(
                    vb,
                    f.handler_bid(h) as int,
                    state,
                    st,
                    out,
                    fuel,
                ) by {
                assert(run(vb, 1 + k, state, st, out, 1 + d + fuel) == run(
                    vb,
                    2 + k,
                    state,
                    st,
                    out,
                    d + fuel,
                ));
            }
            1 + d
        }
    }
}

// ---------------------------------------------------------------------------
// Handlers
// ---------------------------------------------------------------------------

/// The first `n` statements of a handler behind its reads.
spec fn handler_stmts(f: BirFrame, key: BIrBlockView, at: nat, n: nat) -> Seq<BIrStmtView> {
    Seq::new(n, |i: int| renamed_bir_stmt(key.stmts[i], handler_vars(f, at, i as nat)))
}

/// The statements of a handler do what those of the block do.
proof fn lemma_handler_stmts<W>(
    p: BirPlan,
    i: int,
    n: nat,
    at: nat,
    args: Seq<Val>,
    env: Seq<Val>,
    st: BirState<W>,
    st2: BirState<W>,
    out: Outside<W>,
)
    requires
        ready(p),
        0 <= i < p.blocks.len(),
        n <= p.blocks[i].stmts.len(),
        args.len() == p.frame.params,
        env.len() == at,
        at >= p.frame.params,
        at + p.blocks[i].stmts.len() <= u32::MAX,
        forall|j: int| 0 <= j < args.len() ==> #[trigger] args[j] == env[j],
        beside_table(st, st2, p),
    ensures
        ({
            let b = p.blocks[i];
            let (e, s) = run_stmts(b.stmts.take(n as int), args, st, out);
            let (e2, s2) = run_stmts(handler_stmts(p.frame, bir_key(b), at, n), env, st2, out);
            &&& e.len() == p.frame.params + n
            &&& e2.len() == at + n
            &&& beside_table(s, s2, p)
            &&& renames(handler_vars(p.frame, at, n), e, e2, (p.frame.params + n) as nat)
            &&& forall|j: int| 0 <= j < at ==> e2[j] == #[trigger] env[j]
        }),
    decreases n,
{
    let f = p.frame;
    let b = p.blocks[i];
    let key = bir_key(b);
    assert(block_fits(b, p.blocks[0].params, p.blocks.len()));
    lemma_run_length(b.stmts.take(n as int), args, st, out);
    lemma_run_length(handler_stmts(f, key, at, n), env, st2, out);
    if n == 0 {
        assert(b.stmts.take(0) =~= Seq::empty());
        assert(handler_stmts(f, key, at, 0) =~= Seq::empty());
        let map = handler_vars(f, at, 0);
        assert forall|j: int| 0 <= j < f.params implies #[trigger] args[j] == env[map[j].0 as int] by {}
    } else {
        let m = (n - 1) as nat;
        lemma_handler_stmts(p, i, m, at, args, env, st, st2, out);
        assert(b.stmts.take(n as int).drop_last() =~= b.stmts.take(m as int));
        let hs = handler_stmts(f, key, at, n);
        assert(hs.drop_last() =~= handler_stmts(f, key, at, m));
        let (e, s) = run_stmts(b.stmts.take(m as int), args, st, out);
        let (e2, s2) = run_stmts(handler_stmts(f, key, at, m), env, st2, out);
        let x = b.stmts[m as int];
        let map = handler_vars(f, at, m);
        assert(uses_below(x, (b.params + m) as nat));
        lemma_renamed_stmt(x, map, e, e2, (f.params + m) as nat);
        assert(touched(x) matches Some(y) ==> !in_table(p, y)) by {
            assert(p.blocks[i].stmts[m as int] == x);
        }
        assert forall|pc: int| 0 <= pc < p.blocks.len() implies (#[trigger] bir_rows(p)[pc])
            < p.keys.len() by {
            lemma_row(p, pc);
        }
        lemma_act_beside(x, e, s, s2, out, p);
        let v = act(resolved(x, e), s, out).0;
        let map2 = handler_vars(f, at, n);
        assert forall|j: int| 0 <= j < f.params + n implies #[trigger] e.push(v)[j]
            == e2.push(v)[map2[j].0 as int] by {
            if j < f.params + m {
                assert(map2[j] == map[j]);
                assert(e.push(v)[j] == e[j]);
                assert(e[j] == e2[map[j].0 as int]);
                if j < f.params {
                } else {
                    assert(map[j].0 == at + (j - f.params));
                }
            } else {
                assert(map2[j].0 == at + m);
            }
        }
    }
}

/// A jump of a handler goes where the jump of the block goes: out of the
/// program with the same values, or to the dispatcher with the row of the
/// block and the same values.
proof fn lemma_handler_jump<W>(
    p: BirPlan,
    i: int,
    t: BIrTargetView,
    j: nat,
    vars: Seq<IRVarId>,
    n: nat,
    slot: int,
    e: Seq<Val>,
    e2: Seq<Val>,
    st2: BirState<W>,
)
    requires
        ready(p),
        0 <= i < p.blocks.len(),
        jump_fits(t, n, p.frame.params, p.blocks.len()),
        renames(vars, e, e2, n),
        holds_row(st2.cells, p, i),
        slot == first_slot(p.frame, p.keys, bir_rows(p)[i] as int),
        t.block is Block ==> j < n_targets(bir_key(p.blocks[i])) && bir_targets(p)[i][j as int]
            == t.block->Block_0,
        forall|k: int|
            0 <= k < n_targets(bir_key(p.blocks[i])) * p.frame.pc_bits ==> #[trigger] e2[
            p.frame.full() + k] == Val::Bit(
                (st2.cells)(StorageId((slot + k) as u32), LaneId(0), i as nat),
            ),
        p.frame.full() + n_targets(bir_key(p.blocks[i])) * p.frame.pc_bits <= u32::MAX,
    ensures
        ({
            let c = crate::virt::canon::canon_bir_dest(t);
            let got = follow(rewritten_target(p.frame, c, vars, j), e2);
            match follow(t, e) {
                Exit::Return(v) => got == Exit::Return(v),
                Exit::Block(b, next) => next.len() == p.frame.params && got == Exit::Block(
                    IRBlockId(BIR_DISPATCHER_BID),
                    packed(p, next, b.0 as nat),
                ),
                Exit::Elsewhere => false,
            }
        }),
{
    let f = p.frame;
    lemma_row(p, i);
    lemma_renamed_list(t.args, vars, e, e2, n);
    let c = crate::virt::canon::canon_bir_dest(t);
    let args = renamed_bit_list(t.args, vars);
    match t.block {
        IRBlockTargetId::Block(b) => {
            let next = at_all(t.args, e);
            let r = rewritten_target(f, c, vars, j);
            let got = at_all(r.args, e2);
            let want = packed(p, next, b.0 as nat);
            let key = bir_key(p.blocks[i]);
            assert forall|k: int| 0 <= k < want.len() implies got[k] == want[k] by {
                if k < f.params {
                    assert(r.args[k] == args[k]);
                    assert(at_all(args, e2)[k] == next[k]);
                } else {
                    let q = k - f.params;
                    let u = j * f.pc_bits + q;
                    assert(0 <= u < n_targets(key) * f.pc_bits) by (nonlinear_arith)
                        requires
                            u == j * f.pc_bits + q,
                            0 <= q < f.pc_bits,
                            0 <= j < n_targets(key),
                    ;
                    assert(r.args[k] == target_bits(f, j)[q]);
                    assert(r.args[k].0 == f.full() + u);
                    assert(e2[f.full() + u] == Val::Bit(
                        (st2.cells)(StorageId((slot + u) as u32), LaneId(0), i as nat),
                    ));
                    assert(slot + u == first_slot(f, p.keys, bir_rows(p)[i] as int) + j * f.pc_bits
                        + q);
                    assert((st2.cells)(
                        StorageId(
                            (first_slot(f, p.keys, bir_rows(p)[i] as int) + j * f.pc_bits + q) as u32,
                        ),
                        LaneId(0),
                        i as nat,
                    ) == nth_bit(bir_targets(p)[i][j as int].0 as nat, q as nat));
                }
            }
            assert(got =~= want);
        },
        _ => {},
    }
}

/// A handler leaves like the block of the row does.
proof fn lemma_handler<W>(
    p: BirPlan,
    i: int,
    args: Seq<Val>,
    st: BirState<W>,
    st2: BirState<W>,
    out: Outside<W>,
)
    requires
        ready(p),
        0 <= i < p.blocks.len(),
        args.len() == p.frame.params,
        beside_table(st, st2, p),
    ensures
        ({
            let h = bir_rows(p)[i] as int;
            let (exit, s) = run_block(p.blocks[i], args, st, out);
            let (exit2, s2) = run_block(
                bir_handler(p.frame, p.keys[h], first_slot(p.frame, p.keys, h)),
                packed(p, args, i as nat),
                st2,
                out,
            );
            &&& beside_table(s, s2, p)
            &&& match exit {
                Exit::Return(v) => exit2 == Exit::Return(v),
                Exit::Block(b, next) => b.0 < p.blocks.len() && next.len() == p.frame.params
                    && exit2 == Exit::Block(
                    IRBlockId(BIR_DISPATCHER_BID),
                    packed(p, next, b.0 as nat),
                ),
                Exit::Elsewhere => false,
            }
        }),
{
    let f = p.frame;
    lemma_row(p, i);
    let b = p.blocks[i];
    let h = bir_rows(p)[i] as int;
    let key = p.keys[h];
    let slot = first_slot(f, p.keys, h);
    let n_reads = n_targets(key) * f.pc_bits;
    let at = f.full() + n_reads;
    let state = packed(p, args, i as nat);
    assert(block_fits(b, p.blocks[0].params, p.blocks.len()));
    assert(holds_row(st2.cells, p, i));
    assert(f.full() + n_targets(p.keys[h]) * f.pc_bits + p.keys[h].stmts.len() <= u32::MAX);
    let reads = Seq::new(n_reads, |k: int| f.read(slot + k));
    lemma_reads(p, args, i, slot as int, n_reads, state, st2, out);
    let env = run_stmts(reads, state, st2, out).0;
    assert(env.len() == at);
    let len = b.stmts.len();
    let hs = handler_stmts(f, key, at, len);
    assert forall|j: int| 0 <= j < args.len() implies #[trigger] args[j] == env[j] by {
        assert(env[j] == state[j]);
    }
    lemma_handler_stmts(p, i, len, at, args, env, st, st2, out);
    assert(b.stmts.take(len as int) =~= b.stmts);
    let handler = bir_handler(f, key, slot);
    assert(handler.stmts =~= reads + hs);
    lemma_run_both(reads, hs, state, st2, out);
    let (e, s) = run_stmts(b.stmts, args, st, out);
    let (e2, s2) = run_stmts(hs, env, st2, out);
    let vars = handler_vars(f, at, len);
    let n = b.var_space();
    assert forall|k: int| 0 <= k < n_reads implies #[trigger] e2[f.full() + k] == Val::Bit(
        (st2.cells)(StorageId((slot + k) as u32), LaneId(0), i as nat),
    ) by {
        assert(e2[f.full() + k] == env[f.full() + k]);
    }
    assert(bir_targets(p)[i] == lifted_bir_targets(b.terminator));
    match b.terminator {
        BIrTermView::Jmp(t) => {
            lemma_handler_jump(p, i, t, 0, vars, n, slot as int, e, e2, st2);
        },
        BIrTermView::CondJmp { val, then_target, else_target } => {
            let j = lifted_dest(then_target.block).len();
            lemma_handler_jump(p, i, then_target, 0, vars, n, slot as int, e, e2, st2);
            lemma_handler_jump(p, i, else_target, j, vars, n, slot as int, e, e2, st2);
            assert(e[val.0 as int] == e2[vars[val.0 as int].0 as int]);
            let c = crate::virt::canon::canon_bir_dest(then_target);
            assert(lifted_dest(c.block).len() == j);
        },
    }
}

/// What a program returns from block `i` on, the virtual one returns from its
/// dispatcher on, in row `i` and with the table beside the stored bits.
proof fn lemma_simulates<W>(
    p: BirPlan,
    i: int,
    args: Seq<Val>,
    st: BirState<W>,
    st2: BirState<W>,
    out: Outside<W>,
    fuel: nat,
) -> (m: nat)
    requires
        ready(p),
        0 <= i < p.blocks.len(),
        args.len() == p.frame.params,
        beside_table(st, st2, p),
        run(p.blocks, i, args, st, out, fuel) is Some,
    ensures
        ({
            let want = run(p.blocks, i, args, st, out, fuel)->0;
            let got = run(virtual_blocks(p), 1, packed(p, args, i as nat), st2, out, m);
            got matches Some((vals, s)) && vals == want.0 && beside_table(want.1, s, p)
        }),
    decreases fuel,
{
    lemma_places(p);
    lemma_row(p, i);
    let f = p.frame;
    let h = bir_rows(p)[i] as int;
    let vb = virtual_blocks(p);
    let state = packed(p, args, i as nat);
    assert(holds_row(st2.cells, p, i));
    let d = lemma_dispatch(p, 0, args, i, st2, out);
    lemma_handler(p, i, args, st, st2, out);
    let (exit, s) = run_block(p.blocks[i], args, st, out);
    let handler = bir_handler(f, p.keys[h], first_slot(f, p.keys, h));
    let (exit2, s2) = run_block(handler, state, st2, out);
    let at = f.handler_bid(h) as int;
    assert(vb[at] == handler);
    match exit {
        Exit::Return(v) => {
            assert(run(vb, at, state, st2, out, 1) == Some((v, s2)));
            assert(run(vb, 1, state, st2, out, d + 1) == run(vb, at, state, st2, out, 1));
            d + 1
        },
        Exit::Block(b, next) => {
            let m = lemma_simulates(p, b.0 as int, next, s, s2, out, (fuel - 1) as nat);
            let k: nat = m + 1;
            assert(run(vb, at, state, st2, out, k) == run(
                vb,
                1,
                packed(p, next, b.0 as nat),
                s2,
                out,
                m,
            ));
            assert(run(vb, 1, state, st2, out, d + k) == run(vb, at, state, st2, out, k));
            d + k
        },
        Exit::Elsewhere => { 0 },
    }
}

// ---------------------------------------------------------------------------
// Merged blocks fit
// ---------------------------------------------------------------------------

/// New names below `m` keep a list below `m`.
proof fn lemma_list_below(vs: Seq<IRVarId>, map: Seq<IRVarId>, n: nat, m: nat)
    requires
        all_below(vs, n),
        map.len() >= n,
        all_below(map, m),
    ensures
        all_below(renamed_bit_list(vs, map), m),
{
    let r = renamed_bit_list(vs, map);
    assert forall|i: int| 0 <= i < r.len() implies (#[trigger] r[i]).0 < m by {
        assert(vs[i].0 < n);
        assert(r[i] == map[vs[i].0 as int]);
    }
}

/// New names below `m` keep a statement below `m`, and its storage.
proof fn lemma_stmt_below(s: BIrStmtView, map: Seq<IRVarId>, n: nat, m: nat)
    requires
        uses_below(s, n),
        map.len() >= n,
        all_below(map, m),
    ensures
        uses_below(renamed_bir_stmt(s, map), m),
        touched(renamed_bir_stmt(s, map)) == touched(s),
{
    match s {
        BIrStmtView::OracleCall { args, .. } => lemma_list_below(args, map, n, m),
        BIrStmtView::OracleBit { args, .. } => lemma_list_below(args, map, n, m),
        BIrStmtView::ActionCall { args, fallback, .. } => {
            lemma_list_below(args, map, n, m);
            lemma_list_below(fallback, map, n, m);
        },
        BIrStmtView::ActionStoreBit { args, addr, .. } => {
            lemma_list_below(args, map, n, m);
            lemma_list_below(addr, map, n, m);
        },
        BIrStmtView::StorageRead { addr, .. } => lemma_list_below(addr, map, n, m),
        BIrStmtView::StorageWrite { addr, .. } => lemma_list_below(addr, map, n, m),
        _ => {},
    }
}

/// What is left of the first `n` statements uses variables behind their
/// definitions and the storage that the block uses.
proof fn lemma_merged_below(b: BIrBlockView, n: int, params: u32, count: nat)
    requires
        0 <= n <= b.stmts.len(),
        b.var_space() <= u32::MAX,
        block_fits(b, params, count),
    ensures
        forall|i: int|
            0 <= i < bir_merged_prefix(b, n).stmts.len() ==> uses_below(
                #[trigger] bir_merged_prefix(b, n).stmts[i],
                (b.params + i) as nat,
            ),
        forall|i: int|
            0 <= i < bir_merged_prefix(b, n).stmts.len() ==> exists|k: int|
                0 <= k < b.stmts.len() && touched(
                    #[trigger] bir_merged_prefix(b, n).stmts[i],
                ) == touched(#[trigger] b.stmts[k]),
    decreases n,
{
    if n > 0 {
        lemma_merged_below(b, n - 1, params, count);
        lemma_bir_merged_prefix(b, n - 1);
        let p = bir_merged_prefix(b, n - 1);
        let m = bir_merged_prefix(b, n);
        let x = b.stmts[n - 1];
        let top = (b.params + p.stmts.len()) as nat;
        lemma_stmt_below(x, p.names, (b.params + n - 1) as nat, top);
        assert forall|i: int| 0 <= i < m.stmts.len() implies uses_below(
            #[trigger] m.stmts[i],
            (b.params + i) as nat,
        ) && exists|k: int|
            0 <= k < b.stmts.len() && touched(m.stmts[i]) == touched(#[trigger] b.stmts[k]) by {
            if i < p.stmts.len() {
                assert(m.stmts[i] == p.stmts[i]);
            } else {
                assert(m.stmts[i] == renamed_bir_stmt(x, p.names));
                assert(touched(m.stmts[i]) == touched(b.stmts[n - 1]));
            }
        }
    }
}

/// A block fits with its repeated oracle calls merged.
proof fn lemma_merged_fits(b: BIrBlockView, params: u32, count: nat)
    requires
        b.var_space() <= u32::MAX,
        block_fits(b, params, count),
    ensures
        block_fits(merged_bir_block(b), params, count),
{
    let n = b.stmts.len() as int;
    lemma_merged_below(b, n, params, count);
    lemma_bir_merged_prefix(b, n);
    let m = bir_merged_prefix(b, n);
    let c = merged_bir_block(b);
    let top = c.var_space();
    assert(all_below(m.names, top));
    match b.terminator {
        BIrTermView::Jmp(t) => {
            lemma_list_below(t.args, m.names, b.var_space(), top);
        },
        BIrTermView::CondJmp { val, then_target, else_target } => {
            lemma_list_below(then_target.args, m.names, b.var_space(), top);
            lemma_list_below(else_target.args, m.names, b.var_space(), top);
        },
    }
}

/// What is known of a virtualisation that is ready.
proof fn lemma_ready(m: BIrBlocksView, p: BirPlan, base: StorageId)
    requires
        p == bir_plan(m.blocks, base),
        bir_ready(m, p),
        program_fits(m.blocks),
        keeps_off(m.blocks, p),
    ensures
        ready(p),
{
    let count = m.blocks.len();
    let params = m.blocks[0].params;
    assert forall|i: int| 0 <= i < p.blocks.len() implies block_fits(
        #[trigger] p.blocks[i],
        p.blocks[0].params,
        p.blocks.len(),
    ) by {
        assert(p.blocks[i] == merged_bir_block(m.blocks[i]));
        assert(p.blocks[0] == merged_bir_block(m.blocks[0]));
        assert(block_fits(m.blocks[i], params, count));
        lemma_merged_fits(m.blocks[i], params, count);
    }
    assert forall|i: int, k: int|
        0 <= i < p.blocks.len() && 0 <= k < p.blocks[i].stmts.len() implies match touched(
        #[trigger] p.blocks[i].stmts[k],
    ) {
        Some(s) => !in_table(p, s),
        None => true,
    } by {
        let b = m.blocks[i];
        assert(p.blocks[i] == merged_bir_block(b));
        assert(block_fits(b, params, count));
        lemma_merged_below(b, b.stmts.len() as int, params, count);
        let at = choose|q: int|
            0 <= q < b.stmts.len() && touched(
                bir_merged_prefix(b, b.stmts.len() as int).stmts[k],
            ) == touched(#[trigger] b.stmts[q]);
        assert(touched(m.blocks[i].stmts[at]) == touched(p.blocks[i].stmts[k]));
    }
}

// ---------------------------------------------------------------------------
// The table at the start
// ---------------------------------------------------------------------------

/// The number of storages of the first `n` handlers.
spec fn lanes_before(p: BirPlan, n: int) -> nat {
    p.frame.handler_bits + all_targets(p.keys.take(n)) * p.frame.pc_bits
}

/// Whether lane `t` of a list is the one of storage `t` of the table, and
/// covers the rows.
spec fn lane_at(p: BirPlan, lanes: Seq<BIrPreInitView>, t: int) -> bool {
    let x = lanes[t];
    &&& x.storage.0 == p.frame.base.0 + t
    &&& x.lane == LaneId(0)
    &&& x.offset == 0
    &&& x.data.len() == p.blocks.len()
}

/// Whether a list holds the lane of bit `k` of target `j` of handler `h`.
spec fn bit_at(p: BirPlan, lanes: Seq<BIrPreInitView>, h: int, j: int, k: int) -> bool {
    let t = lanes_before(p, h) + j * p.frame.pc_bits + k;
    &&& 0 <= t < lanes.len()
    &&& lanes[t].data == target_lane(bir_rows(p), bir_targets(p), h, j, k)
}

/// The lanes of the first `n` targets of handler `h`.
proof fn lemma_slot_lanes(p: BirPlan, h: int, n: nat)
    requires
        0 <= h < p.keys.len(),
        n <= n_targets(p.keys[h]),
        p.frame.base.0 + p.frame.handler_bits + all_targets(p.keys) * p.frame.pc_bits <= u32::MAX,
    ensures
        ({
            let ls = slot_lanes(p.frame, p.keys, bir_rows(p), bir_targets(p), h, n);
            &&& ls.len() == n * p.frame.pc_bits
            &&& forall|j: int, k: int|
                0 <= j < n && 0 <= k < p.frame.pc_bits ==> #[trigger] ls[j * p.frame.pc_bits + k]
                    == bir_lane(
                    first_slot(p.frame, p.keys, h) + j * p.frame.pc_bits + k,
                    target_lane(bir_rows(p), bir_targets(p), h, j, k),
                )
        }),
    decreases n,
{
    let b = p.frame.pc_bits;
    if n == 0 {
        assert(0 * b == 0) by (nonlinear_arith);
    } else {
        let m = (n - 1) as nat;
        lemma_slot_lanes(p, h, m);
        let before = slot_lanes(p.frame, p.keys, bir_rows(p), bir_targets(p), h, m);
        let ls = slot_lanes(p.frame, p.keys, bir_rows(p), bir_targets(p), h, n);
        assert(m * b + b == n * b) by (nonlinear_arith)
            requires
                n == m + 1,
        ;
        assert forall|j: int, k: int| 0 <= j < n && 0 <= k < b implies #[trigger] ls[j * b + k]
            == bir_lane(
            first_slot(p.frame, p.keys, h) + j * b + k,
            target_lane(bir_rows(p), bir_targets(p), h, j, k),
        ) by {
            if j < m {
                assert(0 <= j * b + k < m * b) by (nonlinear_arith)
                    requires
                        0 <= j < m,
                        0 <= k < b,
                ;
                assert(ls[j * b + k] == before[j * b + k]);
            } else {
                assert(j * b == m * b);
            }
        }
    }
}

/// The lanes of the handler indices and of the first `n` handlers.
spec fn table_lanes(p: BirPlan, n: int) -> Seq<BIrPreInitView> {
    bir_lanes(p.frame, p.keys, bir_rows(p), bir_targets(p), n)
}

/// What the lanes of the handler indices and of the first `n` handlers hold.
proof fn lemma_lanes(p: BirPlan, n: int)
    requires
        0 <= n <= p.keys.len(),
        p.frame.base.0 + p.frame.handler_bits + all_targets(p.keys) * p.frame.pc_bits <= u32::MAX,
    ensures
        table_lanes(p, n).len() == lanes_before(p, n),
        forall|t: int|
            0 <= t < table_lanes(p, n).len() ==> #[trigger] lane_at(p, table_lanes(p, n), t),
        forall|k: int, pc: int|
            0 <= k < p.frame.handler_bits && 0 <= pc < p.blocks.len() ==> #[trigger] table_lanes(
                p,
                n,
            )[k].data[pc] == nth_bit(bir_rows(p)[pc] as nat, k as nat),
        forall|h: int, j: int, k: int|
            0 <= h < n && 0 <= j < n_targets(p.keys[h]) && 0 <= k < p.frame.pc_bits
                ==> #[trigger] bit_at(p, table_lanes(p, n), h, j, k),
    decreases n,
{
    let f = p.frame;
    let b = f.pc_bits;
    let ls = table_lanes(p, n);
    if n == 0 {
        assert(p.keys.take(0) =~= Seq::empty());
        assert(0 * b == 0) by (nonlinear_arith);
        assert(0 <= all_targets(p.keys) * b) by (nonlinear_arith);
        assert(ls.len() == lanes_before(p, n));
        assert forall|t: int| 0 <= t < ls.len() implies #[trigger] lane_at(p, ls, t) by {
            assert(ls[t].storage == StorageId((f.base.0 + t) as u32));
        }
    } else {
        let g = n - 1;
        lemma_lanes(p, g);
        let before = table_lanes(p, g);
        let q = n_targets(p.keys[g]);
        lemma_slot_lanes(p, g, q);
        let own = slot_lanes(f, p.keys, bir_rows(p), bir_targets(p), g, q);
        assert(p.keys.take(n).drop_last() =~= p.keys.take(g));
        let t0 = all_targets(p.keys.take(g));
        assert(all_targets(p.keys.take(n)) == t0 + q);
        assert(t0 * b + q * b == (t0 + q) * b) by (nonlinear_arith);
        assert(ls =~= before + own);
        assert(ls.len() == lanes_before(p, n));
        lemma_targets_before(p.keys, g);
        assert((t0 + q) * b <= all_targets(p.keys) * b) by (nonlinear_arith)
            requires
                t0 + q <= all_targets(p.keys),
        ;
        assert forall|t: int| 0 <= t < ls.len() implies #[trigger] lane_at(p, ls, t) by {
            if t < before.len() {
                assert(lane_at(p, before, t));
            } else {
                let u = t - before.len();
                let j = u / (b as int);
                let k = u % (b as int);
                assert(0 <= j < q && 0 <= k < b && u == j * b + k) by (nonlinear_arith)
                    requires
                        0 <= u < q * b,
                        j == u / (b as int),
                        k == u % (b as int),
                        0 <= b,
                ;
                assert(own[j * b + k] == bir_lane(
                    first_slot(f, p.keys, g) + j * b + k,
                    target_lane(bir_rows(p), bir_targets(p), g, j, k),
                ));
                assert(ls[t] == own[u]);
            }
        }
        assert forall|k: int, pc: int|
            0 <= k < f.handler_bits && 0 <= pc < p.blocks.len() implies #[trigger] ls[k].data[pc]
            == nth_bit(bir_rows(p)[pc] as nat, k as nat) by {
            assert(0 <= t0 * b) by (nonlinear_arith);
            assert(ls[k] == before[k]);
            assert(before[k].data[pc] == nth_bit(bir_rows(p)[pc] as nat, k as nat));
        }
        assert forall|h: int, j: int, k: int|
            0 <= h < n && 0 <= j < n_targets(p.keys[h]) && 0 <= k < b implies #[trigger] bit_at(
            p,
            ls,
            h,
            j,
            k,
        ) by {
            let t = lanes_before(p, h) + j * b + k;
            if h < g {
                assert(bit_at(p, before, h, j, k));
                assert(ls[t] == before[t]);
            } else {
                assert(own[j * b + k] == bir_lane(
                    first_slot(f, p.keys, g) + j * b + k,
                    target_lane(bir_rows(p), bir_targets(p), g, j, k),
                ));
                assert(0 <= j * b + k < q * b) by (nonlinear_arith)
                    requires
                        0 <= j < q,
                        0 <= k < b,
                ;
                assert(ls[t] == own[j * b + k]);
            }
        }
    }
}

/// A cell behind the first `n` lanes of a table: the bit of its lane, or what
/// was there before.
proof fn lemma_cell(
    p: BirPlan,
    before: Seq<BIrPreInitView>,
    lanes: Seq<BIrPreInitView>,
    n: int,
    s: StorageId,
    l: LaneId,
    a: nat,
)
    requires
        0 <= n <= lanes.len(),
        forall|t: int| 0 <= t < lanes.len() ==> #[trigger] lane_at(p, lanes, t),
    ensures
        ({
            let t = s.0 - p.frame.base.0;
            let got = initial_cell(before + lanes.take(n), s, l, a);
            &&& 0 <= t < n && l == LaneId(0) && a < p.blocks.len() ==> got == lanes[t].data[a as int]
            &&& !(0 <= t < n) ==> got == initial_cell(before, s, l, a)
        }),
    decreases n,
{
    let segs = before + lanes.take(n);
    if n == 0 {
        assert(segs =~= before);
    } else {
        lemma_cell(p, before, lanes, n - 1, s, l, a);
        assert(lane_at(p, lanes, n - 1));
        assert(segs.last() == lanes[n - 1]);
        assert(segs.drop_last() =~= before + lanes.take(n - 1));
    }
}

/// The table stands in the initial storage of the virtual program, beside that
/// of the program.
proof fn lemma_starts_beside<W>(m: BIrBlocksView, p: BirPlan, world: W)
    requires
        ready(p),
    ensures
        beside_table(
            BirState { cells: initial_cells(m.pre_init), world },
            BirState { cells: initial_cells(m.pre_init + bir_storage(p)), world },
            p,
        ),
{
    let f = p.frame;
    let b = f.pc_bits;
    let n = p.keys.len() as int;
    let lanes = bir_storage(p);
    lemma_lanes(p, n);
    assert(lanes == table_lanes(p, n));
    assert(p.keys.take(n) =~= p.keys);
    assert(lanes.take(lanes.len() as int) =~= lanes);
    let cells = initial_cells(m.pre_init);
    let cells2 = initial_cells(m.pre_init + lanes);
    assert forall|s: StorageId, l: LaneId, a: nat| !in_table(p, s) implies #[trigger] cells(s, l, a)
        == cells2(s, l, a) by {
        lemma_cell(p, m.pre_init, lanes, lanes.len() as int, s, l, a);
    }
    assert forall|pc: int| 0 <= pc < p.blocks.len() implies #[trigger] holds_row(cells2, p, pc) by {
        lemma_row(p, pc);
        let h = bir_rows(p)[pc] as int;
        assert forall|k: int| 0 <= k < f.handler_bits implies #[trigger] cells2(
            StorageId((f.base.0 + k) as u32),
            LaneId(0),
            pc as nat,
        ) == nth_bit(h as nat, k as nat) by {
            let s = StorageId((f.base.0 + k) as u32);
            assert(0 <= all_targets(p.keys) * b) by (nonlinear_arith);
            lemma_cell(p, m.pre_init, lanes, lanes.len() as int, s, LaneId(0), pc as nat);
            assert(lanes[k].data[pc] == nth_bit(bir_rows(p)[pc] as nat, k as nat));
        }
        assert forall|j: int, k: int|
            0 <= j < n_targets(p.keys[h]) && 0 <= k < b implies #[trigger] cells2(
            StorageId((first_slot(f, p.keys, h) + j * b + k) as u32),
            LaneId(0),
            pc as nat,
        ) == nth_bit(bir_targets(p)[pc][j].0 as nat, k as nat) by {
            let s = StorageId((first_slot(f, p.keys, h) + j * b + k) as u32);
            lemma_slot_in_table(p, h, j, k);
            lemma_cell(p, m.pre_init, lanes, lanes.len() as int, s, LaneId(0), pc as nat);
            assert(bit_at(p, lanes, h, j, k));
        }
    }
}

/// The setup block enters row 0.
proof fn lemma_setup<W>(p: BirPlan, args: Seq<Val>, st: BirState<W>, out: Outside<W>)
    requires
        ready(p),
        args.len() == p.frame.params,
    ensures
        run_block(bir_setup_block(p.frame), args, st, out) == (
            Exit::Block(IRBlockId(BIR_DISPATCHER_BID), packed(p, args, 0)),
            st,
        ),
{
    let f = p.frame;
    let b = bir_setup_block(f);
    assert(b.stmts.drop_last() =~= Seq::empty());
    let env = args.push(Val::Bit(false));
    assert(run_stmts(b.stmts.drop_last(), args, st, out) == (args, st));
    assert(run_stmts(b.stmts, args, st, out) == (env, st));
    let list = identity_map(f.params as nat) + Seq::new(f.pc_bits, |k: int| IRVarId(f.params));
    let got = at_all(list, env);
    let want = packed(p, args, 0);
    assert forall|k: int| 0 <= k < want.len() implies got[k] == want[k] by {
        if k < f.params {
            assert(list[k] == IRVarId(k as u32));
        } else {
            lemma_zero_bit((k - f.params) as nat);
            assert(list[k] == IRVarId(f.params));
        }
    }
    assert(got =~= want);
}

/// The bits of zero.
proof fn lemma_zero_bit(k: nat)
    ensures
        !nth_bit(0, k),
    decreases k,
{
    if k > 0 {
        lemma_zero_bit((k - 1) as nat);
    }
}

// ---------------------------------------------------------------------------
// The law of virtualisation
// ---------------------------------------------------------------------------

/// A virtualised boolean program does what the program does: for the same
/// inputs and the same world it returns the same values and leaves the same
/// world, whenever the program returns. The program is one whose variables
/// stand behind their definitions, whose jumps hand over what the blocks take,
/// and which keeps off the storage of the table.
pub proof fn law_virtualized_bir_runs_alike<W>(
    m: BIrBlocksView,
    base: StorageId,
    inputs: Seq<Val>,
    world: W,
    out: Outside<W>,
    fuel: nat,
)
    requires
        bir_ready(m, bir_plan(m.blocks, base)),
        program_fits(m.blocks),
        keeps_off(m.blocks, bir_plan(m.blocks, base)),
        inputs.len() == m.blocks[0].params,
        results(m, inputs, world, out, fuel) is Some,
    ensures
        ({
            let p = bir_plan(m.blocks, base);
            let v = BIrBlocksView {
                blocks: bir_module(p.frame, p.keys),
                pre_init: m.pre_init + bir_storage(p),
            };
            exists|fuel2: nat| #[trigger]
                results(v, inputs, world, out, fuel2) == results(m, inputs, world, out, fuel)
        }),
{
    let p = bir_plan(m.blocks, base);
    let v = BIrBlocksView {
        blocks: bir_module(p.frame, p.keys),
        pre_init: m.pre_init + bir_storage(p),
    };
    lemma_ready(m, p, base);
    lemma_starts_beside(m, p, world);
    let st = BirState { cells: initial_cells(m.pre_init), world };
    let st2 = BirState { cells: initial_cells(v.pre_init), world };
    law_merged_bir_program(m.blocks, 0, inputs, st, out, fuel);
    let n = lemma_simulates(p, 0, inputs, st, st2, out, fuel);
    lemma_setup(p, inputs, st2, out);
    lemma_places(p);
    let fuel2: nat = n + 1;
    assert(run(v.blocks, 0, inputs, st2, out, fuel2) == run(
        v.blocks,
        1,
        packed(p, inputs, 0),
        st2,
        out,
        n,
    ));
    assert(results(v, inputs, world, out, fuel2) == results(m, inputs, world, out, fuel));
}

/// What virtualisation of a boolean program yields does what the program does.
pub proof fn law_virtualize_bir_output_runs_alike<W, P: Clone + Default>(
    blocks: BIrBlocks<P>,
    base: StorageId,
    caller: StorageTable,
    r: VirtOutput<BIrBlocks<P>>,
    inputs: Seq<Val>,
    world: W,
    out: Outside<W>,
    fuel: nat,
)
    requires
        bir_ready(blocks@, bir_plan(blocks@.blocks, base)),
        virtualizes_bir(blocks, bir_plan(blocks@.blocks, base), caller, r),
        program_fits(blocks@.blocks),
        keeps_off(blocks@.blocks, bir_plan(blocks@.blocks, base)),
        inputs.len() == blocks@.blocks[0].params,
        results(blocks@, inputs, world, out, fuel) is Some,
    ensures
        exists|fuel2: nat| #[trigger]
            results(r.blocks@, inputs, world, out, fuel2) == results(
                blocks@,
                inputs,
                world,
                out,
                fuel,
            ),
{
    law_virtualized_bir_runs_alike(blocks@, base, inputs, world, out, fuel);
}

} // verus!
