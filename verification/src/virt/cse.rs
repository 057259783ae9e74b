//! Merging of repeated oracle calls.

use vstd::prelude::*;

use crate::boolar::{bir_node_kinds, BIrBlock, BIrBlockView, BIrStmt, BIrStmtView};
use crate::common::Node;
use crate::ir::{
    node_kinds, vars_eq, IRBlock, IRBlockView, IRStmt, IRVarId, Stmt, StmtView,
    TermView,
};
use crate::virt::remap::{
    branch_mapped, remap_bir_stmt, remap_bir_terminator_vars, remap_ir_terminator_vars, remap_stmt,
    remap_vs, renamed_bir_stmt, renamed_bir_term, renamed_bit_list, renamed_stmt, renamed_term,
    renamed_vars, stmt_mapped, term_mapped, var_mapped, vars_mapped, UNDEFINED_VAR,
};

verus! {

/// The names under which the first variables of a block are known.
pub open spec fn identity_map(n: nat) -> Seq<IRVarId> {
    Seq::new(n, |i: int| IRVarId(i as u32))
}

/// Whether every variable has a name.
pub open spec fn all_defined(map: Seq<IRVarId>) -> bool {
    forall|i: int| 0 <= i < map.len() ==> (#[trigger] map[i]).0 != UNDEFINED_VAR
}

/// What has been merged after some statements of a block.
#[verifier::ext_equal]
pub struct Merged {
    /// The new name of each variable.
    pub names: Seq<IRVarId>,
    /// The variable of the first call with a name and arguments.
    pub calls: Map<(Seq<char>, Seq<IRVarId>), IRVarId>,
    /// The statements that are left.
    pub stmts: Seq<StmtView>,
    /// The place that each of them had.
    pub kept: Seq<int>,
}

/// The next statement of the block, the one at place `i`.
pub open spec fn merge_step(m: Merged, n_params: nat, i: int, s: StmtView) -> Merged {
    let fresh = IRVarId((n_params + m.stmts.len()) as u32);
    let plain = Merged {
        names: m.names.update(n_params + i, fresh),
        calls: m.calls,
        stmts: m.stmts.push(renamed_stmt(s, m.names)),
        kept: m.kept.push(i),
    };
    match s {
        StmtView::OracleCall { name, args, .. } => {
            let call = (name, renamed_vars(args, m.names));
            if m.calls.contains_key(call) {
                Merged { names: m.names.update(n_params + i, m.calls[call]), ..m }
            } else {
                Merged { calls: m.calls.insert(call, fresh), ..plain }
            }
        },
        _ => plain,
    }
}

/// What has been merged after the first `n` statements of a block.
pub open spec fn merged_prefix(b: IRBlockView, n: int) -> Merged
    decreases n,
{
    if n <= 0 {
        Merged {
            names: identity_map(b.var_space()),
            calls: Map::empty(),
            stmts: Seq::empty(),
            kept: Seq::empty(),
        }
    } else {
        merge_step(merged_prefix(b, n - 1), b.params.len(), n - 1, b.stmts[n - 1])
    }
}

/// The block with repeated oracle calls merged: of calls with one name and the
/// same arguments only the first is left, and its variable stands for all.
pub open spec fn merged_block(b: IRBlockView) -> IRBlockView {
    let m = merged_prefix(b, b.stmts.len() as int);
    IRBlockView {
        params: b.params,
        stmts: m.stmts,
        terminator: renamed_term(b.terminator, m.names),
    }
}

/// Whether the statements and the terminator of a block read variables of the
/// block only, and no statement is an action store.
pub open spec fn reads_in_range(b: IRBlockView) -> bool {
    &&& b.var_space() <= u32::MAX
    &&& forall|i: int|
        0 <= i < b.stmts.len() ==> stmt_mapped(
            #[trigger] b.stmts[i],
            identity_map(b.var_space()),
        )
    &&& term_mapped(b.terminator, identity_map(b.var_space()))
}

/// A statement that can be renamed by one map can be renamed by another that
/// names at least the same variables.
pub proof fn lemma_stmt_mapped(s: StmtView, m1: Seq<IRVarId>, m2: Seq<IRVarId>)
    requires
        stmt_mapped(s, m1),
        forall|v: IRVarId| #[trigger] var_mapped(v, m1) ==> var_mapped(v, m2),
    ensures
        stmt_mapped(s, m2),
{
    assert forall|vs: Seq<IRVarId>| vars_mapped(vs, m1) implies #[trigger] vars_mapped(vs, m2) by {
        assert forall|i: int| 0 <= i < vs.len() implies var_mapped(#[trigger] vs[i], m2) by {
            assert(var_mapped(vs[i], m1));
        }
    }
    match s {
        StmtView::Poly { coeffs, .. } => {
            assert forall|i: int| 0 <= i < coeffs.len() implies vars_mapped(
                (#[trigger] coeffs[i]).0,
                m2,
            ) by {
                assert(vars_mapped(coeffs[i].0, m1));
            }
        },
        StmtView::Shuffle { result_bits, .. } => {
            assert forall|i: int| 0 <= i < result_bits.len() implies var_mapped(
                (#[trigger] result_bits[i]).1,
                m2,
            ) by {
                assert(var_mapped(result_bits[i].1, m1));
            }
        },
        _ => {},
    }
}

/// The same for terminators.
pub proof fn lemma_term_mapped(t: TermView, m1: Seq<IRVarId>, m2: Seq<IRVarId>)
    requires
        term_mapped(t, m1),
        forall|v: IRVarId| #[trigger] var_mapped(v, m1) ==> var_mapped(v, m2),
    ensures
        term_mapped(t, m2),
{
    assert forall|vs: Seq<IRVarId>| vars_mapped(vs, m1) implies #[trigger] vars_mapped(vs, m2) by {
        assert forall|i: int| 0 <= i < vs.len() implies var_mapped(#[trigger] vs[i], m2) by {
            assert(var_mapped(vs[i], m1));
        }
    }
    match t {
        TermView::JumpTable { cases, .. } => {
            assert forall|i: int| 0 <= i < cases.len() implies branch_mapped(
                (#[trigger] cases[i]).1,
                m2,
            ) by {
                assert(branch_mapped(cases[i].1, m1));
            }
        },
        _ => {},
    }
}

/// Every variable has a name at each point of the merging, and the first call
/// with a name and arguments is one of the statements left.
pub proof fn lemma_merged_prefix(b: IRBlockView, n: int)
    requires
        0 <= n <= b.stmts.len(),
        b.var_space() <= u32::MAX,
    ensures
        merged_prefix(b, n).names.len() == b.var_space(),
        all_defined(merged_prefix(b, n).names),
        merged_prefix(b, n).stmts.len() <= n,
        merged_prefix(b, n).kept.len() == merged_prefix(b, n).stmts.len(),
        forall|k: int|
            0 <= k < merged_prefix(b, n).kept.len() ==> 0 <= #[trigger] merged_prefix(b, n).kept[k]
                < n,
        forall|c: (Seq<char>, Seq<IRVarId>)| #[trigger]
            merged_prefix(b, n).calls.contains_key(c) ==> merged_prefix(b, n).calls[c].0
                < b.params.len() + merged_prefix(b, n).stmts.len(),
        forall|c: (Seq<char>, Seq<IRVarId>)| #[trigger]
            merged_prefix(b, n).calls.contains_key(c) ==> {
                let v = merged_prefix(b, n).calls[c];
                &&& b.params.len() <= v.0
                &&& merged_prefix(b, n).stmts[v.0 - b.params.len()] matches StmtView::OracleCall {
                    name,
                    args,
                    ..
                } && name == c.0 && args == c.1
            },
        forall|k: int|
            0 <= k < merged_prefix(b, n).stmts.len() ==> (
            #[trigger] merged_prefix(b, n).stmts[k] matches StmtView::OracleCall { name, args, .. }
                ==> merged_prefix(b, n).calls.contains_key((name, args)) && merged_prefix(
                b,
                n,
            ).calls[(name, args)].0 == b.params.len() + k),
    decreases n,
{
    if n > 0 {
        lemma_merged_prefix(b, n - 1);
    }
}

/// In a block with repeated oracle calls merged, no two calls have one name
/// and the same arguments.
pub proof fn law_merged_calls_differ(b: IRBlockView, i: int, j: int)
    requires
        b.var_space() <= u32::MAX,
        0 <= i < j < merged_block(b).stmts.len(),
    ensures
        match (merged_block(b).stmts[i], merged_block(b).stmts[j]) {
            (
                StmtView::OracleCall { name: n1, args: a1, .. },
                StmtView::OracleCall { name: n2, args: a2, .. },
            ) => n1 != n2 || a1 != a2,
            _ => true,
        },
{
    lemma_merged_prefix(b, b.stmts.len() as int);
}

/// A call that has been seen, with the variable that holds its result.
struct SeenCall {
    name: String,
    args: Vec<IRVarId>,
    var: IRVarId,
}

/// The calls of a list.
spec fn seen_calls(s: Seq<SeenCall>) -> Map<(Seq<char>, Seq<IRVarId>), IRVarId>
    decreases s.len(),
{
    if s.len() == 0 {
        Map::empty()
    } else {
        seen_calls(s.drop_last()).insert((s.last().name@, s.last().args@), s.last().var)
    }
}

/// A call is in the list exactly if some element has its name and arguments.
proof fn lemma_seen_calls(s: Seq<SeenCall>, c: (Seq<char>, Seq<IRVarId>))
    ensures
        seen_calls(s).contains_key(c) <==> exists|i: int|
            0 <= i < s.len() && (#[trigger] s[i]).name@ == c.0 && s[i].args@ == c.1,
    decreases s.len(),
{
    if s.len() > 0 {
        lemma_seen_calls(s.drop_last(), c);
        if exists|i: int| 0 <= i < s.len() && (#[trigger] s[i]).name@ == c.0 && s[i].args@ == c.1 {
            let i = choose|i: int|
                0 <= i < s.len() && (#[trigger] s[i]).name@ == c.0 && s[i].args@ == c.1;
            if i < s.len() - 1 {
                assert(s.drop_last()[i] == s[i]);
            }
        }
        if seen_calls(s.drop_last()).contains_key(c) {
            let i = choose|i: int|
                0 <= i < s.drop_last().len() && (#[trigger] s.drop_last()[i]).name@ == c.0
                    && s.drop_last()[i].args@ == c.1;
            assert(s[i].name@ == c.0);
        }
        if s.last().name@ == c.0 && s.last().args@ == c.1 {
            assert(s[s.len() - 1].name@ == c.0);
        }
    }
}

/// Where each call of the list stands when no call occurs twice.
proof fn lemma_seen_calls_at(s: Seq<SeenCall>, i: int)
    requires
        0 <= i < s.len(),
        forall|j: int|
            i < j < s.len() ==> !((#[trigger] s[j]).name@ == s[i].name@ && s[j].args@ == s[i].args@),
    ensures
        seen_calls(s).contains_key((s[i].name@, s[i].args@)),
        seen_calls(s)[(s[i].name@, s[i].args@)] == s[i].var,
    decreases s.len(),
{
    if i < s.len() - 1 {
        assert(s.drop_last()[i] == s[i]);
        lemma_seen_calls_at(s.drop_last(), i);
    }
}

/// Merge repeated oracle calls of a block.
pub fn deduplicate_oracle_calls_in_block<P: Clone>(block: &IRBlock<P>) -> (r: IRBlock<P>)
    requires
        reads_in_range(block@),
    ensures
        r@ == merged_block(block@),
        forall|i: int|
            0 <= i < r.stmts@.len() ==> {
                let from = merged_prefix(block@, block.stmts@.len() as int).kept[i];
                &&& 0 <= from < block.stmts@.len()
                &&& cloned(block.stmts@[from].prov, (#[trigger] r.stmts@[i]).prov)
                &&& r.stmts@[i].side == block.stmts@[from].side
            },
{
    let ghost b = block@;
    let n_params: usize = block.params.len();
    let total: usize = n_params + block.stmts.len();
    let mut names: Vec<IRVarId> = Vec::new();
    let mut k: usize = 0;
    while k < total
        invariant
            k <= total,
            total <= u32::MAX,
            names@ == identity_map(k as nat),
        decreases total - k,
    {
        names.push(IRVarId(k as u32));
        assert(names@ =~= identity_map((k + 1) as nat));
        k += 1;
    }
    let mut seen: Vec<SeenCall> = Vec::new();
    let mut stmts: Vec<Node<IRStmt, P>> = Vec::new();
    let mut i: usize = 0;
    assert(node_kinds(stmts@) =~= Seq::empty());
    while i < block.stmts.len()
        invariant
            b == block@,
            reads_in_range(b),
            n_params == b.params.len(),
            total == b.var_space(),
            i <= block.stmts.len(),
            names@ == merged_prefix(b, i as int).names,
            seen_calls(seen@) == merged_prefix(b, i as int).calls,
            node_kinds(stmts@) == merged_prefix(b, i as int).stmts,
            forall|x: int, y: int|
                0 <= x < y < seen@.len() ==> !((#[trigger] seen@[x]).name@ == (
                #[trigger] seen@[y]).name@ && seen@[x].args@ == seen@[y].args@),
            forall|x: int|
                0 <= x < stmts@.len() ==> {
                    let from = merged_prefix(b, i as int).kept[x];
                    &&& 0 <= from < i
                    &&& cloned(block.stmts@[from].prov, (#[trigger] stmts@[x]).prov)
                    &&& stmts@[x].side == block.stmts@[from].side
                },
        decreases block.stmts.len() - i,
    {
        let node = &block.stmts[i];
        let ghost m = merged_prefix(b, i as int);
        proof {
            lemma_merged_prefix(b, i as int);
            assert(b.stmts[i as int] == node.kind@);
            lemma_stmt_mapped(node.kind@, identity_map(b.var_space()), names@);
        }
        let place: usize = n_params + i;
        let fresh = IRVarId((n_params + stmts.len()) as u32);
        let ghost before = stmts@;
        let mut merged: Option<IRVarId> = None;
        if let Stmt::OracleCall { name, args, .. } = &node.kind {
            let new_args = crate::virt::remap::remap_vars(args, &names);
            let ghost call = (name@, new_args@);
            let mut j: usize = 0;
            while j < seen.len() && !(seen[j].name == *name && vars_eq(&seen[j].args, &new_args))
                invariant
                    j <= seen.len(),
                    call == (name@, new_args@),
                    forall|x: int|
                        0 <= x < j ==> !((#[trigger] seen@[x]).name@ == call.0 && seen@[x].args@
                            == call.1),
                decreases seen.len() - j,
            {
                j += 1;
            }
            proof {
                lemma_seen_calls(seen@, call);
                if j < seen@.len() {
                    lemma_seen_calls_at(seen@, j as int);
                }
            }
            if j < seen.len() {
                merged = Some(seen[j].var);
            } else {
                let ghost old_seen = seen@;
                seen.push(SeenCall { name: name.clone(), args: new_args, var: fresh });
                assert(seen@.drop_last() =~= old_seen);
            }
        }
        match merged {
            Some(first) => {
                names.set(place, first);
            },
            None => {
                let kind = remap_stmt(&node.kind, &names);
                names.set(place, fresh);
                stmts.push(Node::new(kind, node.prov.clone(), node.side));
                assert(node_kinds(stmts@) =~= node_kinds(before).push(kind@));
            },
        }
        proof {
            assert(merged_prefix(b, i + 1) == merge_step(m, b.params.len(), i as int, node.kind@));
            let next = merged_prefix(b, i + 1);
            assert forall|x: int| 0 <= x < stmts@.len() implies {
                let from = next.kept[x];
                &&& 0 <= from < i + 1
                &&& cloned(block.stmts@[from].prov, (#[trigger] stmts@[x]).prov)
                &&& stmts@[x].side == block.stmts@[from].side
            } by {
                if x < before.len() {
                    assert(stmts@[x] == before[x]);
                    assert(next.kept[x] == m.kept[x]);
                }
            }
        }
        i += 1;
    }
    proof {
        lemma_merged_prefix(b, i as int);
        lemma_term_mapped(b.terminator, identity_map(b.var_space()), names@);
    }
    let terminator = remap_ir_terminator_vars(&block.terminator, &names);
    IRBlock { params: block.params.clone(), stmts, terminator }
}

// ---------------------------------------------------------------------------
// Boolean blocks
// ---------------------------------------------------------------------------

/// What has been merged after some statements of a boolean block.
#[verifier::ext_equal]
pub struct BirMerged {
    /// The new name of each variable so far.
    pub names: Seq<IRVarId>,
    /// The variable of the first call with a name and arguments.
    pub calls: Map<(Seq<char>, Seq<IRVarId>), IRVarId>,
    /// The statements that are left.
    pub stmts: Seq<BIrStmtView>,
    /// The place that each of them had.
    pub kept: Seq<int>,
}

/// The next statement of a boolean block, the one at place `i`.
pub open spec fn bir_merge_step(m: BirMerged, n_params: u32, i: int, s: BIrStmtView) -> BirMerged {
    let fresh = IRVarId((n_params + m.stmts.len()) as u32);
    let plain = BirMerged {
        names: m.names.push(fresh),
        calls: m.calls,
        stmts: m.stmts.push(renamed_bir_stmt(s, m.names)),
        kept: m.kept.push(i),
    };
    match s {
        BIrStmtView::OracleCall { name, args, .. } => {
            let call = (name, renamed_bit_list(args, m.names));
            if m.calls.contains_key(call) {
                BirMerged { names: m.names.push(m.calls[call]), ..m }
            } else {
                BirMerged { calls: m.calls.insert(call, fresh), ..plain }
            }
        },
        _ => plain,
    }
}

/// What has been merged after the first `n` statements of a boolean block.
pub open spec fn bir_merged_prefix(b: BIrBlockView, n: int) -> BirMerged
    decreases n,
{
    if n <= 0 {
        BirMerged {
            names: identity_map(b.params as nat),
            calls: Map::empty(),
            stmts: Seq::empty(),
            kept: Seq::empty(),
        }
    } else {
        bir_merge_step(bir_merged_prefix(b, n - 1), b.params, n - 1, b.stmts[n - 1])
    }
}

/// The boolean block with repeated oracle calls merged: of calls with one name
/// and the same arguments only the first is left, and its variable stands for
/// all.
pub open spec fn merged_bir_block(b: BIrBlockView) -> BIrBlockView {
    let m = bir_merged_prefix(b, b.stmts.len() as int);
    BIrBlockView {
        params: b.params,
        stmts: m.stmts,
        terminator: renamed_bir_term(b.terminator, m.names),
    }
}

/// The size of what is left, and the first call of each kind among it.
pub proof fn lemma_bir_merged_prefix(b: BIrBlockView, n: int)
    requires
        0 <= n <= b.stmts.len(),
        b.var_space() <= u32::MAX,
    ensures
        bir_merged_prefix(b, n).names.len() == b.params + n,
        bir_merged_prefix(b, n).stmts.len() <= n,
        bir_merged_prefix(b, n).kept.len() == bir_merged_prefix(b, n).stmts.len(),
        forall|k: int|
            0 <= k < bir_merged_prefix(b, n).names.len() ==> (#[trigger] bir_merged_prefix(
                b,
                n,
            ).names[k]).0 < b.params + bir_merged_prefix(b, n).stmts.len(),
        forall|c: (Seq<char>, Seq<IRVarId>)| #[trigger]
            bir_merged_prefix(b, n).calls.contains_key(c) ==> {
                let v = bir_merged_prefix(b, n).calls[c];
                &&& b.params <= v.0 < b.params + bir_merged_prefix(b, n).stmts.len()
                &&& bir_merged_prefix(b, n).stmts[v.0 - b.params] matches BIrStmtView::OracleCall {
                    name,
                    args,
                    ..
                } && name == c.0 && args == c.1
            },
        forall|k: int|
            0 <= k < bir_merged_prefix(b, n).stmts.len() ==> (
            #[trigger] bir_merged_prefix(b, n).stmts[k] matches BIrStmtView::OracleCall {
                name,
                args,
                ..
            } ==> bir_merged_prefix(b, n).calls.contains_key((name, args)) && bir_merged_prefix(
                b,
                n,
            ).calls[(name, args)].0 == b.params + k),
    decreases n,
{
    if n > 0 {
        lemma_bir_merged_prefix(b, n - 1);
    }
}

/// In a boolean block with repeated oracle calls merged, no two calls have one
/// name and the same arguments.
pub proof fn law_merged_bir_calls_differ(b: BIrBlockView, i: int, j: int)
    requires
        b.var_space() <= u32::MAX,
        0 <= i < j < merged_bir_block(b).stmts.len(),
    ensures
        match (merged_bir_block(b).stmts[i], merged_bir_block(b).stmts[j]) {
            (
                BIrStmtView::OracleCall { name: n1, args: a1, .. },
                BIrStmtView::OracleCall { name: n2, args: a2, .. },
            ) => n1 != n2 || a1 != a2,
            _ => true,
        },
{
    lemma_bir_merged_prefix(b, b.stmts.len() as int);
}

/// Merge repeated oracle calls of a boolean block.
pub fn deduplicate_bir_oracle_calls_in_block<P: Clone>(block: &BIrBlock<P>) -> (r: BIrBlock<P>)
    requires
        block@.var_space() <= u32::MAX,
    ensures
        r@ == merged_bir_block(block@),
        forall|i: int|
            0 <= i < r.stmts@.len() ==> {
                let from = bir_merged_prefix(block@, block.stmts@.len() as int).kept[i];
                &&& 0 <= from < block.stmts@.len()
                &&& cloned(block.stmts@[from].prov, (#[trigger] r.stmts@[i]).prov)
                &&& r.stmts@[i].side == block.stmts@[from].side
            },
{
    let ghost b = block@;
    let n_params: u32 = block.params;
    let mut names: Vec<IRVarId> = Vec::new();
    let mut k: u32 = 0;
    while k < n_params
        invariant
            k <= n_params,
            names@ == identity_map(k as nat),
        decreases n_params - k,
    {
        names.push(IRVarId(k));
        assert(names@ =~= identity_map((k + 1) as nat));
        k += 1;
    }
    let mut seen: Vec<SeenCall> = Vec::new();
    let mut stmts: Vec<Node<BIrStmt, P>> = Vec::new();
    let mut i: usize = 0;
    assert(bir_node_kinds(stmts@) =~= Seq::empty());
    while i < block.stmts.len()
        invariant
            b == block@,
            b.var_space() <= u32::MAX,
            n_params == b.params,
            i <= block.stmts.len(),
            names@ == bir_merged_prefix(b, i as int).names,
            seen_calls(seen@) == bir_merged_prefix(b, i as int).calls,
            bir_node_kinds(stmts@) == bir_merged_prefix(b, i as int).stmts,
            forall|x: int, y: int|
                0 <= x < y < seen@.len() ==> !((#[trigger] seen@[x]).name@ == (
                #[trigger] seen@[y]).name@ && seen@[x].args@ == seen@[y].args@),
            forall|x: int|
                0 <= x < stmts@.len() ==> {
                    let from = bir_merged_prefix(b, i as int).kept[x];
                    &&& 0 <= from < i
                    &&& cloned(block.stmts@[from].prov, (#[trigger] stmts@[x]).prov)
                    &&& stmts@[x].side == block.stmts@[from].side
                },
        decreases block.stmts.len() - i,
    {
        let node = &block.stmts[i];
        let ghost m = bir_merged_prefix(b, i as int);
        proof {
            lemma_bir_merged_prefix(b, i as int);
            assert(b.stmts[i as int] == node.kind@);
            assert(bir_node_kinds(stmts@).len() == stmts@.len());
        }
        let fresh = IRVarId(n_params + stmts.len() as u32);
        let ghost before = stmts@;
        let mut merged: Option<IRVarId> = None;
        if let BIrStmt::OracleCall { name, args, .. } = &node.kind {
            let new_args = remap_vs(args, &names);
            let ghost call = (name@, new_args@);
            let mut j: usize = 0;
            while j < seen.len() && !(seen[j].name == *name && vars_eq(&seen[j].args, &new_args))
                invariant
                    j <= seen.len(),
                    call == (name@, new_args@),
                    forall|x: int|
                        0 <= x < j ==> !((#[trigger] seen@[x]).name@ == call.0 && seen@[x].args@
                            == call.1),
                decreases seen.len() - j,
            {
                j += 1;
            }
            proof {
                lemma_seen_calls(seen@, call);
                if j < seen@.len() {
                    lemma_seen_calls_at(seen@, j as int);
                }
            }
            if j < seen.len() {
                merged = Some(seen[j].var);
            } else {
                let ghost old_seen = seen@;
                seen.push(SeenCall { name: name.clone(), args: new_args, var: fresh });
                assert(seen@.drop_last() =~= old_seen);
            }
        }
        match merged {
            Some(first) => {
                names.push(first);
            },
            None => {
                let kind = remap_bir_stmt(&node.kind, &names);
                names.push(fresh);
                stmts.push(Node::new(kind, node.prov.clone(), node.side));
                assert(bir_node_kinds(stmts@) =~= bir_node_kinds(before).push(kind@));
            },
        }
        proof {
            let next = bir_merged_prefix(b, i + 1);
            assert(next == bir_merge_step(m, b.params, i as int, node.kind@));
            assert forall|x: int| 0 <= x < stmts@.len() implies {
                let from = next.kept[x];
                &&& 0 <= from < i + 1
                &&& cloned(block.stmts@[from].prov, (#[trigger] stmts@[x]).prov)
                &&& stmts@[x].side == block.stmts@[from].side
            } by {
                if x < before.len() {
                    assert(stmts@[x] == before[x]);
                    assert(next.kept[x] == m.kept[x]);
                }
            }
        }
        i += 1;
    }
    let terminator = remap_bir_terminator_vars(&block.terminator, &names);
    BIrBlock { params: block.params, stmts, terminator }
}

} // verus!
