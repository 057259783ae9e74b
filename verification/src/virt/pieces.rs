//! Blocks cut into pieces. Each piece takes the values of all variables before
//! it and hands them on, with its own, to the next piece of its block. In the
//! place of a variable without a value it hands on the first variable.

use vstd::prelude::*;

use crate::circuit::node_copied;
use crate::common::{clone_actions, clone_oracles, clone_rngs, Node};
use crate::ir::{
    block_views, clone_pre_init, node_kinds, stmt_output_type, IRBlock, IRBlockView, IRBlocks,
    IRBlocksView, IRStmt, IRTerminator, IRTypeId, IRVarId, StmtView, TermView,
};
use crate::virt::emit::{jump, jump_to};
use crate::virt::handler::{scope, scoped};
use crate::virt::ir_law::hands_over;
use crate::virt::ir_run::{
    act, at, at_all, lemma_run_both, lemma_run_push, lemma_same_case, leave, operands, run,
    run_block, run_stmts, sum, taken, Exit, IrState, Machine,
};
use crate::virt::regs::{arms, resolve_var_type, var_type, var_types, vars_typed};
use crate::virt::remap::{stmt_mapped, terms_mapped, var_mapped, vars_mapped};

verus! {

// ---------------------------------------------------------------------------
// What pieces are
// ---------------------------------------------------------------------------

/// The piece of a block that starts at a statement.
#[derive(Clone, Copy, PartialEq, Eq, Debug, Structural)]
pub struct Row {
    pub block: usize,
    pub start: usize,
    /// Whether the block is entered here. Such a piece comes before another that
    /// starts at the same statement, and is empty if there is one.
    pub entry: bool,
}

/// Whether one piece of a block comes before another.
pub open spec fn precedes(r: Row, x: Row) -> bool {
    r.start < x.start || r.start == x.start && r.entry && !x.entry
}

/// The variable that is handed on in the place of variable `v`: itself, if it
/// has a value.
pub open spec fn carried(b: IRBlockView, v: int) -> IRVarId {
    if var_type(b, IRVarId(v as u32)) is Some {
        IRVarId(v as u32)
    } else {
        IRVarId(0)
    }
}

/// What is handed on in the place of the first `n` variables.
pub open spec fn carried_vars(b: IRBlockView, n: nat) -> Seq<IRVarId> {
    Seq::new(n, |v: int| carried(b, v))
}

/// The types of what is handed on before statement `c`.
pub open spec fn types_before(b: IRBlockView, c: int) -> Seq<IRTypeId> {
    b.params + Seq::new(c as nat, |i: int| var_type(b, carried(b, b.params.len() + i))->0)
}

/// Whether a block can be cut before statement `c`: there is a value to hand
/// on.
pub open spec fn hands_on(b: IRBlockView, c: int) -> bool {
    c == 0 || var_type(b, IRVarId(0)) is Some
}

/// Whether a piece starts in a block, where it can be cut.
pub open spec fn row_in(r: Row, blocks: Seq<IRBlockView>) -> bool {
    &&& r.block < blocks.len()
    &&& r.start <= blocks[r.block as int].stmts.len()
    &&& hands_on(blocks[r.block as int], r.start as int)
}

/// Whether pieces are those of a program: the first of each block stand first,
/// in the order of the blocks.
pub open spec fn rows_in(rows: Seq<Row>, blocks: Seq<IRBlockView>) -> bool {
    &&& blocks.len() <= rows.len() <= u32::MAX
    &&& forall|k: int| 0 <= k < rows.len() ==> row_in(#[trigger] rows[k], blocks)
    &&& forall|k: int|
        0 <= k < blocks.len() ==> (#[trigger] rows[k]).block == k && rows[k].start == 0
    &&& forall|b: int| 0 <= b < blocks.len() ==> (#[trigger] blocks[b]).var_space() <= u32::MAX
}

/// The next piece of the block of `r` among the first `n` pieces, if there is
/// one.
pub open spec fn next_among(rows: Seq<Row>, r: Row, n: int) -> Option<int>
    decreases n,
{
    if n <= 0 {
        None
    } else {
        let before = next_among(rows, r, n - 1);
        let x = rows[n - 1];
        if x.block == r.block && precedes(r, x) && (before matches Some(j) ==> precedes(
            x,
            rows[j],
        )) {
            Some(n - 1)
        } else {
            before
        }
    }
}

/// The next piece of the block of `r`, if there is one.
pub open spec fn next_row(rows: Seq<Row>, r: Row) -> Option<int> {
    next_among(rows, r, rows.len() as int)
}

/// Piece `k`.
pub open spec fn piece(blocks: Seq<IRBlockView>, rows: Seq<Row>, k: int) -> IRBlockView {
    let r = rows[k];
    let b = blocks[r.block as int];
    let params = types_before(b, r.start as int);
    match next_row(rows, r) {
        Some(j) => IRBlockView {
            params,
            stmts: b.stmts.subrange(r.start as int, rows[j].start as int),
            terminator: TermView::Jmp {
                target: jump(j as u32, carried_vars(b, b.params.len() + rows[j].start as nat)),
            },
        },
        None => IRBlockView {
            params,
            stmts: b.stmts.skip(r.start as int),
            terminator: b.terminator,
        },
    }
}

/// The pieces of a program.
pub open spec fn pieces(blocks: Seq<IRBlockView>, rows: Seq<Row>) -> Seq<IRBlockView> {
    Seq::new(rows.len(), |k: int| piece(blocks, rows, k))
}

/// The next piece is one of the block, further on.
pub proof fn lemma_next(rows: Seq<Row>, r: Row, n: int)
    ensures
        next_among(rows, r, n) matches Some(j) ==> 0 <= j < n && rows[j].block == r.block
            && precedes(r, rows[j]),
    decreases n,
{
    if n > 0 {
        lemma_next(rows, r, n - 1);
    }
}

// ---------------------------------------------------------------------------
// Cutting
// ---------------------------------------------------------------------------

/// Whether one piece of a block comes before another.
fn is_before(r: Row, x: Row) -> (b: bool)
    ensures
        b == precedes(r, x),
{
    r.start < x.start || r.start == x.start && r.entry && !x.entry
}

/// The next piece of the block of `r`, if there is one.
fn find_next(rows: &Vec<Row>, r: Row) -> (j: Option<usize>)
    ensures
        match j {
            Some(x) => next_row(rows@, r) == Some(x as int),
            None => next_row(rows@, r) is None,
        },
{
    let mut found: Option<usize> = None;
    let mut n: usize = 0;
    while n < rows.len()
        invariant
            n <= rows.len(),
            match found {
                Some(x) => x < n && next_among(rows@, r, n as int) == Some(x as int),
                None => next_among(rows@, r, n as int) is None,
            },
        decreases rows.len() - n,
    {
        let x = rows[n];
        if x.block == r.block && is_before(r, x) {
            let first: bool = match found {
                Some(j) => is_before(x, rows[j]),
                None => true,
            };
            if first {
                found = Some(n);
            }
        }
        n += 1;
    }
    found
}

/// What is handed on in the place of a variable of statement `i`.
fn carry<P>(block: &IRBlock<P>, i: usize) -> (r: IRVarId)
    requires
        i < block@.stmts.len(),
        block@.var_space() <= u32::MAX,
    ensures
        r == carried(block@, block@.params.len() + i),
{
    assert(block@.stmts[i as int] == block.stmts@[i as int].kind@);
    match stmt_output_type(&block.stmts[i].kind) {
        Some(_) => IRVarId((block.params.len() + i) as u32),
        None => IRVarId(0),
    }
}

/// The types of what is handed on before statement `c`.
fn collect_types<P>(block: &IRBlock<P>, c: usize) -> (r: Vec<IRTypeId>)
    requires
        c <= block@.stmts.len(),
        block@.var_space() <= u32::MAX,
        hands_on(block@, c as int),
    ensures
        r@ == types_before(block@, c as int),
{
    let mut out = block.params.clone();
    assert(out@ =~= block.params@);
    let mut i: usize = 0;
    assert(out@ =~= types_before(block@, 0));
    while i < c
        invariant
            i <= c <= block@.stmts.len(),
            block@.var_space() <= u32::MAX,
            hands_on(block@, c as int),
            out@ == types_before(block@, i as int),
        decreases c - i,
    {
        let v = carry(block, i);
        out.push(resolve_var_type(block, v));
        assert(out@ =~= types_before(block@, i + 1));
        i += 1;
    }
    out
}

/// What is handed on in the place of the variables before statement `c`.
fn collect_vars<P>(block: &IRBlock<P>, c: usize) -> (r: Vec<IRVarId>)
    requires
        c <= block@.stmts.len(),
        block@.var_space() <= u32::MAX,
    ensures
        r@ == carried_vars(block@, block@.params.len() + c as nat),
{
    let n: usize = block.params.len();
    let mut out: Vec<IRVarId> = Vec::new();
    let mut v: usize = 0;
    while v < n
        invariant
            v <= n,
            n == block@.params.len(),
            block@.var_space() <= u32::MAX,
            out@ == carried_vars(block@, v as nat),
        decreases n - v,
    {
        out.push(IRVarId(v as u32));
        assert(out@ =~= carried_vars(block@, (v + 1) as nat));
        v += 1;
    }
    let mut i: usize = 0;
    while i < c
        invariant
            i <= c <= block@.stmts.len(),
            n == block@.params.len(),
            block@.var_space() <= u32::MAX,
            out@ == carried_vars(block@, (n + i) as nat),
        decreases c - i,
    {
        out.push(carry(block, i));
        assert(out@ =~= carried_vars(block@, (n + i + 1) as nat));
        i += 1;
    }
    out
}

/// A copy of some statements.
fn clone_range<P: Clone>(nodes: &Vec<Node<IRStmt, P>>, from: usize, to: usize) -> (r: Vec<
    Node<IRStmt, P>,
>)
    requires
        from <= to <= nodes@.len(),
    ensures
        node_kinds(r@) == node_kinds(nodes@).subrange(from as int, to as int),
        r@.len() == to - from,
        forall|i: int| 0 <= i < r@.len() ==> node_copied(nodes@[from + i], #[trigger] r@[i]),
{
    let mut out: Vec<Node<IRStmt, P>> = Vec::new();
    let mut i: usize = from;
    while i < to
        invariant
            from <= i <= to <= nodes@.len(),
            out@.len() == i - from,
            forall|j: int| 0 <= j < out@.len() ==> node_copied(nodes@[from + j], #[trigger] out@[j]),
        decreases to - i,
    {
        out.push(Node::new(nodes[i].kind.clone(), nodes[i].prov.clone(), nodes[i].side));
        i += 1;
    }
    assert(node_kinds(out@) =~= node_kinds(nodes@).subrange(from as int, to as int));
    out
}

/// Cut piece `k` out of its block.
fn cut_piece<P: Clone>(blocks: &IRBlocks<P>, rows: &Vec<Row>, k: usize) -> (r: IRBlock<P>)
    requires
        rows_in(rows@, blocks@.blocks),
        k < rows@.len(),
    ensures
        r@ == piece(blocks@.blocks, rows@, k as int),
{
    let row = rows[k];
    let ghost bv = blocks@.blocks;
    assert(row_in(rows@[k as int], bv));
    let block = &blocks.blocks[row.block];
    assert(bv[row.block as int] == block@);
    assert(bv[row.block as int].var_space() <= u32::MAX);
    let params = collect_types(block, row.start);
    let len: usize = block.stmts.len();
    assert(block@.stmts.len() == len);
    let ghost want = piece(bv, rows@, k as int);
    proof {
        lemma_next(rows@, row, rows@.len() as int);
    }
    match find_next(rows, row) {
        Some(j) => {
            let end: usize = rows[j].start;
            assert(row_in(rows@[j as int], bv));
            let args = collect_vars(block, end);
            let out = IRBlock {
                params,
                stmts: clone_range(&block.stmts, row.start, end),
                terminator: IRTerminator::Jmp { target: jump_to(j as u32, args) },
            };
            assert(out@ =~= want);
            out
        },
        None => {
            let out = IRBlock {
                params,
                stmts: clone_range(&block.stmts, row.start, len),
                terminator: block.terminator.clone(),
            };
            assert(block@.stmts.subrange(row.start as int, len as int) =~= block@.stmts.skip(
                row.start as int,
            ));
            assert(out@ =~= want);
            out
        },
    }
}

/// Cut the blocks of a program into pieces.
pub fn cut_blocks<P: Clone>(blocks: &IRBlocks<P>, rows: &Vec<Row>) -> (r: IRBlocks<P>)
    requires
        rows_in(rows@, blocks@.blocks),
    ensures
        r@ == (IRBlocksView { blocks: pieces(blocks@.blocks, rows@), ..blocks@ }),
{
    let mut out: Vec<IRBlock<P>> = Vec::new();
    let mut k: usize = 0;
    while k < rows.len()
        invariant
            k <= rows.len(),
            rows_in(rows@, blocks@.blocks),
            out@.len() == k,
            forall|i: int| 0 <= i < k ==> (#[trigger] out@[i])@ == piece(blocks@.blocks, rows@, i),
        decreases rows.len() - k,
    {
        out.push(cut_piece(blocks, rows, k));
        k += 1;
    }
    assert(block_views(out@) =~= pieces(blocks@.blocks, rows@));
    IRBlocks {
        oracles: clone_oracles(&blocks.oracles),
        actions: clone_actions(&blocks.actions),
        rngs: clone_rngs(&blocks.rngs),
        blocks: out,
        pre_init: clone_pre_init(&blocks.pre_init),
    }
}

// ---------------------------------------------------------------------------
// Running pieces
// ---------------------------------------------------------------------------

/// What a program returns behind a block that is left, if it returns within
/// `fuel` blocks.
spec fn after<V, W>(
    m: Machine<V, W>,
    blocks: Seq<IRBlockView>,
    exit: Exit<V>,
    s: IrState<V, W>,
    fuel: nat,
) -> Option<(Seq<V>, IrState<V, W>)> {
    match exit {
        Exit::Return(vals) => Some((vals, s)),
        Exit::Block(b, next) => run(m, blocks, b.0 as int, next, s, fuel),
        Exit::Dynamic(n, tys, next) => if n < blocks.len() && blocks[n as int].params == tys {
            run(m, blocks, n as int, next, s, fuel)
        } else {
            None
        },
        Exit::Nowhere => None,
    }
}

/// The variables of a piece have the types that they have in the block.
pub proof fn lemma_piece_types(blocks: Seq<IRBlockView>, rows: Seq<Row>, k: int, v: IRVarId)
    requires
        rows_in(rows, blocks),
        0 <= k < rows.len(),
        v.0 < piece(blocks, rows, k).var_space(),
        var_type(blocks[rows[k].block as int], v) is Some,
    ensures
        var_type(piece(blocks, rows, k), v) == var_type(blocks[rows[k].block as int], v),
{
    let r = rows[k];
    assert(row_in(r, blocks));
    let b = blocks[r.block as int];
    let p = piece(blocks, rows, k);
    lemma_next(rows, r, rows.len() as int);
    if let Some(j) = next_row(rows, r) {
        assert(row_in(rows[j], blocks));
    }
    if b.params.len() <= v.0 < p.params.len() {
        let i = v.0 - b.params.len();
        assert(carried(b, b.params.len() + i) == v);
    } else if v.0 >= p.params.len() {
        assert(p.stmts[v.0 - p.params.len()] == b.stmts[v.0 - b.params.len()]);
    }
}

/// Whether variables that have values hold the same.
pub open spec fn agree<V>(known: Seq<IRVarId>, env: Seq<V>, env2: Seq<V>) -> bool {
    &&& env.len() == env2.len()
    &&& forall|v: IRVarId| #[trigger] var_mapped(v, known) ==> at(v, env) == at(v, env2)
}

/// Lists of variables that have values hold the same.
proof fn lemma_list_agrees<V>(
    vs: Seq<IRVarId>,
    known: Seq<IRVarId>,
    env: Seq<V>,
    env2: Seq<V>,
)
    requires
        agree(known, env, env2),
        vars_mapped(vs, known),
    ensures
        at_all(vs, env) == at_all(vs, env2),
{
    assert forall|i: int| 0 <= i < vs.len() implies at_all(vs, env)[i] == at_all(vs, env2)[i] by {
        assert(var_mapped(vs[i], known));
    }
    assert(at_all(vs, env) =~= at_all(vs, env2));
}

/// Sums of variables that have values are the same.
proof fn lemma_sum_agrees<V, W>(
    m: Machine<V, W>,
    ty: IRTypeId,
    terms: Seq<(Seq<IRVarId>, u8)>,
    known: Seq<IRVarId>,
    env: Seq<V>,
    env2: Seq<V>,
)
    requires
        agree(known, env, env2),
        terms_mapped(terms, known),
    ensures
        sum(m, ty, terms, env) == sum(m, ty, terms, env2),
    decreases terms.len(),
{
    if terms.len() > 0 {
        let rest = terms.drop_first();
        assert(vars_mapped(terms[0].0, known));
        lemma_list_agrees(terms[0].0, known, env, env2);
        assert forall|i: int| 0 <= i < rest.len() implies vars_mapped(
            (#[trigger] rest[i]).0,
            known,
        ) by {
            assert(rest[i] == terms[i + 1]);
        }
        lemma_sum_agrees(m, ty, rest, known, env, env2);
    }
}

/// A statement that reads variables that have values does the same.
proof fn lemma_act_agrees<V, W>(
    m: Machine<V, W>,
    s: StmtView,
    known: Seq<IRVarId>,
    env: Seq<V>,
    env2: Seq<V>,
    st: IrState<V, W>,
)
    requires
        agree(known, env, env2),
        stmt_mapped(s, known),
    ensures
        act(m, s, env, st) == act(m, s, env2, st),
{
    match s {
        StmtView::Poly { ty, coeffs, .. } => {
            lemma_sum_agrees(m, ty, coeffs, known, env, env2);
        },
        StmtView::OracleCall { args, .. } => {
            lemma_list_agrees(args, known, env, env2);
        },
        StmtView::Const(..) => {},
        StmtView::StorageRead { addr, .. } => {
            assert(var_mapped(addr, known));
        },
        StmtView::StorageWrite { src, addr, .. } => {
            assert(var_mapped(addr, known));
            assert(var_mapped(src, known));
        },
        StmtView::Transmute { src, .. } => {
            assert(var_mapped(src, known));
        },
        _ => {
            let ops = operands(s);
            assert forall|i: int| 0 <= i < ops.len() implies var_mapped(
                #[trigger] ops[i],
                known,
            ) by {
                match s {
                    StmtView::Shuffle { result_bits, .. } => {
                        assert(var_mapped(result_bits[i].1, known));
                    },
                    StmtView::ActionCall { guard, args, fallbacks, .. } => {
                        if i == 0 {
                        } else if i < 1 + args.len() {
                            assert(ops[i] == args[i - 1]);
                        } else {
                            assert(ops[i] == fallbacks[i - 1 - args.len()]);
                        }
                    },
                    _ => {},
                }
            }
            lemma_list_agrees(ops, known, env, env2);
        },
    }
}

/// Statements of a block that is well scoped do the same.
proof fn lemma_run_agrees<V, W>(
    m: Machine<V, W>,
    b: IRBlockView,
    from: int,
    to: int,
    env: Seq<V>,
    env2: Seq<V>,
    st: IrState<V, W>,
)
    requires
        scoped(b),
        0 <= from <= to <= b.stmts.len(),
        env.len() == b.params.len() + from,
        agree(scope(b, from), env, env2),
    ensures
        ({
            let part = b.stmts.subrange(from, to);
            let (e, s) = run_stmts(m, part, env, st);
            let (e2, s2) = run_stmts(m, part, env2, st);
            &&& s == s2
            &&& e.len() == b.params.len() + to
            &&& agree(scope(b, to), e, e2)
        }),
    decreases to,
{
    let part = b.stmts.subrange(from, to);
    if from < to {
        lemma_run_agrees(m, b, from, to - 1, env, env2, st);
        let less = b.stmts.subrange(from, to - 1);
        let x = b.stmts[to - 1];
        assert(part =~= less.push(x));
        let (e, s) = run_stmts(m, less, env, st);
        let (e2, s2) = run_stmts(m, less, env2, st);
        lemma_run_push(m, less, x, env, st);
        lemma_run_push(m, less, x, env2, st);
        lemma_act_agrees(m, x, scope(b, to - 1), e, e2, s);
        let (f, t) = run_stmts(m, part, env, st);
        let (f2, t2) = run_stmts(m, part, env2, st);
        assert forall|v: IRVarId| #[trigger] var_mapped(v, scope(b, to)) implies at(v, f) == at(
            v,
            f2,
        ) by {
            if v.0 < e.len() {
                assert(var_mapped(v, scope(b, to - 1)));
            }
        }
    }
}

/// A block that is well scoped is left in the same way, by its last piece too.
proof fn lemma_leave_agrees<V, W>(
    m: Machine<V, W>,
    blocks: Seq<IRBlockView>,
    rows: Seq<Row>,
    k: int,
    e: Seq<V>,
    e2: Seq<V>,
)
    requires
        rows_in(rows, blocks),
        0 <= k < rows.len(),
        next_row(rows, rows[k]) is None,
        scoped(blocks[rows[k].block as int]),
        ({
            let b = blocks[rows[k].block as int];
            agree(scope(b, b.stmts.len() as int), e, e2)
        }),
    ensures
        leave(m, piece(blocks, rows, k), e2) == leave(m, blocks[rows[k].block as int], e),
{
    assert(row_in(rows[k], blocks));
    let b = blocks[rows[k].block as int];
    let p = piece(blocks, rows, k);
    let known = scope(b, b.stmts.len() as int);
    assert forall|v: IRVarId| #[trigger] var_type(b, v) is Some implies var_mapped(v, known) by {
        assert(known[v.0 as int] == v);
    }
    match b.terminator {
        TermView::Jmp { .. } => {},
        TermView::JumpCond { condition, .. } => {
            assert(var_type(b, condition) is Some);
            assert(var_mapped(condition, known));
        },
        TermView::JumpTable { index, cases } => {
            assert(var_type(b, index) is Some);
            assert(var_mapped(index, known));
            lemma_same_case(cases, cases, (m.number)(at(index, e)));
        },
    }
    match taken(m, b.terminator, e) {
        Some(a) => {
            let arm = arms(b.terminator)[a];
            let args = arm.args;
            assert(vars_typed(b, args));
            assert(vars_mapped(args, known)) by {
                assert forall|q: int| 0 <= q < args.len() implies var_mapped(
                    #[trigger] args[q],
                    known,
                ) by {
                    assert(var_type(b, args[q]) is Some);
                }
            }
            lemma_list_agrees(args, known, e, e2);
            assert(var_types(p, args) =~= var_types(b, args)) by {
                assert forall|q: int| 0 <= q < args.len() implies var_types(p, args)[q]
                    == var_types(b, args)[q] by {
                    assert(var_type(b, args[q]) is Some);
                    lemma_piece_types(blocks, rows, k, args[q]);
                }
            }
            if let crate::ir::IRBlockTargetId::Dyn(v) = arm.dest {
                assert(var_type(b, v) is Some);
                assert(var_mapped(v, known));
            }
        },
        None => {},
    }
}

/// A piece, with those behind it, does what is left of the block.
proof fn lemma_piece<V, W>(
    m: Machine<V, W>,
    blocks: Seq<IRBlockView>,
    rows: Seq<Row>,
    k: int,
    env: Seq<V>,
    env2: Seq<V>,
    st: IrState<V, W>,
) -> (d: nat)
    requires
        rows_in(rows, blocks),
        0 <= k < rows.len(),
        scoped(blocks[rows[k].block as int]),
        env.len() == blocks[rows[k].block as int].params.len() + rows[k].start,
        agree(scope(blocks[rows[k].block as int], rows[k].start as int), env, env2),
    ensures
        forall|fuel: nat| #[trigger]
            run(m, pieces(blocks, rows), k, env2, st, fuel + d) == ({
                let b = blocks[rows[k].block as int];
                let (e, s) = run_stmts(m, b.stmts.skip(rows[k].start as int), env, st);
                after(m, pieces(blocks, rows), leave(m, b, e), s, fuel)
            }),
    decreases
            blocks[rows[k].block as int].stmts.len() - rows[k].start,
            if rows[k].entry {
                1int
            } else {
                0int
            },
{
    let r = rows[k];
    let b = blocks[r.block as int];
    let ps = pieces(blocks, rows);
    let p = piece(blocks, rows, k);
    assert(row_in(rows[k], blocks));
    assert(ps[k] == p);
    lemma_next(rows, r, rows.len() as int);
    let rest = b.stmts.skip(r.start as int);
    let len = b.stmts.len() as int;
    let (e, s) = run_stmts(m, rest, env, st);
    match next_row(rows, r) {
        Some(j) => {
            assert(row_in(rows[j], blocks));
            let c = rows[j].start as int;
            let part = b.stmts.subrange(r.start as int, c);
            let tail = b.stmts.skip(c);
            assert(part + tail =~= rest);
            lemma_run_both(m, part, tail, env, st);
            lemma_run_agrees(m, b, r.start as int, c, env, env2, st);
            let (e1, s1) = run_stmts(m, part, env, st);
            let e2 = run_stmts(m, part, env2, st).0;
            let args = carried_vars(b, b.params.len() + c as nat);
            let next = at_all(args, e2);
            assert(agree(scope(b, c), e1, next)) by {
                assert forall|v: IRVarId| #[trigger] var_mapped(v, scope(b, c)) implies at(v, e1)
                    == at(v, next) by {
                    assert(var_type(b, v) is Some);
                    assert(carried(b, v.0 as int) == v);
                    assert(args[v.0 as int] == v);
                }
            }
            let d = lemma_piece(m, blocks, rows, j, e1, next, s1);
            assert(arms(p.terminator)[0] == jump(j as u32, args));
            assert(run_block(m, p, env2, st) == (
                Exit::Block(crate::ir::IRBlockId(j as u32), next),
                s1,
            ));
            assert forall|fuel: nat| #[trigger] run(m, ps, k, env2, st, fuel + (d + 1)) == after(
                m,
                ps,
                leave(m, b, e),
                s,
                fuel,
            ) by {
                assert(run(m, ps, k, env2, st, fuel + (d + 1)) == run(
                    m,
                    ps,
                    j,
                    next,
                    s1,
                    fuel + d,
                ));
            }
            d + 1
        },
        None => {
            lemma_run_agrees(m, b, r.start as int, len, env, env2, st);
            assert(b.stmts.subrange(r.start as int, len) =~= rest);
            let e2 = run_stmts(m, rest, env2, st).0;
            lemma_leave_agrees(m, blocks, rows, k, e, e2);
            assert(run_block(m, p, env2, st) == (leave(m, b, e), s));
            assert forall|fuel: nat| #[trigger] run(m, ps, k, env2, st, fuel + 1) == after(
                m,
                ps,
                leave(m, b, e),
                s,
                fuel,
            ) by {}
            1
        },
    }
}

/// What a program returns from a block on, its pieces return from the first
/// piece of the block on.
pub proof fn lemma_pieces<V, W>(
    m: Machine<V, W>,
    blocks: Seq<IRBlockView>,
    rows: Seq<Row>,
    i: int,
    args: Seq<V>,
    st: IrState<V, W>,
    fuel: nat,
) -> (d: nat)
    requires
        rows_in(rows, blocks),
        forall|k: int| 0 <= k < blocks.len() ==> scoped(#[trigger] blocks[k]),
        forall|k: int, a: int|
            0 <= k < blocks.len() && 0 <= a < arms(blocks[k].terminator).len() ==> hands_over(
                #[trigger] arms(blocks[k].terminator)[a],
                blocks,
            ),
        0 <= i < blocks.len(),
        args.len() == blocks[i].params.len(),
        run(m, blocks, i, args, st, fuel) is Some,
    ensures
        run(m, pieces(blocks, rows), i, args, st, d) == run(m, blocks, i, args, st, fuel),
    decreases fuel,
{
    let b = blocks[i];
    let ps = pieces(blocks, rows);
    assert(rows[i].block == i && rows[i].start == 0);
    let d = lemma_piece(m, blocks, rows, i, args, args, st);
    assert(b.stmts.skip(0) =~= b.stmts);
    let (e, s) = run_stmts(m, b.stmts, args, st);
    let exit = leave(m, b, e);
    assert(run_block(m, b, args, st) == (exit, s));
    let less = (fuel - 1) as nat;
    let a = taken(m, b.terminator, e)->0;
    match b.terminator {
        TermView::JumpTable { index, cases } => {
            lemma_same_case(cases, cases, (m.number)(at(index, e)));
        },
        _ => {},
    }
    assert(hands_over(arms(b.terminator)[a], blocks));
    match exit {
        Exit::Return(vals) => {
            assert(run(m, ps, i, args, st, 0 + d) == after(m, ps, exit, s, 0));
            0 + d
        },
        Exit::Block(t, next) => {
            let rest = lemma_pieces(m, blocks, rows, t.0 as int, next, s, less);
            assert(run(m, ps, i, args, st, rest + d) == after(m, ps, exit, s, rest));
            rest + d
        },
        Exit::Dynamic(n, tys, next) => {
            let t = n as int;
            assert(ps[t] == piece(blocks, rows, t));
            assert(rows[t].block == t && rows[t].start == 0);
            assert(types_before(blocks[t], 0) =~= blocks[t].params);
            assert(next.len() == tys.len());
            let rest = lemma_pieces(m, blocks, rows, t, next, s, less);
            assert(run(m, ps, i, args, st, rest + d) == after(m, ps, exit, s, rest));
            rest + d
        },
        Exit::Nowhere => { 0 },
    }
}

/// A program cut into pieces does what the program does: from each block on it
/// returns the same values in the same state, whenever the program returns. Its
/// blocks are well scoped, and its branches hand over as many values as are
/// taken.
pub proof fn law_pieces_run_alike<V, W>(
    m: Machine<V, W>,
    blocks: Seq<IRBlockView>,
    rows: Seq<Row>,
    i: int,
    args: Seq<V>,
    st: IrState<V, W>,
    fuel: nat,
)
    requires
        rows_in(rows, blocks),
        forall|k: int| 0 <= k < blocks.len() ==> scoped(#[trigger] blocks[k]),
        forall|k: int, a: int|
            0 <= k < blocks.len() && 0 <= a < arms(blocks[k].terminator).len() ==> hands_over(
                #[trigger] arms(blocks[k].terminator)[a],
                blocks,
            ),
        0 <= i < blocks.len(),
        args.len() == blocks[i].params.len(),
        run(m, blocks, i, args, st, fuel) is Some,
    ensures
        exists|fuel2: nat| #[trigger]
            run(m, pieces(blocks, rows), i, args, st, fuel2) == run(m, blocks, i, args, st, fuel),
{
    let d = lemma_pieces(m, blocks, rows, i, args, st, fuel);
}

} // verus!
