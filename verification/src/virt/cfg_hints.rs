//! Loops that termination hints on back edges announce.

use vstd::prelude::*;

use crate::common::{ascending_measure, ReentryHint};
use crate::ir::{
    BranchView, IRBlock, IRBlockTargetId, IRBlockView, IRBlocks, IRBranchTarget, IRVarId, Stmt,
    StmtView,
};
use crate::virt::bytecode::TripCount;
use crate::virt::regs::{arms, branch_views, terminator_arms};

verus! {

/// A loop with a bounded number of rounds.
#[derive(Clone, Copy, PartialEq, Eq, Debug, Structural)]
pub struct HintedLoop {
    pub header: usize,
    pub body: usize,
    pub trip_count: TripCount,
}

/// The number that a variable of a block is set to, if it is a constant.
pub open spec fn const_of_var(b: IRBlockView, v: IRVarId) -> Option<u64> {
    if b.params.len() <= v.0 < b.var_space() {
        match b.stmts[v.0 - b.params.len()] {
            StmtView::Const(c, _) => Some(c.lo as u64),
            _ => None,
        }
    } else {
        None
    }
}

/// The last two arguments of a branch, if both are constants.
pub open spec fn const_pair(b: IRBlockView, args: Seq<IRVarId>) -> Option<(u64, u64)> {
    if args.len() < 2 {
        None
    } else {
        match (const_of_var(b, args[args.len() - 2]), const_of_var(b, args[args.len() - 1])) {
            (Some(x), Some(y)) => Some((x, y)),
            _ => None,
        }
    }
}

/// The number of rounds that a branch into a loop announces: its last two
/// arguments are the first and the last value of the counter.
pub open spec fn arm_trip(b: IRBlockView, arm: BranchView, header: int) -> Option<u32> {
    if arm.reentry is Some || !(arm.dest matches IRBlockTargetId::Block(t) && t.0 == header) {
        None
    } else {
        match const_pair(b, arm.args) {
            Some((start, limit)) => if limit >= start {
                Some((limit - start) as u64 as u32)
            } else {
                None
            },
            None => None,
        }
    }
}

/// The number of rounds that the first branch of a list announces.
pub open spec fn arms_trip(b: IRBlockView, list: Seq<BranchView>, header: int) -> Option<u32>
    decreases list.len(),
{
    if list.len() == 0 {
        None
    } else {
        match arm_trip(b, list[0], header) {
            Some(n) => Some(n),
            None => arms_trip(b, list.drop_first(), header),
        }
    }
}

/// The number of rounds that the first block of a list announces.
pub open spec fn blocks_trip(blocks: Seq<IRBlockView>, header: int) -> Option<u32>
    decreases blocks.len(),
{
    if blocks.len() == 0 {
        None
    } else {
        match arms_trip(blocks[0], arms(blocks[0].terminator), header) {
            Some(n) => Some(n),
            None => blocks_trip(blocks.drop_first(), header),
        }
    }
}

/// The number of rounds of a loop.
pub open spec fn loop_trip(blocks: Seq<IRBlockView>, header: int) -> TripCount {
    match blocks_trip(blocks, header) {
        Some(n) => TripCount::Fixed(n),
        None => TripCount::BytecodeSlot(0),
    }
}

/// The loop that a branch of block `from` closes, if it is a back edge with the
/// hint of a counting loop.
pub open spec fn arm_loop(blocks: Seq<IRBlockView>, from: int, arm: BranchView) -> Seq<HintedLoop> {
    match (arm.reentry, arm.dest) {
        (Some(hint), IRBlockTargetId::Block(t)) => if t.0 <= from && hint == seq![
            ascending_measure(),
        ] {
            seq![
                HintedLoop {
                    header: t.0 as usize,
                    body: from as usize,
                    trip_count: loop_trip(blocks, t.0 as int),
                },
            ]
        } else {
            Seq::empty()
        },
        _ => Seq::empty(),
    }
}

/// The loops that the branches of a list close.
pub open spec fn arms_loops(blocks: Seq<IRBlockView>, from: int, list: Seq<BranchView>) -> Seq<
    HintedLoop,
>
    decreases list.len(),
{
    if list.len() == 0 {
        Seq::empty()
    } else {
        arms_loops(blocks, from, list.drop_last()) + arm_loop(blocks, from, list.last())
    }
}

/// The loops that the first `n` blocks close.
pub open spec fn loops_before(blocks: Seq<IRBlockView>, n: int) -> Seq<HintedLoop>
    decreases n,
{
    if n <= 0 {
        Seq::empty()
    } else {
        loops_before(blocks, n - 1) + arms_loops(blocks, n - 1, arms(blocks[n - 1].terminator))
    }
}

/// The loops of a module that hints announce.
pub open spec fn hinted_loops(blocks: Seq<IRBlockView>) -> Seq<HintedLoop> {
    loops_before(blocks, blocks.len() as int)
}

/// The number that a variable of a block is set to, if it is a constant.
fn const_u64_from_var<P>(block: &IRBlock<P>, var: IRVarId) -> (r: Option<u64>)
    ensures
        r == const_of_var(block@, var),
{
    let idx: usize = var.0 as usize;
    if idx < block.params.len() {
        return None;
    }
    let s: usize = idx - block.params.len();
    if s >= block.stmts.len() {
        return None;
    }
    assert(block@.stmts[s as int] == block.stmts@[s as int].kind@);
    match &block.stmts[s].kind {
        Stmt::Const(c, _) => Some(c.lo as u64),
        _ => None,
    }
}

/// The last two arguments of a branch, if both are constants.
fn u64_pair_from_vars<P>(pred: &IRBlock<P>, args: &Vec<IRVarId>) -> (r: Option<(u64, u64)>)
    ensures
        r == const_pair(pred@, args@),
{
    if args.len() < 2 {
        return None;
    }
    let start = const_u64_from_var(pred, args[args.len() - 2]);
    let limit = const_u64_from_var(pred, args[args.len() - 1]);
    match (start, limit) {
        (Some(x), Some(y)) => Some((x, y)),
        _ => None,
    }
}

/// Whether a hint is that of a counting loop.
fn matches_bounded_loop_hint(h: &ReentryHint) -> (r: bool)
    ensures
        r == (h@ == seq![ascending_measure()]),
{
    h.same(&ReentryHint::bounded_loop_ascending())
}

/// The number of rounds that a branch into a loop announces.
fn branch_trip<P>(pred: &IRBlock<P>, bt: &IRBranchTarget, header: usize) -> (r: Option<u32>)
    ensures
        r == arm_trip(pred@, bt@, header as int),
{
    if bt.reentry.is_some() {
        return None;
    }
    match &bt.dest {
        IRBlockTargetId::Block(t) => {
            if t.0 as usize != header {
                return None;
            }
        },
        _ => {
            return None;
        },
    }
    match u64_pair_from_vars(pred, &bt.args) {
        Some((start, limit)) => if limit >= start {
            Some((limit - start) as u32)
        } else {
            None
        },
        None => None,
    }
}

/// The number of rounds of a loop.
fn infer_bounded_trip<P>(blocks: &IRBlocks<P>, header: usize) -> (r: TripCount)
    ensures
        r == loop_trip(blocks@.blocks, header as int),
{
    let ghost bv = blocks@.blocks;
    let mut b: usize = 0;
    assert(bv.skip(0) =~= bv);
    while b < blocks.blocks.len()
        invariant
            b <= blocks.blocks.len(),
            bv == blocks@.blocks,
            blocks_trip(bv, header as int) == blocks_trip(bv.skip(b as int), header as int),
        decreases blocks.blocks.len() - b,
    {
        let pred = &blocks.blocks[b];
        let list = terminator_arms(&pred.terminator);
        let ghost av = arms(pred@.terminator);
        proof {
            assert(bv.skip(b as int)[0] == pred@);
            assert(bv.skip(b as int).drop_first() =~= bv.skip(b + 1));
            assert(av.skip(0) =~= av);
        }
        let mut a: usize = 0;
        while a < list.len()
            invariant
                a <= list.len(),
                b < blocks.blocks.len(),
                bv == blocks@.blocks,
                bv.skip(b as int).len() > 0,
                bv.skip(b as int)[0] == pred@,
                av == arms(pred@.terminator),
                branch_views(list@) == av,
                blocks_trip(bv, header as int) == blocks_trip(bv.skip(b as int), header as int),
                arms_trip(pred@, av, header as int) == arms_trip(
                    pred@,
                    av.skip(a as int),
                    header as int,
                ),
            decreases list.len() - a,
        {
            assert(list@[a as int]@ == av[a as int]);
            assert(av.skip(a as int)[0] == av[a as int]);
            assert(av.skip(a as int).drop_first() =~= av.skip(a + 1));
            if let Some(n) = branch_trip(pred, list[a], header) {
                return TripCount::Fixed(n);
            }
            a += 1;
        }
        b += 1;
    }
    TripCount::BytecodeSlot(0)
}

/// The loops of a module that hints announce.
pub fn collect_hinted_loops<P>(blocks: &IRBlocks<P>) -> (r: Vec<HintedLoop>)
    requires
        blocks@.blocks.len() <= u32::MAX,
    ensures
        r@ == hinted_loops(blocks@.blocks),
{
    let ghost bv = blocks@.blocks;
    let mut out: Vec<HintedLoop> = Vec::new();
    let mut from: usize = 0;
    while from < blocks.blocks.len()
        invariant
            from <= blocks.blocks.len(),
            bv == blocks@.blocks,
            out@ == loops_before(bv, from as int),
        decreases blocks.blocks.len() - from,
    {
        let block = &blocks.blocks[from];
        let list = terminator_arms(&block.terminator);
        let ghost av = arms(block@.terminator);
        let ghost before = out@;
        assert(bv[from as int] == block@);
        let mut a: usize = 0;
        assert(before + arms_loops(bv, from as int, av.take(0)) =~= before);
        while a < list.len()
            invariant
                a <= list.len(),
                bv == blocks@.blocks,
                av == arms(block@.terminator),
                branch_views(list@) == av,
                out@ == before + arms_loops(bv, from as int, av.take(a as int)),
            decreases list.len() - a,
        {
            proof {
                assert(list@[a as int]@ == av[a as int]);
                assert(av.take(a + 1).drop_last() =~= av.take(a as int));
                assert(av.take(a + 1).last() == av[a as int]);
            }
            let bt = list[a];
            let ghost shorter = out@;
            if let Some(hint) = &bt.reentry {
                if let IRBlockTargetId::Block(t) = &bt.dest {
                    if t.0 as usize <= from && matches_bounded_loop_hint(hint) {
                        let header: usize = t.0 as usize;
                        let trip_count = infer_bounded_trip(blocks, header);
                        out.push(HintedLoop { header, body: from, trip_count });
                    }
                }
            }
            proof {
                assert(out@ =~= shorter + arm_loop(bv, from as int, av[a as int]));
                assert(out@ =~= before + arms_loops(bv, from as int, av.take(a + 1)));
            }
            a += 1;
        }
        assert(av.take(a as int) =~= av);
        from += 1;
    }
    out
}

} // verus!
