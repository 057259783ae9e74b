//! Canonical forms of blocks.
//!
//! Two blocks with the same key can be executed by one handler body: they
//! differ only in the values that were lifted out of them.

use vstd::prelude::*;

use crate::boolar::{
    bir_node_kinds, BIrBlock, BIrBlockView, BIrStmt, BIrStmtView, BIrTarget, BIrTargetView,
    BIrTermView, BIrTerminator,
};
use crate::common::{type_ids_eq, Constant};
use crate::ir::{
    case_views, clone_hint, node_kinds, BranchView, IRBlock, IRBlockId, IRBlockTargetId,
    IRBlockView, IRBranchTarget, IRStmt, IRTerminator, IRTypeId, Stmt, StmtView, TermView,
};

verus! {

/// What a lifted value is.
#[derive(Clone, Copy, PartialEq, Eq, PartialOrd, Ord, Hash, Debug, Structural)]
pub enum ImmediateKind {
    /// The value of a constant, or the constant term of a polynomial.
    Constant,
    /// A block that a terminator jumps to.
    BlockTarget,
}

/// The values lifted out of a block, in the order of their places.
#[derive(PartialEq, Eq, Debug)]
pub struct BlockImmediates {
    pub consts: Vec<Constant>,
    pub targets: Vec<IRBlockId>,
}

/// What a [`BlockImmediates`] denotes.
#[verifier::ext_equal]
pub struct ImmediatesView {
    pub consts: Seq<Constant>,
    pub targets: Seq<IRBlockId>,
}

impl View for BlockImmediates {
    type V = ImmediatesView;

    open spec fn view(&self) -> ImmediatesView {
        ImmediatesView { consts: self.consts@, targets: self.targets@ }
    }
}

impl Clone for BlockImmediates {
    fn clone(&self) -> (r: Self)
        ensures
            r@ == self@,
    {
        BlockImmediates { consts: self.consts.clone(), targets: self.targets.clone() }
    }
}

/// A key that identifies a handler.
pub trait HandlerKey: View + Sized {
    /// The kinds of the values that a block with this key supplies.
    spec fn schema(&self) -> Seq<ImmediateKind>;

    /// The kinds of the values that a block with this key supplies.
    fn immediate_schema(&self) -> (r: Vec<ImmediateKind>)
        ensures
            r@ == self.schema(),
    ;

    /// Whether two keys are the same.
    fn same_key(&self, other: &Self) -> (r: bool)
        ensures
            r == (self@ == other@),
    ;

    /// A copy of the key.
    fn clone_key(&self) -> (r: Self)
        ensures
            r@ == self@,
            r.schema() == self.schema(),
    ;
}

/// A lifted value with its type.
#[derive(Clone, Copy, PartialEq, Eq, Debug, Structural)]
pub struct IrImmediateSlot {
    pub kind: ImmediateKind,
    pub ty: IRTypeId,
}

// ---------------------------------------------------------------------------
// Typed blocks
// ---------------------------------------------------------------------------

/// What stands in the place of a lifted constant.
pub open spec fn zero_constant() -> Constant {
    Constant { hi: 0, lo: 0 }
}

/// What stands in the place of a lifted constant.
pub fn make_zero_constant() -> (r: Constant)
    ensures
        r == zero_constant(),
{
    Constant { hi: 0, lo: 0 }
}

/// What stands in the place of a lifted block.
pub open spec fn zero_block() -> IRBlockId {
    IRBlockId(0)
}

/// The statement with its constant replaced.
pub open spec fn canon_stmt(s: StmtView) -> StmtView {
    match s {
        StmtView::Const(_, ty) => StmtView::Const(zero_constant(), ty),
        StmtView::Poly { ty, coeffs, .. } => StmtView::Poly {
            ty,
            coeffs,
            constant: zero_constant(),
        },
        _ => s,
    }
}

/// The constant of a statement, if it has one.
pub open spec fn lifted_const(s: StmtView) -> Seq<Constant> {
    match s {
        StmtView::Const(c, _) => seq![c],
        StmtView::Poly { constant, .. } => seq![constant],
        _ => Seq::empty(),
    }
}

/// The constants of a list of statements, in order.
pub open spec fn lifted_consts(s: Seq<StmtView>) -> Seq<Constant>
    decreases s.len(),
{
    if s.len() == 0 {
        Seq::empty()
    } else {
        lifted_consts(s.drop_last()) + lifted_const(s.last())
    }
}

/// The statements with their constants replaced.
pub open spec fn canon_stmts(s: Seq<StmtView>) -> Seq<StmtView> {
    s.map_values(|x: StmtView| canon_stmt(x))
}

/// The destination with its block replaced.
pub open spec fn canon_dest(d: IRBlockTargetId) -> IRBlockTargetId {
    match d {
        IRBlockTargetId::Block(_) => IRBlockTargetId::Block(zero_block()),
        _ => d,
    }
}

/// The block of a destination, if it names one.
pub open spec fn lifted_dest(d: IRBlockTargetId) -> Seq<IRBlockId> {
    match d {
        IRBlockTargetId::Block(b) => seq![b],
        _ => Seq::empty(),
    }
}

/// The branch with its block replaced.
pub open spec fn canon_branch(b: BranchView) -> BranchView {
    BranchView { dest: canon_dest(b.dest), ..b }
}

/// The blocks of the cases of a jump table, in order.
pub open spec fn lifted_cases(cases: Seq<(Constant, BranchView)>) -> Seq<IRBlockId>
    decreases cases.len(),
{
    if cases.len() == 0 {
        Seq::empty()
    } else {
        lifted_cases(cases.drop_last()) + lifted_dest(cases.last().1.dest)
    }
}

/// The terminator with its blocks replaced.
pub open spec fn canon_term(t: TermView) -> TermView {
    match t {
        TermView::Jmp { target } => TermView::Jmp { target: canon_branch(target) },
        TermView::JumpCond { condition, then_target, else_target } => TermView::JumpCond {
            condition,
            then_target: canon_branch(then_target),
            else_target: canon_branch(else_target),
        },
        TermView::JumpTable { index, cases } => TermView::JumpTable {
            index,
            cases: cases.map_values(|c: (Constant, BranchView)| (c.0, canon_branch(c.1))),
        },
    }
}

/// The blocks that a terminator names, in order.
pub open spec fn lifted_targets(t: TermView) -> Seq<IRBlockId> {
    match t {
        TermView::Jmp { target } => lifted_dest(target.dest),
        TermView::JumpCond { then_target, else_target, .. } => lifted_dest(then_target.dest)
            + lifted_dest(else_target.dest),
        TermView::JumpTable { cases, .. } => lifted_cases(cases),
    }
}

/// The canonical form of a typed block.
#[derive(PartialEq, Eq, PartialOrd, Ord, Hash, Debug)]
pub struct IrHandlerKey {
    pub params: Vec<IRTypeId>,
    pub stmts: Vec<IRStmt>,
    pub terminator: IRTerminator,
}

/// The statements of a list.
pub open spec fn stmt_views(s: Seq<IRStmt>) -> Seq<StmtView> {
    s.map_values(|x: IRStmt| x@)
}

impl View for IrHandlerKey {
    type V = IRBlockView;

    open spec fn view(&self) -> IRBlockView {
        IRBlockView {
            params: self.params@,
            stmts: stmt_views(self.stmts@),
            terminator: self.terminator@,
        }
    }
}

/// The key of a typed block.
pub open spec fn ir_key(b: IRBlockView) -> IRBlockView {
    IRBlockView {
        params: b.params,
        stmts: canon_stmts(b.stmts),
        terminator: canon_term(b.terminator),
    }
}

/// The values lifted out of a typed block.
pub open spec fn ir_immediates(b: IRBlockView) -> ImmediatesView {
    ImmediatesView { consts: lifted_consts(b.stmts), targets: lifted_targets(b.terminator) }
}

/// One kind for each lifted constant.
pub open spec fn const_kinds(s: Seq<StmtView>) -> Seq<ImmediateKind>
    decreases s.len(),
{
    if s.len() == 0 {
        Seq::empty()
    } else if s.last() is Const || s.last() is Poly {
        const_kinds(s.drop_last()).push(ImmediateKind::Constant)
    } else {
        const_kinds(s.drop_last())
    }
}

/// One kind for each of `n` lifted blocks.
pub open spec fn target_kinds(n: nat) -> Seq<ImmediateKind> {
    Seq::new(n, |i: int| ImmediateKind::BlockTarget)
}

/// The kinds of the values lifted out of a typed block.
pub open spec fn ir_schema(key: IRBlockView) -> Seq<ImmediateKind> {
    const_kinds(key.stmts) + target_kinds(lifted_targets(key.terminator).len())
}

/// One typed slot for each lifted constant.
pub open spec fn const_slots(s: Seq<StmtView>) -> Seq<IrImmediateSlot>
    decreases s.len(),
{
    if s.len() == 0 {
        Seq::empty()
    } else {
        match s.last() {
            StmtView::Const(_, ty) => const_slots(s.drop_last()).push(
                IrImmediateSlot { kind: ImmediateKind::Constant, ty },
            ),
            StmtView::Poly { ty, .. } => const_slots(s.drop_last()).push(
                IrImmediateSlot { kind: ImmediateKind::Constant, ty },
            ),
            _ => const_slots(s.drop_last()),
        }
    }
}

/// Append one kind for each block that a terminator names.
fn append_ir_terminator_schema(term: &IRTerminator, out: &mut Vec<ImmediateKind>)
    ensures
        final(out)@ == old(out)@ + target_kinds(lifted_targets(term@).len()),
{
    match term {
        IRTerminator::Jmp { target } => {
            if let IRBlockTargetId::Block(_) = &target.dest {
                out.push(ImmediateKind::BlockTarget);
            }
        },
        IRTerminator::JumpCond { then_target, else_target, .. } => {
            if let IRBlockTargetId::Block(_) = &then_target.dest {
                out.push(ImmediateKind::BlockTarget);
            }
            if let IRBlockTargetId::Block(_) = &else_target.dest {
                out.push(ImmediateKind::BlockTarget);
            }
        },
        IRTerminator::JumpTable { cases, .. } => {
            let ghost cv = case_views(cases@);
            let mut i: usize = 0;
            while i < cases.len()
                invariant
                    i <= cases.len(),
                    cv == case_views(cases@),
                    out@ == old(out)@ + target_kinds(lifted_cases(cv.take(i as int)).len()),
                decreases cases.len() - i,
            {
                proof {
                    let longer = cv.take(i + 1);
                    assert(longer.drop_last() =~= cv.take(i as int));
                    assert(longer.last() == cv[i as int]);
                }
                let ghost before = out@;
                if let IRBlockTargetId::Block(_) = &cases[i].1.dest {
                    out.push(ImmediateKind::BlockTarget);
                }
                assert(out@ =~= old(out)@ + target_kinds(lifted_cases(cv.take(i + 1)).len()));
                i += 1;
            }
            assert(cv.take(i as int) =~= cv);
        },
    }
    assert(out@ =~= old(out)@ + target_kinds(lifted_targets(term@).len()));
}

/// A copy of a list of statements.
pub fn clone_stmts(s: &Vec<IRStmt>) -> (r: Vec<IRStmt>)
    ensures
        stmt_views(r@) == stmt_views(s@),
{
    let mut out: Vec<IRStmt> = Vec::new();
    let mut i: usize = 0;
    while i < s.len()
        invariant
            i <= s.len(),
            out@.len() == i,
            forall|j: int| 0 <= j < i ==> (#[trigger] out@[j])@ == s@[j]@,
        decreases s.len() - i,
    {
        out.push(s[i].clone());
        i += 1;
    }
    assert(stmt_views(out@) =~= stmt_views(s@));
    out
}

/// Whether two lists of statements are the same.
pub fn stmts_same(a: &Vec<IRStmt>, b: &Vec<IRStmt>) -> (r: bool)
    ensures
        r == (stmt_views(a@) == stmt_views(b@)),
{
    if a.len() != b.len() {
        assert(stmt_views(a@).len() != stmt_views(b@).len());
        return false;
    }
    let mut i: usize = 0;
    while i < a.len()
        invariant
            i <= a.len(),
            a.len() == b.len(),
            forall|j: int| 0 <= j < i ==> stmt_views(a@)[j] == stmt_views(b@)[j],
        decreases a.len() - i,
    {
        if !a[i].same(&b[i]) {
            assert(stmt_views(a@)[i as int] != stmt_views(b@)[i as int]);
            return false;
        }
        i += 1;
    }
    assert(stmt_views(a@) =~= stmt_views(b@));
    true
}

impl HandlerKey for IrHandlerKey {
    open spec fn schema(&self) -> Seq<ImmediateKind> {
        ir_schema(self@)
    }

    fn immediate_schema(&self) -> (r: Vec<ImmediateKind>) {
        let mut out: Vec<ImmediateKind> = Vec::new();
        let ghost sv = stmt_views(self.stmts@);
        let mut i: usize = 0;
        while i < self.stmts.len()
            invariant
                i <= self.stmts.len(),
                sv == stmt_views(self.stmts@),
                out@ == const_kinds(sv.take(i as int)),
            decreases self.stmts.len() - i,
        {
            proof {
                let longer = sv.take(i + 1);
                assert(longer.drop_last() =~= sv.take(i as int));
                assert(longer.last() == sv[i as int]);
            }
            match &self.stmts[i] {
                Stmt::Const(_, _) => {
                    out.push(ImmediateKind::Constant);
                },
                Stmt::Poly { .. } => {
                    out.push(ImmediateKind::Constant);
                },
                _ => {},
            }
            i += 1;
        }
        assert(sv.take(i as int) =~= sv);
        append_ir_terminator_schema(&self.terminator, &mut out);
        out
    }

    fn same_key(&self, other: &Self) -> (r: bool) {
        type_ids_eq(&self.params, &other.params) && stmts_same(&self.stmts, &other.stmts)
            && self.terminator.same(&other.terminator)
    }

    fn clone_key(&self) -> (r: Self) {
        IrHandlerKey {
            params: self.params.clone(),
            stmts: clone_stmts(&self.stmts),
            terminator: self.terminator.clone(),
        }
    }
}

impl IrHandlerKey {
    /// The lifted values with their types: constants have their own, blocks
    /// have `addr_ty`.
    pub fn typed_immediate_schema(&self, addr_ty: IRTypeId) -> (r: Vec<IrImmediateSlot>)
        ensures
            r@ == const_slots(self@.stmts) + Seq::new(
                lifted_targets(self@.terminator).len(),
                |i: int| IrImmediateSlot { kind: ImmediateKind::BlockTarget, ty: addr_ty },
            ),
    {
        let mut out: Vec<IrImmediateSlot> = Vec::new();
        let ghost sv = stmt_views(self.stmts@);
        let mut i: usize = 0;
        while i < self.stmts.len()
            invariant
                i <= self.stmts.len(),
                sv == stmt_views(self.stmts@),
                out@ == const_slots(sv.take(i as int)),
            decreases self.stmts.len() - i,
        {
            proof {
                let longer = sv.take(i + 1);
                assert(longer.drop_last() =~= sv.take(i as int));
                assert(longer.last() == sv[i as int]);
            }
            match &self.stmts[i] {
                Stmt::Const(_, ty) => {
                    out.push(IrImmediateSlot { kind: ImmediateKind::Constant, ty: *ty });
                },
                Stmt::Poly { ty, .. } => {
                    out.push(IrImmediateSlot { kind: ImmediateKind::Constant, ty: *ty });
                },
                _ => {},
            }
            i += 1;
        }
        assert(sv.take(i as int) =~= sv);
        let mut tslots: Vec<ImmediateKind> = Vec::new();
        append_ir_terminator_schema(&self.terminator, &mut tslots);
        let ghost n = lifted_targets(self@.terminator).len();
        let ghost slot = IrImmediateSlot { kind: ImmediateKind::BlockTarget, ty: addr_ty };
        let mut k: usize = 0;
        while k < tslots.len()
            invariant
                k <= tslots.len(),
                tslots@ == Seq::<ImmediateKind>::empty() + target_kinds(n),
                slot == (IrImmediateSlot { kind: ImmediateKind::BlockTarget, ty: addr_ty }),
                out@ == const_slots(sv) + Seq::new(k as nat, |i: int| slot),
            decreases tslots.len() - k,
        {
            out.push(IrImmediateSlot { kind: tslots[k], ty: addr_ty });
            assert(out@ =~= const_slots(sv) + Seq::new((k + 1) as nat, |i: int| slot));
            k += 1;
        }
        assert(out@ =~= const_slots(sv) + Seq::new(
            n,
            |i: int| IrImmediateSlot { kind: ImmediateKind::BlockTarget, ty: addr_ty },
        ));
        out
    }
}

/// The canonical form of a list of statements.
#[derive(PartialEq, Eq, PartialOrd, Ord, Hash, Debug)]
pub struct StmtSliceKey {
    pub stmts: Vec<IRStmt>,
}

/// The statement with its constant replaced. The constant is appended to
/// `consts`.
pub fn canon_ir_stmt(s: &IRStmt, consts: &mut Vec<Constant>) -> (r: IRStmt)
    ensures
        r@ == canon_stmt(s@),
        final(consts)@ == old(consts)@ + lifted_const(s@),
{
    match s {
        Stmt::Const(c, ty) => {
            consts.push(*c);
            assert(consts@ =~= old(consts)@ + seq![*c]);
            Stmt::Const(make_zero_constant(), *ty)
        },
        Stmt::Poly { ty, coeffs, constant } => {
            consts.push(*constant);
            assert(consts@ =~= old(consts)@ + seq![*constant]);
            Stmt::Poly { ty: *ty, coeffs: coeffs.clone(), constant: make_zero_constant() }
        },
        other => {
            assert(consts@ =~= old(consts)@ + Seq::<Constant>::empty());
            other.clone()
        },
    }
}

/// The canonical form of a list of statements, and the constants lifted out of
/// it.
pub fn canonicalize_stmt_slice(stmts: &[IRStmt]) -> (r: (StmtSliceKey, Vec<Constant>))
    ensures
        stmt_views(r.0.stmts@) == canon_stmts(stmt_views(stmts@)),
        r.1@ == lifted_consts(stmt_views(stmts@)),
{
    let mut consts: Vec<Constant> = Vec::new();
    let mut out: Vec<IRStmt> = Vec::new();
    let ghost sv = stmt_views(stmts@);
    let mut i: usize = 0;
    while i < stmts.len()
        invariant
            i <= stmts.len(),
            sv == stmt_views(stmts@),
            out@.len() == i,
            forall|j: int| 0 <= j < i ==> (#[trigger] out@[j])@ == canon_stmt(sv[j]),
            consts@ == lifted_consts(sv.take(i as int)),
        decreases stmts.len() - i,
    {
        proof {
            let longer = sv.take(i + 1);
            assert(longer.drop_last() =~= sv.take(i as int));
            assert(longer.last() == sv[i as int]);
        }
        out.push(canon_ir_stmt(&stmts[i], &mut consts));
        i += 1;
    }
    assert(sv.take(i as int) =~= sv);
    assert(stmt_views(out@) =~= canon_stmts(sv));
    (StmtSliceKey { stmts: out }, consts)
}

/// The destination with its block replaced. The block is appended to
/// `targets`.
fn canon_ir_target(d: &IRBlockTargetId, targets: &mut Vec<IRBlockId>) -> (r: IRBlockTargetId)
    ensures
        r == canon_dest(*d),
        final(targets)@ == old(targets)@ + lifted_dest(*d),
{
    match d {
        IRBlockTargetId::Block(id) => {
            targets.push(*id);
            assert(targets@ =~= old(targets)@ + seq![*id]);
            IRBlockTargetId::Block(IRBlockId(0))
        },
        IRBlockTargetId::Return => {
            assert(targets@ =~= old(targets)@ + Seq::<IRBlockId>::empty());
            IRBlockTargetId::Return
        },
        IRBlockTargetId::Dyn(v) => {
            assert(targets@ =~= old(targets)@ + Seq::<IRBlockId>::empty());
            IRBlockTargetId::Dyn(*v)
        },
    }
}

/// The branch with its block replaced.
fn canon_ir_branch(b: &IRBranchTarget, targets: &mut Vec<IRBlockId>) -> (r: IRBranchTarget)
    ensures
        r@ == canon_branch(b@),
        final(targets)@ == old(targets)@ + lifted_dest(b@.dest),
{
    IRBranchTarget {
        dest: canon_ir_target(&b.dest, targets),
        args: b.args.clone(),
        reentry: clone_hint(&b.reentry),
    }
}

/// The terminator with its blocks replaced. The blocks are appended to
/// `targets`.
pub fn canon_ir_terminator(t: &IRTerminator, targets: &mut Vec<IRBlockId>) -> (r: IRTerminator)
    ensures
        r@ == canon_term(t@),
        final(targets)@ == old(targets)@ + lifted_targets(t@),
{
    match t {
        IRTerminator::Jmp { target } => IRTerminator::Jmp {
            target: canon_ir_branch(target, targets),
        },
        IRTerminator::JumpCond { condition, then_target, else_target } => {
            let a = canon_ir_branch(then_target, targets);
            let b = canon_ir_branch(else_target, targets);
            assert(targets@ =~= old(targets)@ + lifted_targets(t@));
            IRTerminator::JumpCond { condition: *condition, then_target: a, else_target: b }
        },
        IRTerminator::JumpTable { index, cases } => {
            let mut out: Vec<(Constant, IRBranchTarget)> = Vec::new();
            let ghost cv = case_views(cases@);
            let mut i: usize = 0;
            assert(targets@ =~= old(targets)@ + lifted_cases(cv.take(0)));
            while i < cases.len()
                invariant
                    i <= cases.len(),
                    cv == case_views(cases@),
                    out@.len() == i,
                    forall|j: int|
                        0 <= j < i ==> (#[trigger] out@[j]).0 == cv[j].0 && out@[j].1@
                            == canon_branch(cv[j].1),
                    targets@ == old(targets)@ + lifted_cases(cv.take(i as int)),
                decreases cases.len() - i,
            {
                proof {
                    let longer = cv.take(i + 1);
                    assert(longer.drop_last() =~= cv.take(i as int));
                    assert(longer.last() == cv[i as int]);
                }
                let b = canon_ir_branch(&cases[i].1, targets);
                out.push((cases[i].0, b));
                assert(targets@ =~= old(targets)@ + lifted_cases(cv.take(i + 1)));
                i += 1;
            }
            assert(cv.take(i as int) =~= cv);
            assert(case_views(out@) =~= cv.map_values(
                |c: (Constant, BranchView)| (c.0, canon_branch(c.1)),
            ));
            IRTerminator::JumpTable { index: *index, cases: out }
        },
    }
}

/// The key of a typed block, and the values lifted out of it.
pub fn canonicalize_ir_block<P>(block: &IRBlock<P>) -> (r: (IrHandlerKey, BlockImmediates))
    ensures
        r.0@ == ir_key(block@),
        r.1@ == ir_immediates(block@),
{
    let mut consts: Vec<Constant> = Vec::new();
    let mut targets: Vec<IRBlockId> = Vec::new();
    let mut stmts: Vec<IRStmt> = Vec::new();
    let ghost sv = block@.stmts;
    let mut i: usize = 0;
    while i < block.stmts.len()
        invariant
            i <= block.stmts.len(),
            sv == node_kinds(block.stmts@),
            stmts@.len() == i,
            forall|j: int| 0 <= j < i ==> (#[trigger] stmts@[j])@ == canon_stmt(sv[j]),
            consts@ == lifted_consts(sv.take(i as int)),
        decreases block.stmts.len() - i,
    {
        proof {
            let longer = sv.take(i + 1);
            assert(longer.drop_last() =~= sv.take(i as int));
            assert(longer.last() == sv[i as int]);
        }
        stmts.push(canon_ir_stmt(&block.stmts[i].kind, &mut consts));
        i += 1;
    }
    assert(sv.take(i as int) =~= sv);
    assert(stmt_views(stmts@) =~= canon_stmts(sv));
    let terminator = canon_ir_terminator(&block.terminator, &mut targets);
    assert(targets@ =~= lifted_targets(block@.terminator));
    (
        IrHandlerKey { params: block.params.clone(), stmts, terminator },
        BlockImmediates { consts, targets },
    )
}

// ---------------------------------------------------------------------------
// Boolean blocks
// ---------------------------------------------------------------------------

/// The canonical form of a boolean block. Only jump targets are lifted.
#[derive(PartialEq, Eq, PartialOrd, Ord, Hash, Debug)]
pub struct BirHandlerKey {
    pub params: u32,
    pub stmts: Vec<BIrStmt>,
    pub terminator: BIrTerminator,
}

/// The statements of a list.
pub open spec fn bir_stmt_views(s: Seq<BIrStmt>) -> Seq<BIrStmtView> {
    s.map_values(|x: BIrStmt| x@)
}

impl View for BirHandlerKey {
    type V = BIrBlockView;

    open spec fn view(&self) -> BIrBlockView {
        BIrBlockView {
            params: self.params,
            stmts: bir_stmt_views(self.stmts@),
            terminator: self.terminator@,
        }
    }
}

/// The target with its block replaced.
pub open spec fn canon_bir_dest(t: BIrTargetView) -> BIrTargetView {
    BIrTargetView { block: canon_dest(t.block), args: t.args }
}

/// The boolean terminator with its blocks replaced.
pub open spec fn canon_bir_term(t: BIrTermView) -> BIrTermView {
    match t {
        BIrTermView::Jmp(target) => BIrTermView::Jmp(canon_bir_dest(target)),
        BIrTermView::CondJmp { val, then_target, else_target } => BIrTermView::CondJmp {
            val,
            then_target: canon_bir_dest(then_target),
            else_target: canon_bir_dest(else_target),
        },
    }
}

/// The blocks that a boolean terminator names, in order.
pub open spec fn lifted_bir_targets(t: BIrTermView) -> Seq<IRBlockId> {
    match t {
        BIrTermView::Jmp(target) => lifted_dest(target.block),
        BIrTermView::CondJmp { then_target, else_target, .. } => lifted_dest(then_target.block)
            + lifted_dest(else_target.block),
    }
}

/// The key of a boolean block.
pub open spec fn bir_key(b: BIrBlockView) -> BIrBlockView {
    BIrBlockView { params: b.params, stmts: b.stmts, terminator: canon_bir_term(b.terminator) }
}

/// The values lifted out of a boolean block.
pub open spec fn bir_immediates(b: BIrBlockView) -> ImmediatesView {
    ImmediatesView { consts: Seq::empty(), targets: lifted_bir_targets(b.terminator) }
}

/// Append one kind for each block that a boolean terminator names.
fn append_bir_terminator_schema(term: &BIrTerminator, out: &mut Vec<ImmediateKind>)
    ensures
        final(out)@ == old(out)@ + target_kinds(lifted_bir_targets(term@).len()),
{
    match term {
        BIrTerminator::Jmp(t) => {
            if let IRBlockTargetId::Block(_) = t.block {
                out.push(ImmediateKind::BlockTarget);
            }
        },
        BIrTerminator::CondJmp { then_target, else_target, .. } => {
            if let IRBlockTargetId::Block(_) = then_target.block {
                out.push(ImmediateKind::BlockTarget);
            }
            if let IRBlockTargetId::Block(_) = else_target.block {
                out.push(ImmediateKind::BlockTarget);
            }
        },
    }
    assert(out@ =~= old(out)@ + target_kinds(lifted_bir_targets(term@).len()));
}

/// A copy of a list of boolean statements.
pub fn clone_bir_stmts(s: &Vec<BIrStmt>) -> (r: Vec<BIrStmt>)
    ensures
        bir_stmt_views(r@) == bir_stmt_views(s@),
{
    let mut out: Vec<BIrStmt> = Vec::new();
    let mut i: usize = 0;
    while i < s.len()
        invariant
            i <= s.len(),
            out@.len() == i,
            forall|j: int| 0 <= j < i ==> (#[trigger] out@[j])@ == s@[j]@,
        decreases s.len() - i,
    {
        out.push(s[i].clone());
        i += 1;
    }
    assert(bir_stmt_views(out@) =~= bir_stmt_views(s@));
    out
}

/// Whether two lists of boolean statements are the same.
fn bir_stmts_same(a: &Vec<BIrStmt>, b: &Vec<BIrStmt>) -> (r: bool)
    ensures
        r == (bir_stmt_views(a@) == bir_stmt_views(b@)),
{
    if a.len() != b.len() {
        assert(bir_stmt_views(a@).len() != bir_stmt_views(b@).len());
        return false;
    }
    let mut i: usize = 0;
    while i < a.len()
        invariant
            i <= a.len(),
            a.len() == b.len(),
            forall|j: int| 0 <= j < i ==> bir_stmt_views(a@)[j] == bir_stmt_views(b@)[j],
        decreases a.len() - i,
    {
        if !a[i].same(&b[i]) {
            assert(bir_stmt_views(a@)[i as int] != bir_stmt_views(b@)[i as int]);
            return false;
        }
        i += 1;
    }
    assert(bir_stmt_views(a@) =~= bir_stmt_views(b@));
    true
}

impl HandlerKey for BirHandlerKey {
    open spec fn schema(&self) -> Seq<ImmediateKind> {
        target_kinds(lifted_bir_targets(self@.terminator).len())
    }

    fn immediate_schema(&self) -> (r: Vec<ImmediateKind>) {
        let mut out: Vec<ImmediateKind> = Vec::new();
        append_bir_terminator_schema(&self.terminator, &mut out);
        assert(out@ =~= self.schema());
        out
    }

    fn same_key(&self, other: &Self) -> (r: bool) {
        self.params == other.params && bir_stmts_same(&self.stmts, &other.stmts)
            && self.terminator.same(&other.terminator)
    }

    fn clone_key(&self) -> (r: Self) {
        BirHandlerKey {
            params: self.params,
            stmts: clone_bir_stmts(&self.stmts),
            terminator: self.terminator.clone(),
        }
    }
}

/// The target with its block replaced. The block is appended to `targets`.
fn canon_bir_target(t: &BIrTarget, targets: &mut Vec<IRBlockId>) -> (r: BIrTarget)
    ensures
        r@ == canon_bir_dest(t@),
        final(targets)@ == old(targets)@ + lifted_dest(t@.block),
{
    BIrTarget { block: canon_ir_target(&t.block, targets), args: t.args.clone() }
}

/// The boolean terminator with its blocks replaced. The blocks are appended to
/// `targets`.
fn canon_bir_terminator(t: &BIrTerminator, targets: &mut Vec<IRBlockId>) -> (r: BIrTerminator)
    ensures
        r@ == canon_bir_term(t@),
        final(targets)@ == old(targets)@ + lifted_bir_targets(t@),
{
    match t {
        BIrTerminator::Jmp(tgt) => BIrTerminator::Jmp(canon_bir_target(tgt, targets)),
        BIrTerminator::CondJmp { val, then_target, else_target } => {
            let a = canon_bir_target(then_target, targets);
            let b = canon_bir_target(else_target, targets);
            assert(targets@ =~= old(targets)@ + lifted_bir_targets(t@));
            BIrTerminator::CondJmp { val: *val, then_target: a, else_target: b }
        },
    }
}

/// The key of a boolean block, and the values lifted out of it.
pub fn canonicalize_bir_block<P>(block: &BIrBlock<P>) -> (r: (BirHandlerKey, BlockImmediates))
    ensures
        r.0@ == bir_key(block@),
        r.1@ == bir_immediates(block@),
{
    let mut targets: Vec<IRBlockId> = Vec::new();
    let terminator = canon_bir_terminator(&block.terminator, &mut targets);
    let mut stmts: Vec<BIrStmt> = Vec::new();
    let mut i: usize = 0;
    while i < block.stmts.len()
        invariant
            i <= block.stmts.len(),
            stmts@.len() == i,
            forall|j: int| 0 <= j < i ==> (#[trigger] stmts@[j])@ == block.stmts@[j].kind@,
        decreases block.stmts.len() - i,
    {
        stmts.push(block.stmts[i].kind.clone());
        i += 1;
    }
    assert(bir_stmt_views(stmts@) =~= bir_node_kinds(block.stmts@));
    assert(targets@ =~= lifted_bir_targets(block@.terminator));
    (
        BirHandlerKey { params: block.params, stmts, terminator },
        BlockImmediates { consts: Vec::new(), targets },
    )
}

// ---------------------------------------------------------------------------
// Laws
// ---------------------------------------------------------------------------

/// Statements that agree in canonical form and in lifted constants agree.
#[verifier::spinoff_prover]
proof fn lemma_stmts_determined(a: Seq<StmtView>, b: Seq<StmtView>)
    requires
        canon_stmts(a) == canon_stmts(b),
        lifted_consts(a) == lifted_consts(b),
    ensures
        a == b,
    decreases a.len(),
{
    assert(canon_stmts(a).len() == a.len() && canon_stmts(b).len() == b.len());
    if a.len() > 0 {
        let x = a.last();
        let y = b.last();
        assert(canon_stmts(a)[a.len() - 1] == canon_stmt(x));
        assert(canon_stmts(b)[b.len() - 1] == canon_stmt(y));
        assert(lifted_const(x).len() == lifted_const(y).len());
        let la = lifted_consts(a.drop_last());
        let lb = lifted_consts(b.drop_last());
        assert(lifted_consts(a) == la + lifted_const(x));
        assert(lifted_consts(b) == lb + lifted_const(y));
        assert((la + lifted_const(x)).len() == (lb + lifted_const(y)).len());
        assert(la.len() == lb.len());
        assert(la =~= (la + lifted_const(x)).take(la.len() as int));
        assert(lb =~= (lb + lifted_const(y)).take(lb.len() as int));
        assert(lifted_const(x) =~= (la + lifted_const(x)).skip(la.len() as int));
        assert(lifted_const(y) =~= (lb + lifted_const(y)).skip(lb.len() as int));
        if lifted_const(x).len() > 0 {
            assert(lifted_const(x)[0] == lifted_const(y)[0]);
        }
        assert(x == y);
        assert(canon_stmts(a.drop_last()) =~= canon_stmts(a).drop_last());
        assert(canon_stmts(b.drop_last()) =~= canon_stmts(b).drop_last());
        lemma_stmts_determined(a.drop_last(), b.drop_last());
        assert(a =~= a.drop_last().push(x));
        assert(b =~= b.drop_last().push(y));
    } else {
        assert(a =~= b);
    }
}

/// Cases that agree in canonical form and in lifted blocks agree.
proof fn lemma_cases_determined(a: Seq<(Constant, BranchView)>, b: Seq<(Constant, BranchView)>)
    requires
        a.len() == b.len(),
        forall|i: int|
            0 <= i < a.len() ==> (#[trigger] a[i]).0 == b[i].0 && canon_branch(a[i].1)
                == canon_branch(b[i].1),
        lifted_cases(a) == lifted_cases(b),
    ensures
        a == b,
    decreases a.len(),
{
    if a.len() > 0 {
        let x = a.last();
        let y = b.last();
        assert(a[a.len() - 1].0 == b[b.len() - 1].0);
        let dx = lifted_dest(x.1.dest);
        let dy = lifted_dest(y.1.dest);
        assert(dx.len() == dy.len());
        let la = lifted_cases(a.drop_last());
        let lb = lifted_cases(b.drop_last());
        assert(la =~= (la + dx).take(la.len() as int));
        assert(lb =~= (lb + dy).take(lb.len() as int));
        assert(dx =~= (la + dx).skip(la.len() as int));
        assert(dy =~= (lb + dy).skip(lb.len() as int));
        if dx.len() > 0 {
            assert(dx[0] == dy[0]);
        }
        assert(x.1.dest == y.1.dest);
        assert(x == y);
        let ra = a.drop_last();
        let rb = b.drop_last();
        assert forall|i: int| 0 <= i < ra.len() implies (#[trigger] ra[i]).0 == rb[i].0
            && canon_branch(ra[i].1) == canon_branch(rb[i].1) by {
            assert(a[i].0 == b[i].0);
        }
        lemma_cases_determined(ra, rb);
        assert(a =~= ra.push(x));
        assert(b =~= rb.push(y));
    } else {
        assert(a =~= b);
    }
}

/// Branches that agree in canonical form and in lifted blocks agree.
proof fn lemma_dest_determined(a: IRBlockTargetId, b: IRBlockTargetId)
    requires
        canon_dest(a) == canon_dest(b),
        lifted_dest(a) == lifted_dest(b),
    ensures
        a == b,
{
    if let IRBlockTargetId::Block(x) = a {
        assert(lifted_dest(a)[0] == x);
        assert(lifted_dest(b)[0] == x);
    }
}

/// A typed block is determined by its key and the values lifted out of it:
/// canonicalisation loses nothing.
pub proof fn law_ir_block_determined(a: IRBlockView, b: IRBlockView)
    requires
        ir_key(a) == ir_key(b),
        ir_immediates(a) == ir_immediates(b),
    ensures
        a == b,
{
    lemma_stmts_determined(a.stmts, b.stmts);
    let ta = a.terminator;
    let tb = b.terminator;
    match (ta, tb) {
        (TermView::Jmp { target: x }, TermView::Jmp { target: y }) => {
            lemma_dest_determined(x.dest, y.dest);
        },
        (
            TermView::JumpCond { then_target: t1, else_target: e1, .. },
            TermView::JumpCond { then_target: t2, else_target: e2, .. },
        ) => {
            let l1 = lifted_dest(t1.dest);
            let l2 = lifted_dest(t2.dest);
            let m1 = lifted_dest(e1.dest);
            let m2 = lifted_dest(e2.dest);
            assert(l1.len() == l2.len() && m1.len() == m2.len());
            assert(l1 =~= (l1 + m1).take(l1.len() as int));
            assert(l2 =~= (l2 + m2).take(l2.len() as int));
            assert(m1 =~= (l1 + m1).skip(l1.len() as int));
            assert(m2 =~= (l2 + m2).skip(l2.len() as int));
            lemma_dest_determined(t1.dest, t2.dest);
            lemma_dest_determined(e1.dest, e2.dest);
        },
        (TermView::JumpTable { cases: x, .. }, TermView::JumpTable { cases: y, .. }) => {
            let f = |c: (Constant, BranchView)| (c.0, canon_branch(c.1));
            assert(x.map_values(f).len() == y.map_values(f).len());
            assert forall|i: int| 0 <= i < x.len() implies (#[trigger] x[i]).0 == y[i].0
                && canon_branch(x[i].1) == canon_branch(y[i].1) by {
                assert(x.map_values(f)[i] == y.map_values(f)[i]);
            }
            lemma_cases_determined(x, y);
        },
        _ => {},
    }
}

/// A boolean block is determined by its key and the values lifted out of it.
pub proof fn law_bir_block_determined(a: BIrBlockView, b: BIrBlockView)
    requires
        bir_key(a) == bir_key(b),
        bir_immediates(a) == bir_immediates(b),
    ensures
        a == b,
{
    match (a.terminator, b.terminator) {
        (BIrTermView::Jmp(x), BIrTermView::Jmp(y)) => {
            lemma_dest_determined(x.block, y.block);
        },
        (
            BIrTermView::CondJmp { then_target: t1, else_target: e1, .. },
            BIrTermView::CondJmp { then_target: t2, else_target: e2, .. },
        ) => {
            let l1 = lifted_dest(t1.block);
            let l2 = lifted_dest(t2.block);
            let m1 = lifted_dest(e1.block);
            let m2 = lifted_dest(e2.block);
            assert(l1.len() == l2.len() && m1.len() == m2.len());
            assert(l1 =~= (l1 + m1).take(l1.len() as int));
            assert(l2 =~= (l2 + m2).take(l2.len() as int));
            assert(m1 =~= (l1 + m1).skip(l1.len() as int));
            assert(m2 =~= (l2 + m2).skip(l2.len() as int));
            lemma_dest_determined(t1.block, t2.block);
            lemma_dest_determined(e1.block, e2.block);
        },
        _ => {},
    }
}

/// A canonical block is its own key.
pub proof fn law_ir_key_idempotent(b: IRBlockView)
    ensures
        ir_key(ir_key(b)) == ir_key(b),
{
    let k = ir_key(b);
    assert(canon_stmts(k.stmts) =~= k.stmts);
    match b.terminator {
        TermView::JumpTable { index, cases } => {
            let f = |c: (Constant, BranchView)| (c.0, canon_branch(c.1));
            assert(cases.map_values(f).map_values(f) =~= cases.map_values(f));
        },
        _ => {},
    }
}

} // verus!
