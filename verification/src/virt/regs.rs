//! The register file: where the values that cross block boundaries live.

use vstd::prelude::*;

use crate::common::{IrType, IrTypeView, StorageId, TypeId};
use crate::ir::{
    case_views, output_type, stmt_output_type, BranchView, IRBlock, IRBlockTargetId, IRBlockView,
    IRBlocks, IRBranchTarget, IRTerminator, IRTypeId, IRVarId, TermView,
};

verus! {

// ---------------------------------------------------------------------------
// Arms and variable types
// ---------------------------------------------------------------------------

/// The branches of a terminator, in order.
pub open spec fn arms(t: TermView) -> Seq<BranchView> {
    match t {
        TermView::Jmp { target } => seq![target],
        TermView::JumpCond { then_target, else_target, .. } => seq![then_target, else_target],
        TermView::JumpTable { cases, .. } => cases.map_values(
            |c: (crate::common::Constant, BranchView)| c.1,
        ),
    }
}

/// The views of a list of branches.
pub open spec fn branch_views(s: Seq<&IRBranchTarget>) -> Seq<BranchView> {
    s.map_values(|b: &IRBranchTarget| b@)
}

/// The branches of a terminator, in order.
pub fn terminator_arms(t: &IRTerminator) -> (r: Vec<&IRBranchTarget>)
    ensures
        branch_views(r@) == arms(t@),
{
    let mut out: Vec<&IRBranchTarget> = Vec::new();
    match t {
        IRTerminator::Jmp { target } => {
            out.push(target);
        },
        IRTerminator::JumpCond { then_target, else_target, .. } => {
            out.push(then_target);
            out.push(else_target);
        },
        IRTerminator::JumpTable { cases, .. } => {
            let ghost cv = case_views(cases@);
            let mut i: usize = 0;
            while i < cases.len()
                invariant
                    i <= cases.len(),
                    cv == case_views(cases@),
                    out@.len() == i,
                    forall|j: int| 0 <= j < i ==> (#[trigger] out@[j])@ == cv[j].1,
                decreases cases.len() - i,
            {
                out.push(&cases[i].1);
                i += 1;
            }
        },
    }
    assert(branch_views(out@) =~= arms(t@));
    out
}

/// The type of a variable of a block, if it has a value.
pub open spec fn var_type(b: IRBlockView, v: IRVarId) -> Option<IRTypeId> {
    if v.0 < b.params.len() {
        Some(b.params[v.0 as int])
    } else if v.0 < b.var_space() {
        output_type(b.stmts[v.0 - b.params.len()])
    } else {
        None
    }
}

/// The types of a list of variables of a block.
pub open spec fn var_types(b: IRBlockView, vs: Seq<IRVarId>) -> Seq<IRTypeId> {
    vs.map_values(|v: IRVarId| var_type(b, v)->0)
}

/// Whether every variable of a list has a value.
pub open spec fn vars_typed(b: IRBlockView, vs: Seq<IRVarId>) -> bool {
    forall|i: int| 0 <= i < vs.len() ==> var_type(b, #[trigger] vs[i]) is Some
}

/// The type of a variable of a block.
pub fn resolve_var_type<P>(block: &IRBlock<P>, v: IRVarId) -> (r: IRTypeId)
    requires
        var_type(block@, v) is Some,
    ensures
        var_type(block@, v) == Some(r),
{
    let i: usize = v.0 as usize;
    if i < block.params.len() {
        block.params[i]
    } else {
        let s: usize = i - block.params.len();
        assert(block@.stmts[s as int] == block.stmts@[s as int].kind@);
        match stmt_output_type(&block.stmts[s].kind) {
            Some(t) => t,
            None => TypeId(0),
        }
    }
}

/// The types of a list of variables of a block.
pub fn resolve_var_types<P>(block: &IRBlock<P>, vs: &Vec<IRVarId>) -> (r: Vec<IRTypeId>)
    requires
        vars_typed(block@, vs@),
    ensures
        r@ == var_types(block@, vs@),
{
    let mut out: Vec<IRTypeId> = Vec::new();
    let mut i: usize = 0;
    while i < vs.len()
        invariant
            i <= vs.len(),
            vars_typed(block@, vs@),
            out@.len() == i,
            forall|j: int| 0 <= j < i ==> #[trigger] out@[j] == var_type(block@, vs@[j])->0,
        decreases vs.len() - i,
    {
        assert(var_type(block@, vs@[i as int]) is Some);
        out.push(resolve_var_type(block, vs[i]));
        i += 1;
    }
    assert(out@ =~= var_types(block@, vs@));
    out
}

/// The parameter list of the blocks that a dynamic destination may name, as the
/// type of its variable says.
pub open spec fn dyn_params(b: IRBlockView, v: IRVarId, types: Seq<IrTypeView>) -> Option<
    Seq<IRTypeId>,
> {
    match var_type(b, v) {
        Some(t) => if t.0 < types.len() {
            match types[t.0 as int] {
                IrTypeView::Block { params } => Some(params),
                _ => None,
            }
        } else {
            None
        },
        None => None,
    }
}

// ---------------------------------------------------------------------------
// Return shape
// ---------------------------------------------------------------------------

/// The argument types of the branches of a list that return.
pub open spec fn return_types_of(b: IRBlockView, s: Seq<BranchView>) -> Seq<Seq<IRTypeId>>
    decreases s.len(),
{
    if s.len() == 0 {
        Seq::empty()
    } else if s.last().dest is Return {
        return_types_of(b, s.drop_last()).push(var_types(b, s.last().args))
    } else {
        return_types_of(b, s.drop_last())
    }
}

/// The argument types of every branch of a module that returns.
pub open spec fn module_return_types(blocks: Seq<IRBlockView>) -> Seq<Seq<IRTypeId>>
    decreases blocks.len(),
{
    if blocks.len() == 0 {
        Seq::empty()
    } else {
        module_return_types(blocks.drop_last()) + return_types_of(
            blocks.last(),
            arms(blocks.last().terminator),
        )
    }
}

/// What a module returns: the argument types of its first branch that returns.
pub open spec fn return_shape(blocks: Seq<IRBlockView>) -> Seq<IRTypeId> {
    let all = module_return_types(blocks);
    if all.len() == 0 {
        Seq::empty()
    } else {
        all[0]
    }
}

/// Whether every branch that returns passes values, of the types that the
/// module returns.
pub open spec fn returns_agree(blocks: Seq<IRBlockView>) -> bool {
    forall|b: int, a: int|
        #![trigger arms(blocks[b].terminator)[a]]
        0 <= b < blocks.len() && 0 <= a < arms(blocks[b].terminator).len() && arms(
            blocks[b].terminator,
        )[a].dest is Return ==> {
            let args = arms(blocks[b].terminator)[a].args;
            &&& vars_typed(blocks[b], args)
            &&& var_types(blocks[b], args) == return_shape(blocks)
        }
}

/// The types that a module returns.
pub fn extract_return_shape<P>(blocks: &IRBlocks<P>) -> (r: Vec<IRTypeId>)
    requires
        returns_agree(blocks@.blocks),
    ensures
        r@ == return_shape(blocks@.blocks),
{
    let ghost bv = blocks@.blocks;
    let mut b: usize = 0;
    assert(module_return_types(bv.take(0)) =~= Seq::empty());
    while b < blocks.blocks.len()
        invariant
            b <= blocks.blocks.len(),
            bv == blocks@.blocks,
            returns_agree(bv),
            module_return_types(bv.take(b as int)).len() == 0,
        decreases blocks.blocks.len() - b,
    {
        let block = &blocks.blocks[b];
        let list = terminator_arms(&block.terminator);
        let ghost av = arms(block@.terminator);
        proof {
            assert(bv[b as int] == block@);
            assert(bv.take(b + 1).drop_last() =~= bv.take(b as int));
            assert(bv.take(b + 1).last() == block@);
        }
        let mut a: usize = 0;
        assert(return_types_of(block@, av.take(0)) =~= Seq::empty());
        while a < list.len()
            invariant
                a <= list.len(),
                b < blocks.blocks.len(),
                block@ == bv[b as int],
                av == arms(block@.terminator),
                branch_views(list@) == av,
                returns_agree(bv),
                bv == blocks@.blocks,
                return_types_of(block@, av.take(a as int)).len() == 0,
            decreases list.len() - a,
        {
            assert(list@[a as int]@ == av[a as int]);
            assert(av.take(a + 1).drop_last() =~= av.take(a as int));
            assert(arms(bv[b as int].terminator)[a as int] == av[a as int]);
            if let IRBlockTargetId::Return = &list[a].dest {
                proof {
                    assert(av[a as int].dest is Return);
                }
                return resolve_var_types(block, &list[a].args);
            }
            a += 1;
        }
        assert(av.take(a as int) =~= av);
        assert(module_return_types(bv.take(b + 1)) =~= module_return_types(bv.take(b as int))
            + return_types_of(block@, av));
        b += 1;
    }
    assert(bv.take(b as int) =~= bv);
    Vec::new()
}

// ---------------------------------------------------------------------------
// Registers
// ---------------------------------------------------------------------------

/// How often `t` occurs in a list.
pub open spec fn occurrences(s: Seq<IRTypeId>, t: IRTypeId) -> nat
    decreases s.len(),
{
    if s.len() == 0 {
        0
    } else {
        occurrences(s.drop_last(), t) + if s.last() == t {
            1nat
        } else {
            0nat
        }
    }
}

/// A type occurs at most as often as the list is long.
pub proof fn lemma_occurrences_bound(s: Seq<IRTypeId>, t: IRTypeId)
    ensures
        occurrences(s, t) <= s.len(),
    decreases s.len(),
{
    if s.len() > 0 {
        lemma_occurrences_bound(s.drop_last(), t);
    }
}

/// The register, within the file of its type, of the `i`-th value of a list
/// with the given types: values of one type are numbered from 0.
pub open spec fn register_index(tys: Seq<IRTypeId>, i: int) -> u32 {
    occurrences(tys.take(i), tys[i]) as u32
}

/// A cell of the register file.
#[derive(Clone, Copy, PartialEq, Eq, Debug, Structural)]
pub struct RegRef {
    pub ty: IRTypeId,
    pub idx: u32,
}

/// The registers of a list of values.
pub open spec fn registers(tys: Seq<IRTypeId>) -> Seq<RegRef> {
    Seq::new(tys.len(), |i: int| RegRef { ty: tys[i], idx: register_index(tys, i) })
}

/// An earlier value of a list has fewer equal types before it.
proof fn lemma_occurrences_grow(s: Seq<IRTypeId>, t: IRTypeId, i: int, j: int)
    requires
        0 <= i <= j <= s.len(),
    ensures
        occurrences(s.take(i), t) <= occurrences(s.take(j), t),
    decreases j - i,
{
    if i < j {
        lemma_occurrences_grow(s, t, i, j - 1);
        assert(s.take(j).drop_last() =~= s.take(j - 1));
    }
}

/// Two values of one list never share a register.
pub proof fn law_registers_distinct(tys: Seq<IRTypeId>, i: int, j: int)
    requires
        0 <= i < j < tys.len(),
        tys.len() <= u32::MAX,
    ensures
        registers(tys)[i] != registers(tys)[j],
{
    if tys[i] == tys[j] {
        let t = tys[i];
        assert(tys.take(i + 1).drop_last() =~= tys.take(i));
        assert(occurrences(tys.take(i + 1), t) == occurrences(tys.take(i), t) + 1);
        lemma_occurrences_grow(tys, t, i + 1, j);
        lemma_occurrences_bound(tys.take(i), t);
        lemma_occurrences_bound(tys.take(j), t);
    }
}

/// The registers of a list of values.
pub fn assign_registers(tys: &Vec<IRTypeId>) -> (r: Vec<RegRef>)
    requires
        tys@.len() <= u32::MAX,
    ensures
        r@ == registers(tys@),
{
    let mut out: Vec<RegRef> = Vec::new();
    let mut i: usize = 0;
    while i < tys.len()
        invariant
            i <= tys.len(),
            tys@.len() <= u32::MAX,
            out@.len() == i,
            forall|j: int| 0 <= j < i ==> #[trigger] out@[j] == registers(tys@)[j],
        decreases tys.len() - i,
    {
        let ty: IRTypeId = tys[i];
        let mut n: u32 = 0;
        let mut k: usize = 0;
        assert(tys@.take(0) =~= Seq::empty());
        while k < i
            invariant
                k <= i,
                i < tys.len(),
                tys@.len() <= u32::MAX,
                n <= k,
                n == occurrences(tys@.take(k as int), ty),
            decreases i - k,
        {
            assert(tys@.take(k + 1).drop_last() =~= tys@.take(k as int));
            if tys[k] == ty {
                n += 1;
            }
            k += 1;
        }
        out.push(RegRef { ty, idx: n });
        i += 1;
    }
    assert(out@ =~= registers(tys@));
    out
}

// ---------------------------------------------------------------------------
// Storages of the register file
// ---------------------------------------------------------------------------

/// A list of types in increasing order, with `t` put in its place.
pub open spec fn with_type(s: Seq<IRTypeId>, t: IRTypeId) -> Seq<IRTypeId>
    decreases s.len(),
{
    if s.len() == 0 {
        seq![t]
    } else if t.0 < s[0].0 {
        seq![t] + s
    } else if t.0 == s[0].0 {
        s
    } else {
        seq![s[0]] + with_type(s.drop_first(), t)
    }
}

/// A list of types in increasing order, with those of another list put in
/// their places.
pub open spec fn with_types(s: Seq<IRTypeId>, ts: Seq<IRTypeId>) -> Seq<IRTypeId>
    decreases ts.len(),
{
    if ts.len() == 0 {
        s
    } else {
        with_type(with_types(s, ts.drop_last()), ts.last())
    }
}

/// Where `with_type` puts a type.
proof fn lemma_with_type_at(s: Seq<IRTypeId>, t: IRTypeId, i: int)
    requires
        0 <= i <= s.len(),
        forall|j: int| 0 <= j < i ==> (#[trigger] s[j]).0 < t.0,
        i < s.len() ==> t.0 <= s[i].0,
    ensures
        with_type(s, t) == (if i < s.len() && s[i] == t {
            s
        } else {
            s.insert(i, t)
        }),
    decreases i,
{
    if i == 0 {
        if s.len() > 0 && s[0] == t {
        } else {
            assert(s.insert(0, t) =~= seq![t] + s);
        }
    } else {
        assert(s[0].0 < t.0);
        let rest = s.drop_first();
        assert forall|j: int| 0 <= j < i - 1 implies (#[trigger] rest[j]).0 < t.0 by {
            assert(rest[j] == s[j + 1]);
        }
        lemma_with_type_at(rest, t, i - 1);
        if i < s.len() && s[i] == t {
            assert(seq![s[0]] + rest =~= s);
        } else {
            assert(seq![s[0]] + rest.insert(i - 1, t) =~= s.insert(i, t));
        }
    }
}

/// A type that was put in its place is there, and so are all that were there
/// before; no other is.
pub proof fn lemma_with_type_contains(s: Seq<IRTypeId>, t: IRTypeId)
    ensures
        forall|x: IRTypeId| #[trigger] with_type(s, t).contains(x) <==> x == t || s.contains(x),
        with_type(s, t).len() <= s.len() + 1,
    decreases s.len(),
{
    let r = with_type(s, t);
    if s.len() == 0 {
        assert(r[0] == t);
    } else if t.0 < s[0].0 {
        assert(r[0] == t);
        assert forall|x: IRTypeId| #[trigger] r.contains(x) <==> x == t || s.contains(x) by {
            if s.contains(x) {
                let i = choose|i: int| 0 <= i < s.len() && s[i] == x;
                assert(r[i + 1] == x);
            }
            if r.contains(x) && x != t {
                let i = choose|i: int| 0 <= i < r.len() && r[i] == x;
                assert(s[i - 1] == x);
            }
        }
    } else if t.0 == s[0].0 {
        assert(s[0] == t);
    } else {
        let rest = s.drop_first();
        lemma_with_type_contains(rest, t);
        let q = with_type(rest, t);
        assert forall|x: IRTypeId| #[trigger] r.contains(x) <==> x == t || s.contains(x) by {
            if q.contains(x) {
                let i = choose|i: int| 0 <= i < q.len() && q[i] == x;
                assert(r[i + 1] == x);
            }
            if s.contains(x) {
                let i = choose|i: int| 0 <= i < s.len() && s[i] == x;
                if i == 0 {
                    assert(r[0] == x);
                } else {
                    assert(rest[i - 1] == x);
                    assert(rest.contains(x));
                    assert(q.contains(x));
                }
            }
            if x == t {
                assert(q.contains(t));
            }
            if r.contains(x) && x != t {
                let i = choose|i: int| 0 <= i < r.len() && r[i] == x;
                if i == 0 {
                    assert(s[0] == x);
                } else {
                    assert(q[i - 1] == x);
                    assert(q.contains(x));
                    assert(rest.contains(x));
                    let k = choose|k: int| 0 <= k < rest.len() && rest[k] == x;
                    assert(s[k + 1] == x);
                }
            }
        }
    }
}

/// Whether a list of types is strictly increasing.
pub open spec fn types_increase(s: Seq<IRTypeId>) -> bool {
    forall|i: int, j: int| 0 <= i < j < s.len() ==> (#[trigger] s[i]).0 < (#[trigger] s[j]).0
}

/// Put `t` in its place in a list of types in increasing order.
fn insert_type(s: &mut Vec<IRTypeId>, t: IRTypeId)
    requires
        types_increase(old(s)@),
    ensures
        final(s)@ == with_type(old(s)@, t),
        types_increase(final(s)@),
{
    let mut i: usize = 0;
    while i < s.len() && s[i].0 < t.0
        invariant
            i <= s.len(),
            s@ == old(s)@,
            types_increase(s@),
            forall|j: int| 0 <= j < i ==> (#[trigger] s@[j]).0 < t.0,
        decreases s.len() - i,
    {
        i += 1;
    }
    proof {
        lemma_with_type_at(s@, t, i as int);
    }
    if i == s.len() || s[i] != t {
        s.insert(i, t);
    }
}

/// Put the types of a list in their places.
fn insert_types(s: &mut Vec<IRTypeId>, ts: &Vec<IRTypeId>)
    requires
        types_increase(old(s)@),
    ensures
        final(s)@ == with_types(old(s)@, ts@),
        types_increase(final(s)@),
{
    let mut i: usize = 0;
    assert(ts@.take(0) =~= Seq::empty());
    while i < ts.len()
        invariant
            i <= ts.len(),
            s@ == with_types(old(s)@, ts@.take(i as int)),
            types_increase(s@),
        decreases ts.len() - i,
    {
        assert(ts@.take(i + 1).drop_last() =~= ts@.take(i as int));
        insert_type(s, ts[i]);
        i += 1;
    }
    assert(ts@.take(i as int) =~= ts@);
}

/// The types of the parameters of a module, in increasing order.
pub open spec fn param_types(blocks: Seq<IRBlockView>) -> Seq<IRTypeId>
    decreases blocks.len(),
{
    if blocks.len() == 0 {
        Seq::empty()
    } else {
        with_types(param_types(blocks.drop_last()), blocks.last().params)
    }
}

/// The same with the parameter types that the dynamic destinations of a list of
/// branches name.
pub open spec fn with_dyn_arms(
    s: Seq<IRTypeId>,
    b: IRBlockView,
    list: Seq<BranchView>,
    types: Seq<IrTypeView>,
) -> Seq<IRTypeId>
    decreases list.len(),
{
    if list.len() == 0 {
        s
    } else {
        let rest = with_dyn_arms(s, b, list.drop_last(), types);
        match list.last().dest {
            IRBlockTargetId::Dyn(v) => match dyn_params(b, v, types) {
                Some(params) => with_types(rest, params),
                None => rest,
            },
            _ => rest,
        }
    }
}

/// The same with the parameter types that the dynamic destinations of a module
/// name.
pub open spec fn with_dyn_blocks(
    s: Seq<IRTypeId>,
    blocks: Seq<IRBlockView>,
    types: Seq<IrTypeView>,
) -> Seq<IRTypeId>
    decreases blocks.len(),
{
    if blocks.len() == 0 {
        s
    } else {
        with_dyn_arms(
            with_dyn_blocks(s, blocks.drop_last(), types),
            blocks.last(),
            arms(blocks.last().terminator),
            types,
        )
    }
}

/// A list of types with those of another list appended that it lacks.
pub open spec fn with_missing(s: Seq<IRTypeId>, ts: Seq<IRTypeId>) -> Seq<IRTypeId>
    decreases ts.len(),
{
    if ts.len() == 0 {
        s
    } else {
        let rest = with_missing(s, ts.drop_last());
        if rest.contains(ts.last()) {
            rest
        } else {
            rest.push(ts.last())
        }
    }
}

/// The types of the register file, in the order of their storages: those of
/// parameters in increasing order, then those that are only returned.
pub open spec fn register_types(blocks: Seq<IRBlockView>, types: Seq<IrTypeView>) -> Seq<IRTypeId> {
    with_missing(with_dyn_blocks(param_types(blocks), blocks, types), return_shape(blocks))
}

/// The storage of the registers of a type.
pub open spec fn register_storage(file: Seq<IRTypeId>, base: u32, ty: IRTypeId) -> StorageId {
    StorageId((base + file.index_of_first(ty).unwrap()) as u32)
}

/// Whether dynamic destinations can be resolved: their variables have values.
pub open spec fn dyn_vars_typed(blocks: Seq<IRBlockView>, types: Seq<IrTypeView>) -> bool {
    forall|b: int, a: int|
        #![trigger arms(blocks[b].terminator)[a]]
        0 <= b < blocks.len() && 0 <= a < arms(blocks[b].terminator).len() ==> (arms(
            blocks[b].terminator,
        )[a].dest matches IRBlockTargetId::Dyn(v) ==> var_type(blocks[b], v) matches Some(t)
            && t.0 < types.len())
}

/// The assignment of registers to the parameters of each block and to what the
/// module returns.
#[derive(Debug)]
pub struct RegAlloc {
    pub per_block_params: Vec<Vec<RegRef>>,
    pub return_regs: Vec<RegRef>,
    /// The types of the register file, in the order of their storages.
    pub file: Vec<IRTypeId>,
    /// The first storage of the register file.
    pub base: u32,
}

impl RegAlloc {
    /// Whether this is the assignment for the given module.
    pub open spec fn assigns(
        &self,
        blocks: Seq<IRBlockView>,
        base: u32,
        types: Seq<IrTypeView>,
    ) -> bool {
        &&& self.base == base
        &&& self.file@ == register_types(blocks, types)
        &&& self.per_block_params@.len() == blocks.len()
        &&& forall|b: int|
            0 <= b < blocks.len() ==> (#[trigger] self.per_block_params@[b])@ == registers(
                blocks[b].params,
            )
        &&& self.return_regs@ == registers(return_shape(blocks))
    }

    /// Assign registers.
    pub fn build<P>(blocks: &IRBlocks<P>, storage_base: u32, ir_types: &Vec<IrType>) -> (r: Self)
        requires
            returns_agree(blocks@.blocks),
            dyn_vars_typed(blocks@.blocks, crate::common::type_views(ir_types@)),
            forall|b: int|
                0 <= b < blocks@.blocks.len() ==> (#[trigger] blocks@.blocks[b]).params.len()
                    <= u32::MAX,
            return_shape(blocks@.blocks).len() <= u32::MAX,
        ensures
            r.assigns(blocks@.blocks, storage_base, crate::common::type_views(ir_types@)),
    {
        let ghost bv = blocks@.blocks;
        let ghost tv = crate::common::type_views(ir_types@);
        let mut per_block_params: Vec<Vec<RegRef>> = Vec::new();
        let mut file: Vec<IRTypeId> = Vec::new();
        let mut b: usize = 0;
        assert(bv.take(0) =~= Seq::empty());
        while b < blocks.blocks.len()
            invariant
                b <= blocks.blocks.len(),
                bv == blocks@.blocks,
                forall|k: int| 0 <= k < bv.len() ==> (#[trigger] bv[k]).params.len() <= u32::MAX,
                types_increase(file@),
                file@ == param_types(bv.take(b as int)),
                per_block_params@.len() == b,
                forall|k: int|
                    0 <= k < b ==> (#[trigger] per_block_params@[k])@ == registers(bv[k].params),
            decreases blocks.blocks.len() - b,
        {
            proof {
                assert(bv[b as int].params == blocks.blocks@[b as int].params@);
                assert(bv.take(b + 1).drop_last() =~= bv.take(b as int));
            }
            per_block_params.push(assign_registers(&blocks.blocks[b].params));
            insert_types(&mut file, &blocks.blocks[b].params);
            b += 1;
        }
        assert(bv.take(b as int) =~= bv);
        let ghost first = file@;
        assert(with_dyn_blocks(first, bv.take(0), tv) == first) by {
            assert(bv.take(0) =~= Seq::empty());
        }
        b = 0;
        while b < blocks.blocks.len()
            invariant
                b <= blocks.blocks.len(),
                bv == blocks@.blocks,
                tv == crate::common::type_views(ir_types@),
                dyn_vars_typed(bv, tv),
                types_increase(file@),
                file@ == with_dyn_blocks(first, bv.take(b as int), tv),
            decreases blocks.blocks.len() - b,
        {
            let block = &blocks.blocks[b];
            let list = terminator_arms(&block.terminator);
            let ghost av = arms(block@.terminator);
            let ghost before = file@;
            proof {
                assert(bv[b as int] == block@);
                assert(bv.take(b + 1).drop_last() =~= bv.take(b as int));
                assert(bv.take(b + 1).last() == block@);
                assert(av.take(0) =~= Seq::empty());
            }
            let mut a: usize = 0;
            while a < list.len()
                invariant
                    a <= list.len(),
                    b < blocks.blocks.len(),
                    bv == blocks@.blocks,
                    tv == crate::common::type_views(ir_types@),
                    dyn_vars_typed(bv, tv),
                    block@ == bv[b as int],
                    av == arms(block@.terminator),
                    branch_views(list@) == av,
                    types_increase(file@),
                    file@ == with_dyn_arms(before, block@, av.take(a as int), tv),
                decreases list.len() - a,
            {
                assert(list@[a as int]@ == av[a as int]);
                assert(arms(bv[b as int].terminator)[a as int] == av[a as int]);
                assert(av.take(a + 1).drop_last() =~= av.take(a as int));
                if let IRBlockTargetId::Dyn(v) = &list[a].dest {
                    let t: IRTypeId = resolve_var_type(block, *v);
                    assert(tv[t.0 as int] == ir_types@[t.0 as int]@);
                    if let IrType::Block { params } = &ir_types[t.0 as usize] {
                        insert_types(&mut file, params);
                    }
                }
                a += 1;
            }
            assert(av.take(a as int) =~= av);
            b += 1;
        }
        assert(bv.take(b as int) =~= bv);
        let shape = extract_return_shape(blocks);
        let return_regs = assign_registers(&shape);
        let ghost second = file@;
        let mut i: usize = 0;
        assert(shape@.take(0) =~= Seq::empty());
        while i < shape.len()
            invariant
                i <= shape.len(),
                file@ == with_missing(second, shape@.take(i as int)),
            decreases shape.len() - i,
        {
            assert(shape@.take(i + 1).drop_last() =~= shape@.take(i as int));
            let found = index_of_type(&file, shape[i]);
            if found.is_none() {
                file.push(shape[i]);
            }
            i += 1;
        }
        assert(shape@.take(i as int) =~= shape@);
        RegAlloc { per_block_params, return_regs, file, base: storage_base }
    }

    /// The storage of the registers of a type.
    pub fn storage_for(&self, ty: IRTypeId) -> (r: StorageId)
        requires
            self.file@.contains(ty),
            self.base + self.file@.len() <= u32::MAX,
        ensures
            r == register_storage(self.file@, self.base, ty),
    {
        match index_of_type(&self.file, ty) {
            Some(i) => StorageId(self.base + i as u32),
            None => StorageId(self.base),
        }
    }
}

/// The place of a type in a list.
fn index_of_type(s: &Vec<IRTypeId>, t: IRTypeId) -> (r: Option<usize>)
    ensures
        match r {
            Some(i) => s@.contains(t) && s@.index_of_first(t) == Some(i as int) && i < s@.len(),
            None => !s@.contains(t),
        },
{
    let mut i: usize = 0;
    while i < s.len()
        invariant
            i <= s.len(),
            forall|j: int| 0 <= j < i ==> s@[j] != t,
        decreases s.len() - i,
    {
        if s[i] == t {
            proof {
                assert(s@.contains(t));
                s@.index_of_first_ensures(t);
            }
            return Some(i);
        }
        i += 1;
    }
    None
}

/// Two types of the register file have different storages, which stand one
/// behind the other.
pub proof fn law_register_storages_distinct(
    file: Seq<IRTypeId>,
    base: u32,
    a: IRTypeId,
    b: IRTypeId,
)
    requires
        file.contains(a),
        file.contains(b),
        base + file.len() <= u32::MAX,
    ensures
        base <= register_storage(file, base, a).0 < base + file.len(),
        a != b ==> register_storage(file, base, a) != register_storage(file, base, b),
{
    file.index_of_first_ensures(a);
    file.index_of_first_ensures(b);
}

} // verus!
