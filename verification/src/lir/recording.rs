//! A code generator that records what it is asked.

use vstd::prelude::*;

use crate::lir::saved::{
    all_below, blocks_made, call_views, case_in, flat, handle_at, handles_in, mapped, picked,
    picked_branch, plain_cases, replayable, replayed, saved_cases, values_made, LirCall,
    LirCallView, ReplayRun, SavedLirModule,
};
use crate::lir::target::{
    clone_lir_types, field_views, group_views, plain_branch, switch_views, BinKind, BranchTarget,
    ConvKind, IcmpPred, LirBranch, LirOp, LirReply, LirTarget, LirType, StructDef, StructDefView,
    StructId,
};

verus! {

// ---------------------------------------------------------------------------
// Scalars of a type
// ---------------------------------------------------------------------------

/// A list repeated `n` times.
pub open spec fn repeated<A>(s: Seq<A>, n: nat) -> Seq<A>
    decreases n,
{
    if n == 0 {
        Seq::empty()
    } else {
        repeated(s, (n - 1) as nat) + s
    }
}

/// How deep arrays and pointers are nested in a type.
pub open spec fn nesting(ty: LirType) -> nat
    decreases ty,
{
    match ty {
        LirType::Ptr(t) => 1 + nesting(*t),
        LirType::Arr(t, _) => 1 + nesting(*t),
        _ => 0,
    }
}

/// The scalars that a type consists of; structs may be nested `depth` deep.
pub open spec fn scalars(defs: Seq<StructDefView>, ty: LirType, depth: nat) -> Seq<LirType>
    decreases depth, 0nat, nesting(ty),
{
    match ty {
        LirType::Arr(elem, n) => repeated(scalars(defs, *elem, depth), n as nat),
        LirType::Struct(id) => if depth > 0 {
            field_scalars(
                defs,
                defs[id as int].fields,
                (depth - 1) as nat,
                defs[id as int].fields.len(),
            )
        } else {
            Seq::empty()
        },
        _ => seq![ty],
    }
}

/// The scalars of the first `n` fields.
pub open spec fn field_scalars(
    defs: Seq<StructDefView>,
    fields: Seq<(Seq<char>, LirType)>,
    depth: nat,
    n: nat,
) -> Seq<LirType>
    decreases depth, 1nat, n,
{
    if n == 0 {
        Seq::empty()
    } else {
        field_scalars(defs, fields, depth, (n - 1) as nat) + scalars(
            defs,
            fields[n - 1].1,
            depth,
        )
    }
}

/// Whether a type names structs that are defined, nested at most `depth` deep.
pub open spec fn has_scalars(defs: Seq<StructDefView>, ty: LirType, depth: nat) -> bool
    decreases depth, ty,
{
    match ty {
        LirType::Arr(elem, _) => has_scalars(defs, *elem, depth),
        LirType::Struct(id) => {
            &&& id < defs.len()
            &&& depth > 0
            &&& forall|i: int|
                0 <= i < defs[id as int].fields.len() ==> has_scalars(
                    defs,
                    (#[trigger] defs[id as int].fields[i]).1,
                    (depth - 1) as nat,
                )
        },
        _ => true,
    }
}

// ---------------------------------------------------------------------------
// What is recorded
// ---------------------------------------------------------------------------

/// What a [`RecordingTarget`] denotes.
#[verifier::ext_equal]
pub struct RecView {
    /// The calls so far.
    pub calls: Seq<LirCallView>,
    /// The type of each value.
    pub types: Seq<LirType>,
    /// The number of blocks.
    pub n_blocks: u32,
    /// The structs.
    pub defs: Seq<StructDefView>,
}

/// Nothing recorded.
pub open spec fn nothing_recorded() -> RecView {
    RecView { calls: Seq::empty(), types: Seq::empty(), n_blocks: 0, defs: Seq::empty() }
}

impl RecView {
    /// The scalars of a type.
    pub open spec fn scalars(self, ty: LirType) -> Seq<LirType> {
        scalars(self.defs, ty, self.defs.len())
    }

    /// Whether the scalars of a type can be listed.
    pub open spec fn has_scalars(self, ty: LirType) -> bool {
        has_scalars(self.defs, ty, self.defs.len())
    }

    /// The type of a value.
    pub open spec fn val_type(self, v: u32) -> LirType {
        handle_at(self.types, v)
    }

    /// With further values, their types noted.
    pub open spec fn with_values(self, tys: Seq<LirType>) -> RecView {
        RecView {
            calls: self.calls + type_notes(self.types.len(), tys),
            types: self.types + tys,
            ..self
        }
    }
}

/// The notes on the types of values from number `start` on.
pub open spec fn type_notes(start: nat, tys: Seq<LirType>) -> Seq<LirCallView> {
    Seq::new(
        tys.len(),
        |i: int| LirCallView::ValueType { val: (start + i) as u32, ty: tys[i] },
    )
}

/// Consecutive numbers.
pub open spec fn numbers(start: nat, n: nat) -> Seq<u32> {
    Seq::new(n, |i: int| (start + i) as u32)
}

/// Groups of consecutive numbers, as many in each as there are types.
pub open spec fn numbered(start: nat, groups: Seq<Seq<LirType>>) -> Seq<Seq<u32>>
    decreases groups.len(),
{
    if groups.len() == 0 {
        Seq::empty()
    } else {
        let before = groups.drop_last();
        numbered(start, before).push(numbers(start + flat(before).len(), groups.last().len()))
    }
}

/// The types of the values that a call makes.
pub open spec fn made_types(s: RecView, op: LirOp<u32, u32>) -> Seq<Seq<LirType>> {
    match op {
        LirOp::BeginFunction { params, .. } => params.map_values(|p: LirType| s.scalars(p)),
        LirOp::AddBlockParam { ty, .. } => seq![seq![ty]],
        LirOp::Iconst { ty, .. } => seq![seq![ty]],
        LirOp::Binary { lhs, .. } => seq![seq![s.val_type(lhs)]],
        LirOp::Not { val } => seq![seq![s.val_type(val)]],
        LirOp::Icmp { .. } => seq![seq![LirType::Bool]],
        LirOp::Convert { dst_ty, .. } => seq![seq![dst_ty]],
        LirOp::Select { then_val, .. } => seq![seq![s.val_type(then_val)]],
        LirOp::CallExtern { ret_ty, .. } => seq![ret_scalars(s, ret_ty)],
        LirOp::Call { ret_ty, .. } => seq![ret_scalars(s, ret_ty)],
        LirOp::BlockAddr { .. } => seq![seq![LirType::U32]],
        LirOp::Oracle { ret_tys, .. } => seq![ret_tys],
        LirOp::Action { ret_tys, .. } => seq![ret_tys],
        LirOp::Rng { ty } => seq![seq![ty]],
        LirOp::Alloca { elem_ty, .. } => seq![seq![LirType::Ptr(Box::new(elem_ty))]],
        LirOp::PtrLoad { ty, .. } => seq![seq![ty]],
        LirOp::PtrOffset { ptr, .. } => seq![seq![s.val_type(ptr)]],
        LirOp::PtrIndexLoad { pointee_ty, .. } => seq![seq![pointee_ty]],
        _ => Seq::empty(),
    }
}

/// The scalars of an optional result.
pub open spec fn ret_scalars(s: RecView, ret_ty: Option<LirType>) -> Seq<LirType> {
    match ret_ty {
        Some(t) => s.scalars(t),
        None => Seq::empty(),
    }
}

/// Whether a call makes a block.
pub open spec fn makes_block(op: LirOp<u32, u32>) -> bool {
    op is BeginFunction || op is CreateBlock
}

/// The arguments of a jump without the hint.
pub open spec fn unhinted(b: LirBranch<u32>) -> LirBranch<u32> {
    plain_branch(b.args)
}

/// A call without hints: these are not recorded.
pub open spec fn stripped(op: LirOp<u32, u32>) -> LirOp<u32, u32> {
    match op {
        LirOp::Jump { target, branch } => LirOp::Jump { target, branch: unhinted(branch) },
        LirOp::Branch { cond, then_block, then_branch, else_block, else_branch } => LirOp::Branch {
            cond,
            then_block,
            then_branch: unhinted(then_branch),
            else_block,
            else_branch: unhinted(else_branch),
        },
        LirOp::Switch { index, cases, default_block, default_branch } => LirOp::Switch {
            index,
            cases: plain_cases(cases),
            default_block,
            default_branch: unhinted(default_branch),
        },
        LirOp::DynJump { index, destinations, branch } => LirOp::DynJump {
            index,
            destinations,
            branch: unhinted(branch),
        },
        _ => op,
    }
}

/// What the recorder answers.
pub open spec fn rec_reply(s: RecView, op: LirOp<u32, u32>) -> LirReply<u32, u32> {
    LirReply {
        id: if op is DefineStruct {
            Some(s.defs.len() as u32)
        } else {
            None
        },
        blocks: if makes_block(op) {
            seq![s.n_blocks]
        } else {
            Seq::empty()
        },
        groups: numbered(s.types.len(), made_types(s, op)),
    }
}

/// What has been recorded after a call.
pub open spec fn rec_after(s: RecView, op: LirOp<u32, u32>) -> RecView {
    let with = s.with_values(flat(made_types(s, op)));
    RecView {
        calls: with.calls.push(LirCallView::Op { op: stripped(op), reply: rec_reply(s, op) }),
        types: with.types,
        n_blocks: if makes_block(op) {
            (s.n_blocks + 1) as u32
        } else {
            s.n_blocks
        },
        defs: match op {
            LirOp::DefineStruct { def } => s.defs.push(def),
            _ => s.defs,
        },
    }
}

/// Whether the types that a call depends on are known.
pub open spec fn types_known(s: RecView, op: LirOp<u32, u32>) -> bool {
    match op {
        LirOp::BeginFunction { params, .. } => forall|i: int|
            0 <= i < params.len() ==> s.has_scalars(#[trigger] params[i]),
        LirOp::Binary { lhs, .. } => lhs < s.types.len(),
        LirOp::Not { val } => val < s.types.len(),
        LirOp::Select { then_val, .. } => then_val < s.types.len(),
        LirOp::CallExtern { ret_ty, .. } => ret_ty matches Some(t) ==> s.has_scalars(t),
        LirOp::Call { ret_ty, .. } => ret_ty matches Some(t) ==> s.has_scalars(t),
        LirOp::PtrOffset { ptr, .. } => ptr < s.types.len(),
        _ => true,
    }
}

/// Whether the recorder takes a call: the types that it depends on are known,
/// and there are numbers left for what it makes.
pub open spec fn rec_accepts(s: RecView, op: LirOp<u32, u32>) -> bool {
    &&& types_known(s, op)
    &&& s.types.len() + flat(made_types(s, op)).len() <= u32::MAX
    &&& makes_block(op) ==> s.n_blocks < u32::MAX
    &&& op is DefineStruct ==> s.defs.len() <= u32::MAX
}

// ---------------------------------------------------------------------------
// The recorder
// ---------------------------------------------------------------------------

/// Records every call.
#[derive(Debug)]
pub struct RecordingTarget {
    pub module: SavedLirModule,
    next_block: u32,
    val_types: Vec<LirType>,
    struct_defs: Vec<StructDef>,
}

/// The views of a list of structs.
pub open spec fn def_views(s: Seq<StructDef>) -> Seq<StructDefView> {
    s.map_values(|d: StructDef| d@)
}

impl View for RecordingTarget {
    type V = RecView;

    closed spec fn view(&self) -> RecView {
        RecView {
            calls: self.module@,
            types: self.val_types@,
            n_blocks: self.next_block,
            defs: def_views(self.struct_defs@),
        }
    }
}

/// The scalars of a repeated list, one round more.
proof fn lemma_repeated<A>(s: Seq<A>, n: nat)
    ensures
        repeated(s, n + 1) == repeated(s, n) + s,
{
}

impl RecordingTarget {
    /// A recorder of nothing.
    pub fn new() -> (r: Self)
        ensures
            r@ == nothing_recorded(),
    {
        let r = RecordingTarget {
            module: SavedLirModule::default(),
            next_block: 0,
            val_types: Vec::new(),
            struct_defs: Vec::new(),
        };
        assert(r@ =~= nothing_recorded());
        r
    }

    /// Take a number for a value.
    fn alloc_val(&mut self, ty: LirType) -> (r: u32)
        requires
            old(self)@.types.len() < u32::MAX,
        ensures
            final(self)@ == old(self)@.with_values(seq![ty]),
            r == old(self)@.types.len(),
    {
        let ghost before = self@;
        let idx: u32 = self.val_types.len() as u32;
        self.val_types.push(ty.clone());
        let ghost calls = self.module.calls@;
        self.module.calls.push(LirCall::ValueType { val: idx, ty });
        proof {
            assert(call_views(self.module.calls@) =~= call_views(calls).push(
                LirCallView::ValueType { val: idx, ty },
            ));
            assert(self@ =~= before.with_values(seq![ty]));
        }
        idx
    }

    /// Take numbers for values.
    fn alloc_vals(&mut self, tys: &Vec<LirType>) -> (r: Vec<u32>)
        requires
            old(self)@.types.len() + tys@.len() <= u32::MAX,
        ensures
            final(self)@ == old(self)@.with_values(tys@),
            r@ == numbers(old(self)@.types.len(), tys@.len()),
    {
        let ghost before = self@;
        let ghost n = before.types.len();
        let mut out: Vec<u32> = Vec::new();
        let mut i: usize = 0;
        assert(self@ =~= before.with_values(tys@.take(0)));
        while i < tys.len()
            invariant
                i <= tys.len(),
                n == before.types.len(),
                n + tys@.len() <= u32::MAX,
                self@ == before.with_values(tys@.take(i as int)),
                out@ == numbers(n, i as nat),
            decreases tys.len() - i,
        {
            let ghost mid = self@;
            let v: u32 = self.alloc_val(tys[i].clone());
            out.push(v);
            proof {
                assert(self@ =~= before.with_values(tys@.take(i + 1)));
                assert(out@ =~= numbers(n, (i + 1) as nat));
            }
            i += 1;
        }
        assert(tys@.take(i as int) =~= tys@);
        out
    }

    /// Record a call.
    fn push_call(&mut self, call: LirCall)
        ensures
            final(self)@ == (RecView { calls: old(self)@.calls.push(call@), ..old(self)@ }),
    {
        let ghost before = self@;
        let ghost calls = self.module.calls@;
        self.module.calls.push(call);
        proof {
            assert(call_views(self.module.calls@) =~= call_views(calls).push(call@));
            assert(self@ =~= (RecView { calls: before.calls.push(call@), ..before }));
        }
    }

    /// Take a number for a block.
    fn alloc_block(&mut self) -> (r: u32)
        requires
            old(self)@.n_blocks < u32::MAX,
        ensures
            final(self)@ == (RecView { n_blocks: (old(self)@.n_blocks + 1) as u32, ..old(self)@ }),
            r == old(self)@.n_blocks,
    {
        let idx: u32 = self.next_block;
        self.next_block = idx + 1;
        idx
    }

    /// The type of a value.
    fn known_type(&self, v: u32) -> (r: LirType)
        requires
            v < self@.types.len(),
        ensures
            r == self@.val_type(v),
    {
        self.val_types[v as usize].clone()
    }

    /// The scalars that a type consists of.
    fn flatten_scalar_tys(&self, ty: &LirType, depth: usize) -> (r: Vec<LirType>)
        requires
            has_scalars(self@.defs, *ty, depth as nat),
        ensures
            r@ == scalars(self@.defs, *ty, depth as nat),
        decreases depth, ty,
    {
        let ghost defs = self@.defs;
        let mut out: Vec<LirType> = Vec::new();
        match ty {
            LirType::Arr(elem, n) => {
                let part = self.flatten_scalar_tys(&**elem, depth);
                let mut i: usize = 0;
                while i < *n
                    invariant
                        i <= *n,
                        out@ == repeated(part@, i as nat),
                    decreases *n - i,
                {
                    let mut more = clone_lir_types(part.as_slice());
                    out.append(&mut more);
                    proof {
                        lemma_repeated(part@, i as nat);
                    }
                    i += 1;
                }
            },
            LirType::Struct(id) => {
                let def = &self.struct_defs[*id as usize];
                let ghost fields = defs[*id as int].fields;
                assert(fields == field_views(def.fields@));
                let mut i: usize = 0;
                while i < def.fields.len()
                    invariant
                        i <= def.fields.len(),
                        depth > 0,
                        defs == self@.defs,
                        fields == field_views(def.fields@),
                        forall|k: int|
                            0 <= k < fields.len() ==> has_scalars(
                                defs,
                                (#[trigger] fields[k]).1,
                                (depth - 1) as nat,
                            ),
                        out@ == field_scalars(defs, fields, (depth - 1) as nat, i as nat),
                    decreases def.fields.len() - i,
                {
                    assert(fields[i as int].1 == def.fields@[i as int].ty);
                    let mut more = self.flatten_scalar_tys(&def.fields[i].ty, depth - 1);
                    out.append(&mut more);
                    i += 1;
                }
            },
            _ => {
                out.push(ty.clone());
                assert(out@ =~= seq![*ty]);
            },
        }
        out
    }

    /// The scalars of an optional result.
    fn flatten_ret(&self, ty: &Option<LirType>) -> (r: Vec<LirType>)
        requires
            *ty matches Some(t) ==> self@.has_scalars(t),
        ensures
            r@ == ret_scalars(self@, *ty),
    {
        assert(self.struct_defs@.len() == self@.defs.len());
        match ty {
            Some(t) => self.flatten_scalar_tys(t, self.struct_defs.len()),
            None => Vec::new(),
        }
    }

    /// What was recorded.
    pub fn finish(self) -> (r: SavedLirModule)
        ensures
            r@ == self@.calls,
    {
        self.module
    }
}

impl Default for RecordingTarget {
    fn default() -> (r: Self)
        ensures
            r@ == nothing_recorded(),
    {
        RecordingTarget::new()
    }
}

/// A copy of a list of numbers.
fn copy_numbers(s: &[u32]) -> (r: Vec<u32>)
    ensures
        r@ == s@,
{
    let mut out: Vec<u32> = Vec::new();
    let mut i: usize = 0;
    while i < s.len()
        invariant
            i <= s.len(),
            out@ == s@.take(i as int),
        decreases s.len() - i,
    {
        out.push(s[i]);
        assert(out@ =~= s@.take(i + 1));
        i += 1;
    }
    assert(s@.take(i as int) =~= s@);
    out
}

/// A copy of groups of numbers.
fn copy_groups(s: &Vec<Vec<u32>>) -> (r: Vec<Vec<u32>>)
    ensures
        group_views(r@) == group_views(s@),
{
    let mut out: Vec<Vec<u32>> = Vec::new();
    let mut i: usize = 0;
    while i < s.len()
        invariant
            i <= s.len(),
            out@.len() == i,
            forall|k: int| 0 <= k < i ==> (#[trigger] out@[k])@ == s@[k]@,
        decreases s.len() - i,
    {
        out.push(copy_numbers(s[i].as_slice()));
        i += 1;
    }
    assert(group_views(out@) =~= group_views(s@));
    out
}

/// The cases of a switch without hints.
fn copy_cases(s: &[(i64, u32, BranchTarget<u32>)]) -> (r: Vec<(i64, u32, Vec<u32>)>)
    ensures
        saved_cases(r@) == plain_cases(switch_views(s@)),
{
    let mut out: Vec<(i64, u32, Vec<u32>)> = Vec::new();
    let mut i: usize = 0;
    while i < s.len()
        invariant
            i <= s.len(),
            out@.len() == i,
            forall|k: int|
                0 <= k < i ==> ((#[trigger] out@[k]).0, out@[k].1, out@[k].2@) == (
                    s@[k].0,
                    s@[k].1,
                    s@[k].2.args@,
                ),
        decreases s.len() - i,
    {
        let c = &s[i];
        out.push((c.0, c.1, copy_numbers(c.2.args.as_slice())));
        i += 1;
    }
    assert(saved_cases(out@) =~= plain_cases(switch_views(s@)));
    out
}

/// One group of types.
proof fn lemma_one_group(start: nat, tys: Seq<LirType>)
    ensures
        flat(seq![tys]) == tys,
        numbered(start, seq![tys]) == seq![numbers(start, tys.len())],
{
    let g = seq![tys];
    assert(g.drop_last() =~= Seq::empty());
    assert(flat(g.drop_last()) =~= Seq::empty());
    assert(flat(g) =~= tys);
    assert(numbered(start, g.drop_last()) =~= Seq::empty());
    assert(numbered(start, g) =~= seq![numbers(start, tys.len())]);
}

/// One type.
proof fn lemma_one_type(start: nat, ty: LirType)
    ensures
        flat(seq![seq![ty]]) == seq![ty],
        numbered(start, seq![seq![ty]]) == seq![seq![start as u32]],
{
    lemma_one_group(start, seq![ty]);
    assert(numbers(start, 1) =~= seq![start as u32]);
}

/// No types.
proof fn lemma_no_types(s: RecView)
    ensures
        flat(Seq::<Seq<LirType>>::empty()) == Seq::<LirType>::empty(),
        numbered(s.types.len(), Seq::empty()) == Seq::<Seq<u32>>::empty(),
        s.with_values(Seq::empty()) == s,
{
    assert(s.with_values(Seq::empty()) =~= s);
}

impl LirTarget for RecordingTarget {
    type Value = u32;

    type Block = u32;

    open spec fn accepts(self, op: LirOp<u32, u32>) -> bool {
        rec_accepts(self@, op)
    }

    open spec fn step(self, op: LirOp<u32, u32>, post: Self, reply: LirReply<u32, u32>) -> bool {
        post@ == rec_after(self@, op) && reply == rec_reply(self@, op)
    }

    open spec fn type_of(self, val: u32) -> Option<LirType> {
        if val < self@.types.len() {
            Some(self@.val_type(val))
        } else {
            None
        }
    }

    fn define_struct(&mut self, def: StructDef) -> (r: StructId) {
        let ghost before = self@;
        let ghost dv = def@;
        proof {
            lemma_no_types(before);
            assert(self.struct_defs@.len() == before.defs.len());
        }
        let id: StructId = self.struct_defs.len() as StructId;
        let ghost defs = self.struct_defs@;
        self.struct_defs.push(def.clone());
        assert(def_views(self.struct_defs@) =~= def_views(defs).push(dv));
        self.push_call(LirCall::DefineStruct { def, id });
        assert(self@ =~= rec_after(before, LirOp::DefineStruct { def: dv }));
        id
    }

    fn begin_function(&mut self, name: &str, params: &[LirType], ret: Option<LirType>) -> (r: (u32, Vec<Vec<u32>>)) {
        let ghost before = self@;
        let ghost pv = params@;
        let ghost groups = pv.map_values(|p: LirType| before.scalars(p));
        let ghost op = LirOp::<u32, u32>::BeginFunction { name: name@, params: params@, ret };
        assert(made_types(before, op) == groups);
        let depth: usize = self.struct_defs.len();
        assert(depth == before.defs.len());
        let entry_block: u32 = self.alloc_block();
        let ghost start = self@;
        let mut param_vals: Vec<Vec<u32>> = Vec::new();
        let mut i: usize = 0;
        proof {
            lemma_no_types(start);
            assert(groups.take(0) =~= Seq::empty());
            assert(group_views(param_vals@) =~= Seq::empty());
        }
        while i < params.len()
            invariant
                i <= params.len(),
                pv == params@,
                start.types == before.types,
                start.defs == before.defs,
                depth == before.defs.len(),
                groups == pv.map_values(|p: LirType| before.scalars(p)),
                forall|k: int| 0 <= k < pv.len() ==> before.has_scalars(#[trigger] pv[k]),
                before.types.len() + flat(groups).len() <= u32::MAX,
                self@ == start.with_values(flat(groups.take(i as int))),
                group_views(param_vals@) == numbered(
                    before.types.len(),
                    groups.take(i as int),
                ),
            decreases params.len() - i,
        {
            proof {
                assert(before.has_scalars(pv[i as int]));
                assert(groups.take(i + 1).drop_last() =~= groups.take(i as int));
                assert(groups.take(i + 1).last() == before.scalars(pv[i as int]));
                lemma_flat_take(groups, i + 1);
            }
            let tys = self.flatten_scalar_tys(&params[i], depth);
            let ghost mid = self@;
            let ghost pvs = param_vals@;
            let group = self.alloc_vals(&tys);
            param_vals.push(group);
            proof {
                assert(self@ =~= start.with_values(flat(groups.take(i + 1))));
                assert(group_views(param_vals@) =~= group_views(pvs).push(group@));
            }
            i += 1;
        }
        assert(groups.take(i as int) =~= groups);
        let copy = copy_groups(&param_vals);
        self.push_call(
            LirCall::BeginFunction {
                name: name.to_owned(),
                params: clone_lir_types(params),
                ret,
                entry_block,
                param_vals: copy,
            },
        );
        assert(self@ =~= rec_after(before, op));
        (entry_block, param_vals)
    }

    fn end_function(&mut self) {
        let ghost before = self@;
        proof {
            lemma_no_types(before);
        }
        self.push_call(LirCall::EndFunction);
        assert(self@ =~= rec_after(before, LirOp::EndFunction));
    }

    fn create_block(&mut self) -> (r: u32) {
        let ghost before = self@;
        proof {
            lemma_no_types(before);
        }
        let block: u32 = self.alloc_block();
        self.push_call(LirCall::CreateBlock { block });
        assert(self@ =~= rec_after(before, LirOp::CreateBlock));
        block
    }

    fn add_block_param(&mut self, block: u32, ty: LirType) -> (r: u32) {
        let ghost before = self@;
        let ty0: LirType = ty.clone();
        proof {
            lemma_one_type(before.types.len(), ty0);
        }
        let out: u32 = self.alloc_val(ty0);
        self.push_call(LirCall::AddBlockParam { block, ty, val: out });
        assert(self@ =~= rec_after(before, LirOp::AddBlockParam { block, ty }));
        out
    }

    fn switch_to_block(&mut self, block: u32) {
        let ghost before = self@;
        proof {
            lemma_no_types(before);
        }
        self.push_call(LirCall::SwitchToBlock { block });
        assert(self@ =~= rec_after(before, LirOp::SwitchToBlock { block }));
    }

    fn iconst(&mut self, ty: LirType, val: i64) -> (r: u32) {
        let ghost before = self@;
        let ty0: LirType = ty.clone();
        proof {
            lemma_one_type(before.types.len(), ty0);
        }
        let out: u32 = self.alloc_val(ty0);
        self.push_call(LirCall::Iconst { ty, val, out });
        assert(self@ =~= rec_after(before, LirOp::Iconst { ty, val }));
        out
    }

    fn add(&mut self, lhs: u32, rhs: u32) -> (r: u32) {
        let ghost before = self@;
        let ty0: LirType = self.known_type(lhs);
        proof {
            lemma_one_type(before.types.len(), ty0);
        }
        let out: u32 = self.alloc_val(ty0);
        self.push_call(LirCall::Add { lhs, rhs, out });
        assert(self@ =~= rec_after(before, LirOp::Binary { kind: BinKind::Add, lhs, rhs }));
        out
    }

    fn sub(&mut self, lhs: u32, rhs: u32) -> (r: u32) {
        let ghost before = self@;
        let ty0: LirType = self.known_type(lhs);
        proof {
            lemma_one_type(before.types.len(), ty0);
        }
        let out: u32 = self.alloc_val(ty0);
        self.push_call(LirCall::Sub { lhs, rhs, out });
        assert(self@ =~= rec_after(before, LirOp::Binary { kind: BinKind::Sub, lhs, rhs }));
        out
    }

    fn mul(&mut self, lhs: u32, rhs: u32) -> (r: u32) {
        let ghost before = self@;
        let ty0: LirType = self.known_type(lhs);
        proof {
            lemma_one_type(before.types.len(), ty0);
        }
        let out: u32 = self.alloc_val(ty0);
        self.push_call(LirCall::Mul { lhs, rhs, out });
        assert(self@ =~= rec_after(before, LirOp::Binary { kind: BinKind::Mul, lhs, rhs }));
        out
    }

    fn udiv(&mut self, lhs: u32, rhs: u32) -> (r: u32) {
        let ghost before = self@;
        let ty0: LirType = self.known_type(lhs);
        proof {
            lemma_one_type(before.types.len(), ty0);
        }
        let out: u32 = self.alloc_val(ty0);
        self.push_call(LirCall::Udiv { lhs, rhs, out });
        assert(self@ =~= rec_after(before, LirOp::Binary { kind: BinKind::Udiv, lhs, rhs }));
        out
    }

    fn sdiv(&mut self, lhs: u32, rhs: u32) -> (r: u32) {
        let ghost before = self@;
        let ty0: LirType = self.known_type(lhs);
        proof {
            lemma_one_type(before.types.len(), ty0);
        }
        let out: u32 = self.alloc_val(ty0);
        self.push_call(LirCall::Sdiv { lhs, rhs, out });
        assert(self@ =~= rec_after(before, LirOp::Binary { kind: BinKind::Sdiv, lhs, rhs }));
        out
    }

    fn and(&mut self, lhs: u32, rhs: u32) -> (r: u32) {
        let ghost before = self@;
        let ty0: LirType = self.known_type(lhs);
        proof {
            lemma_one_type(before.types.len(), ty0);
        }
        let out: u32 = self.alloc_val(ty0);
        self.push_call(LirCall::And { lhs, rhs, out });
        assert(self@ =~= rec_after(before, LirOp::Binary { kind: BinKind::And, lhs, rhs }));
        out
    }

    fn or(&mut self, lhs: u32, rhs: u32) -> (r: u32) {
        let ghost before = self@;
        let ty0: LirType = self.known_type(lhs);
        proof {
            lemma_one_type(before.types.len(), ty0);
        }
        let out: u32 = self.alloc_val(ty0);
        self.push_call(LirCall::Or { lhs, rhs, out });
        assert(self@ =~= rec_after(before, LirOp::Binary { kind: BinKind::Or, lhs, rhs }));
        out
    }

    fn xor(&mut self, lhs: u32, rhs: u32) -> (r: u32) {
        let ghost before = self@;
        let ty0: LirType = self.known_type(lhs);
        proof {
            lemma_one_type(before.types.len(), ty0);
        }
        let out: u32 = self.alloc_val(ty0);
        self.push_call(LirCall::Xor { lhs, rhs, out });
        assert(self@ =~= rec_after(before, LirOp::Binary { kind: BinKind::Xor, lhs, rhs }));
        out
    }

    fn not(&mut self, val: u32) -> (r: u32) {
        let ghost before = self@;
        let ty0: LirType = self.known_type(val);
        proof {
            lemma_one_type(before.types.len(), ty0);
        }
        let out: u32 = self.alloc_val(ty0);
        self.push_call(LirCall::Not { val, out });
        assert(self@ =~= rec_after(before, LirOp::Not { val }));
        out
    }

    fn shl(&mut self, val: u32, shift: u32) -> (r: u32) {
        let ghost before = self@;
        let ty0: LirType = self.known_type(val);
        proof {
            lemma_one_type(before.types.len(), ty0);
        }
        let out: u32 = self.alloc_val(ty0);
        self.push_call(LirCall::Shl { val, shift, out });
        assert(self@ =~= rec_after(before, LirOp::Binary { kind: BinKind::Shl, lhs: val, rhs: shift }));
        out
    }

    fn lshr(&mut self, val: u32, shift: u32) -> (r: u32) {
        let ghost before = self@;
        let ty0: LirType = self.known_type(val);
        proof {
            lemma_one_type(before.types.len(), ty0);
        }
        let out: u32 = self.alloc_val(ty0);
        self.push_call(LirCall::Lshr { val, shift, out });
        assert(self@ =~= rec_after(before, LirOp::Binary { kind: BinKind::Lshr, lhs: val, rhs: shift }));
        out
    }

    fn ashr(&mut self, val: u32, shift: u32) -> (r: u32) {
        let ghost before = self@;
        let ty0: LirType = self.known_type(val);
        proof {
            lemma_one_type(before.types.len(), ty0);
        }
        let out: u32 = self.alloc_val(ty0);
        self.push_call(LirCall::Ashr { val, shift, out });
        assert(self@ =~= rec_after(before, LirOp::Binary { kind: BinKind::Ashr, lhs: val, rhs: shift }));
        out
    }

    fn icmp(&mut self, pred: IcmpPred, lhs: u32, rhs: u32) -> (r: u32) {
        let ghost before = self@;
        let ty0: LirType = LirType::Bool;
        proof {
            lemma_one_type(before.types.len(), ty0);
        }
        let out: u32 = self.alloc_val(ty0);
        self.push_call(LirCall::Icmp { pred, lhs, rhs, out });
        assert(self@ =~= rec_after(before, LirOp::Icmp { pred, lhs, rhs }));
        out
    }

    fn zext(&mut self, val: u32, dst_ty: LirType) -> (r: u32) {
        let ghost before = self@;
        let ty0: LirType = dst_ty.clone();
        proof {
            lemma_one_type(before.types.len(), ty0);
        }
        let out: u32 = self.alloc_val(ty0);
        self.push_call(LirCall::Zext { val, dst_ty, out });
        assert(self@ =~= rec_after(before, LirOp::Convert { kind: ConvKind::Zext, val, dst_ty }));
        out
    }

    fn sext(&mut self, val: u32, dst_ty: LirType) -> (r: u32) {
        let ghost before = self@;
        let ty0: LirType = dst_ty.clone();
        proof {
            lemma_one_type(before.types.len(), ty0);
        }
        let out: u32 = self.alloc_val(ty0);
        self.push_call(LirCall::Sext { val, dst_ty, out });
        assert(self@ =~= rec_after(before, LirOp::Convert { kind: ConvKind::Sext, val, dst_ty }));
        out
    }

    fn trunc(&mut self, val: u32, dst_ty: LirType) -> (r: u32) {
        let ghost before = self@;
        let ty0: LirType = dst_ty.clone();
        proof {
            lemma_one_type(before.types.len(), ty0);
        }
        let out: u32 = self.alloc_val(ty0);
        self.push_call(LirCall::Trunc { val, dst_ty, out });
        assert(self@ =~= rec_after(before, LirOp::Convert { kind: ConvKind::Trunc, val, dst_ty }));
        out
    }

    fn select(&mut self, cond: u32, then_val: u32, else_val: u32) -> (r: u32) {
        let ghost before = self@;
        let ty0: LirType = self.known_type(then_val);
        proof {
            lemma_one_type(before.types.len(), ty0);
        }
        let out: u32 = self.alloc_val(ty0);
        self.push_call(LirCall::Select { cond, then_val, else_val, out });
        assert(self@ =~= rec_after(before, LirOp::Select { cond, then_val, else_val }));
        out
    }

    fn call_extern(&mut self, name: &str, arg_tys: &[LirType], args: &[u32], ret_ty: Option<LirType>) -> (r: Vec<u32>) {
        let ghost before = self@;
        let tys: Vec<LirType> = self.flatten_ret(&ret_ty);
        proof {
            lemma_one_group(before.types.len(), tys@);
        }
        let outs: Vec<u32> = self.alloc_vals(&tys);
        let copy = copy_numbers(outs.as_slice());
        self.push_call(LirCall::CallExtern {
                name: name.to_owned(),
                arg_tys: clone_lir_types(arg_tys),
                args: copy_numbers(args),
                ret_ty,
                outs: copy,
            });
        assert(self@ =~= rec_after(before, LirOp::CallExtern { name: name@, arg_tys: arg_tys@, args: args@, ret_ty }));
        outs
    }

    fn call(&mut self, name: &str, arg_tys: &[LirType], args: &[u32], ret_ty: Option<LirType>) -> (r: Vec<u32>) {
        let ghost before = self@;
        let tys: Vec<LirType> = self.flatten_ret(&ret_ty);
        proof {
            lemma_one_group(before.types.len(), tys@);
        }
        let outs: Vec<u32> = self.alloc_vals(&tys);
        let copy = copy_numbers(outs.as_slice());
        self.push_call(LirCall::Call {
                name: name.to_owned(),
                arg_tys: clone_lir_types(arg_tys),
                args: copy_numbers(args),
                ret_ty,
                outs: copy,
            });
        assert(self@ =~= rec_after(before, LirOp::Call { name: name@, arg_tys: arg_tys@, args: args@, ret_ty }));
        outs
    }

    fn jump(&mut self, target: u32, branch: BranchTarget<u32>) {
        let ghost branch_view = branch@;
        let ghost before = self@;
        proof {
            lemma_no_types(before);
        }
        self.push_call(LirCall::Jump { target, args: branch.args });
        assert(self@ =~= rec_after(before, LirOp::Jump { target, branch: branch_view }));
    }

    fn branch(&mut self, cond: u32, then_block: u32, then_branch: BranchTarget<u32>, else_block: u32, else_branch: BranchTarget<u32>) {
        let ghost tv = then_branch@;
        let ghost ev = else_branch@;
        let ghost before = self@;
        proof {
            lemma_no_types(before);
        }
        self.push_call(LirCall::Branch {
                cond,
                then_block,
                then_args: then_branch.args,
                else_block,
                else_args: else_branch.args,
            });
        assert(self@ =~= rec_after(before, LirOp::Branch {
                cond,
                then_block,
                then_branch: tv,
                else_block,
                else_branch: ev,
            }));
    }

    fn ret(&mut self, vals: &[u32]) {
        let ghost before = self@;
        proof {
            lemma_no_types(before);
        }
        self.push_call(LirCall::Ret { vals: copy_numbers(vals) });
        assert(self@ =~= rec_after(before, LirOp::Ret { vals: vals@ }));
    }

    fn switch(&mut self, index: u32, cases: &[(i64, u32, BranchTarget<u32>)], default_block: u32, default_branch: BranchTarget<u32>) {
        let ghost dv = default_branch@;
        let ghost before = self@;
        proof {
            lemma_no_types(before);
        }
        self.push_call(LirCall::Switch {
                index,
                cases: copy_cases(cases),
                default_block,
                default_args: default_branch.args,
            });
        assert(self@ =~= rec_after(before, LirOp::Switch {
                index,
                cases: switch_views(cases@),
                default_block,
                default_branch: dv,
            }));
    }

    fn block_addr(&mut self, block: u32) -> (r: u32) {
        let ghost before = self@;
        let ty0: LirType = LirType::U32;
        proof {
            lemma_one_type(before.types.len(), ty0);
        }
        let out: u32 = self.alloc_val(ty0);
        self.push_call(LirCall::BlockAddr { block, out });
        assert(self@ =~= rec_after(before, LirOp::BlockAddr { block }));
        out
    }

    fn dyn_jump(&mut self, index: u32, destinations: &[u32], branch: BranchTarget<u32>) {
        let ghost bv = branch@;
        let ghost before = self@;
        proof {
            lemma_no_types(before);
        }
        self.push_call(LirCall::DynJump {
                index,
                destinations: copy_numbers(destinations),
                args: branch.args,
            });
        assert(self@ =~= rec_after(before, LirOp::DynJump { index, destinations: destinations@, branch: bv }));
    }

    fn oracle(&mut self, name: &str, arg_tys: &[LirType], args: &[u32], ret_tys: &[LirType]) -> (r: Vec<u32>) {
        let ghost before = self@;
        let tys: Vec<LirType> = clone_lir_types(ret_tys);
        proof {
            lemma_one_group(before.types.len(), tys@);
        }
        let outs: Vec<u32> = self.alloc_vals(&tys);
        let copy = copy_numbers(outs.as_slice());
        self.push_call(LirCall::Oracle {
                name: name.to_owned(),
                arg_tys: clone_lir_types(arg_tys),
                args: copy_numbers(args),
                ret_tys: clone_lir_types(ret_tys),
                outs: copy,
            });
        assert(self@ =~= rec_after(before, LirOp::Oracle { name: name@, arg_tys: arg_tys@, args: args@, ret_tys: ret_tys@ }));
        outs
    }

    fn action(&mut self, name: &str, guard: u32, arg_tys: &[LirType], args: &[u32], fallbacks: &[u32], ret_tys: &[LirType]) -> (r: Vec<u32>) {
        let ghost before = self@;
        let tys: Vec<LirType> = clone_lir_types(ret_tys);
        proof {
            lemma_one_group(before.types.len(), tys@);
        }
        let outs: Vec<u32> = self.alloc_vals(&tys);
        let copy = copy_numbers(outs.as_slice());
        self.push_call(LirCall::Action {
                name: name.to_owned(),
                guard,
                arg_tys: clone_lir_types(arg_tys),
                args: copy_numbers(args),
                fallbacks: copy_numbers(fallbacks),
                ret_tys: clone_lir_types(ret_tys),
                outs: copy,
            });
        assert(self@ =~= rec_after(before, LirOp::Action {
                name: name@,
                guard,
                arg_tys: arg_tys@,
                args: args@,
                fallbacks: fallbacks@,
                ret_tys: ret_tys@,
            }));
        outs
    }

    fn rng(&mut self, ty: LirType) -> (r: u32) {
        let ghost before = self@;
        let ty0: LirType = ty.clone();
        proof {
            lemma_one_type(before.types.len(), ty0);
        }
        let out: u32 = self.alloc_val(ty0);
        self.push_call(LirCall::Rng { ty, out });
        assert(self@ =~= rec_after(before, LirOp::Rng { ty }));
        out
    }

    fn alloca(&mut self, elem_ty: LirType, count: usize) -> (r: u32) {
        let ghost before = self@;
        let ty0: LirType = LirType::Ptr(Box::new(elem_ty.clone()));
        proof {
            lemma_one_type(before.types.len(), ty0);
        }
        let out: u32 = self.alloc_val(ty0);
        self.push_call(LirCall::Alloca { elem_ty, count, out });
        assert(self@ =~= rec_after(before, LirOp::Alloca { elem_ty, count }));
        out
    }

    fn ptr_load(&mut self, ptr: u32, ty: LirType) -> (r: u32) {
        let ghost before = self@;
        let ty0: LirType = ty.clone();
        proof {
            lemma_one_type(before.types.len(), ty0);
        }
        let out: u32 = self.alloc_val(ty0);
        self.push_call(LirCall::PtrLoad { ptr, ty, out });
        assert(self@ =~= rec_after(before, LirOp::PtrLoad { ptr, ty }));
        out
    }

    fn ptr_store(&mut self, ptr: u32, val: u32) {
        let ghost before = self@;
        proof {
            lemma_no_types(before);
        }
        self.push_call(LirCall::PtrStore { ptr, val });
        assert(self@ =~= rec_after(before, LirOp::PtrStore { ptr, val }));
    }

    fn ptr_offset(&mut self, ptr: u32, idx: u32) -> (r: u32) {
        let ghost before = self@;
        let ty0: LirType = self.known_type(ptr);
        proof {
            lemma_one_type(before.types.len(), ty0);
        }
        let out: u32 = self.alloc_val(ty0);
        self.push_call(LirCall::PtrOffset { ptr, idx, out });
        assert(self@ =~= rec_after(before, LirOp::PtrOffset { ptr, idx }));
        out
    }

    fn ptr_index_load(&mut self, ptr: u32, idx: u32, pointee_ty: &LirType) -> (r: Vec<u32>) {
        let ghost before = self@;
        let mut tys: Vec<LirType> = Vec::new();
        tys.push(pointee_ty.clone());
        assert(tys@ =~= seq![*pointee_ty]);
        proof {
            lemma_one_group(before.types.len(), tys@);
        }
        let outs: Vec<u32> = self.alloc_vals(&tys);
        let copy = copy_numbers(outs.as_slice());
        self.push_call(
            LirCall::PtrIndexLoad { ptr, idx, pointee_ty: pointee_ty.clone(), outs: copy },
        );
        assert(self@ =~= rec_after(before, LirOp::PtrIndexLoad { ptr, idx, pointee_ty: *pointee_ty }));
        outs
    }

    fn ptr_index_store(&mut self, ptr: u32, idx: u32, vals: &[u32], pointee_ty: &LirType) {
        let ghost before = self@;
        proof {
            lemma_no_types(before);
        }
        self.push_call(LirCall::PtrIndexStore {
                ptr,
                idx,
                vals: copy_numbers(vals),
                pointee_ty: pointee_ty.clone(),
            });
        assert(self@ =~= rec_after(before, LirOp::PtrIndexStore { ptr, idx, vals: vals@, pointee_ty: *pointee_ty }));
    }

    fn value_scalar_type(&self, val: &u32) -> (r: LirType) {
        self.known_type(*val)
    }
}

/// A part of the groups has no more elements than all.
proof fn lemma_flat_take<A>(groups: Seq<Seq<A>>, n: int)
    requires
        0 <= n <= groups.len(),
    ensures
        flat(groups.take(n)).len() <= flat(groups).len(),
    decreases groups.len() - n,
{
    if n < groups.len() {
        lemma_flat_take(groups, n + 1);
        assert(groups.take(n + 1).drop_last() =~= groups.take(n));
    } else {
        assert(groups.take(n) =~= groups);
    }
}

// ---------------------------------------------------------------------------
// Replay of a recording
// ---------------------------------------------------------------------------

/// What has been recorded after the first `n` of a list of calls.
pub open spec fn recording(ops: Seq<LirOp<u32, u32>>, n: int) -> RecView
    decreases n,
{
    if n <= 0 {
        nothing_recorded()
    } else {
        rec_after(recording(ops, n - 1), ops[n - 1])
    }
}

/// Whether a call names values and blocks that were made before, and is
/// accepted.
pub open spec fn well_made(s: RecView, op: LirOp<u32, u32>) -> bool {
    rec_accepts(s, op) && handles_in(op, s.types.len(), s.n_blocks as nat)
}

/// Whether every call of a list is well made.
pub open spec fn all_well_made(ops: Seq<LirOp<u32, u32>>) -> bool {
    forall|j: int| 0 <= j < ops.len() ==> well_made(#[trigger] recording(ops, j), ops[j])
}

/// Whether `s` is what has been recorded of calls that were well made.
pub open spec fn is_recording(s: RecView) -> bool {
    exists|ops: Seq<LirOp<u32, u32>>| #[trigger]
        all_well_made(ops) && s == recording(ops, ops.len() as int)
}

/// A fresh recorder holds a recording.
pub proof fn law_nothing_is_recording()
    ensures
        is_recording(nothing_recorded()),
{
    let ops = Seq::<LirOp<u32, u32>>::empty();
    assert(all_well_made(ops));
    assert(recording(ops, 0) == nothing_recorded());
}

/// A recording stays one with every call that is well made.
pub proof fn law_recording_grows(s: RecView, op: LirOp<u32, u32>)
    requires
        is_recording(s),
        well_made(s, op),
    ensures
        is_recording(rec_after(s, op)),
{
    let ops = choose|ops: Seq<LirOp<u32, u32>>| #[trigger]
        all_well_made(ops) && s == recording(ops, ops.len() as int);
    let longer = ops.push(op);
    let n = ops.len() as int;
    lemma_recording_prefix(ops, op, n);
    assert forall|j: int| 0 <= j < longer.len() implies well_made(
        #[trigger] recording(longer, j),
        longer[j],
    ) by {
        lemma_recording_prefix(ops, op, j);
        if j < n {
            assert(well_made(recording(ops, j), ops[j]));
        }
    }
    assert(all_well_made(longer));
    assert(recording(longer, n + 1) == rec_after(recording(longer, n), longer[n]));
}

proof fn lemma_recording_prefix(ops: Seq<LirOp<u32, u32>>, op: LirOp<u32, u32>, n: int)
    requires
        0 <= n <= ops.len(),
    ensures
        recording(ops.push(op), n) == recording(ops, n),
    decreases n,
{
    if n > 0 {
        lemma_recording_prefix(ops, op, n - 1);
        assert(ops.push(op)[n - 1] == ops[n - 1]);
    }
}

/// Numbers that stand for themselves.
proof fn lemma_picked(idx: Seq<u32>, n: nat)
    requires
        all_below(idx, n),
        n <= u32::MAX,
    ensures
        picked(idx, numbers(0, n)) == idx,
{
    assert forall|i: int| 0 <= i < idx.len() implies #[trigger] picked(idx, numbers(0, n))[i]
        == idx[i] by {
        assert(idx[i] < n);
    }
    assert(picked(idx, numbers(0, n)) =~= idx);
}

/// A call whose numbers stand for themselves is itself.
proof fn lemma_mapped(op: LirOp<u32, u32>, nv: nat, nb: nat)
    requires
        handles_in(op, nv, nb),
        nv <= u32::MAX,
        nb <= u32::MAX,
    ensures
        mapped(op, numbers(0, nv), numbers(0, nb)) == op,
{
    let vals = numbers(0, nv);
    let blocks = numbers(0, nb);
    match op {
        LirOp::Jump { branch, .. } => lemma_picked(branch.args, nv),
        LirOp::Branch { then_branch, else_branch, .. } => {
            lemma_picked(then_branch.args, nv);
            lemma_picked(else_branch.args, nv);
        },
        LirOp::Ret { vals: vs } => lemma_picked(vs, nv),
        LirOp::CallExtern { args, .. } => lemma_picked(args, nv),
        LirOp::Call { args, .. } => lemma_picked(args, nv),
        LirOp::Switch { cases, default_branch, .. } => {
            lemma_picked(default_branch.args, nv);
            let to = cases.map_values(
                |c: (i64, u32, LirBranch<u32>)|
                    (c.0, handle_at(blocks, c.1), picked_branch(c.2, vals)),
            );
            assert forall|i: int| 0 <= i < cases.len() implies #[trigger] to[i] == cases[i] by {
                assert(case_in(cases[i], nv, nb));
                lemma_picked(cases[i].2.args, nv);
            }
            assert(to =~= cases);
        },
        LirOp::DynJump { destinations, branch, .. } => {
            lemma_picked(destinations, nb);
            lemma_picked(branch.args, nv);
        },
        LirOp::Oracle { args, .. } => lemma_picked(args, nv),
        LirOp::Action { args, fallbacks, .. } => {
            lemma_picked(args, nv);
            lemma_picked(fallbacks, nv);
        },
        LirOp::PtrIndexStore { vals: vs, .. } => lemma_picked(vs, nv),
        _ => {},
    }
}

/// Hints are of no account to what is recorded.
proof fn lemma_stripped(s: RecView, op: LirOp<u32, u32>)
    ensures
        rec_after(s, stripped(op)) == rec_after(s, op),
        rec_reply(s, stripped(op)) == rec_reply(s, op),
        well_made(s, op) ==> well_made(s, stripped(op)),
{
    if let LirOp::Switch { cases, .. } = op {
        assert(plain_cases(plain_cases(cases)) =~= plain_cases(cases));
        if well_made(s, op) {
            let plain = plain_cases(cases);
            assert forall|i: int| 0 <= i < plain.len() implies case_in(
                #[trigger] plain[i],
                s.types.len(),
                s.n_blocks as nat,
            ) by {
                assert(case_in(cases[i], s.types.len(), s.n_blocks as nat));
            }
        }
    }
    assert(stripped(stripped(op)) == stripped(op));
    assert(made_types(s, stripped(op)) == made_types(s, op));
}

/// The numbers of groups, put together.
proof fn lemma_numbered_flat(start: nat, groups: Seq<Seq<LirType>>)
    ensures
        flat(numbered(start, groups)) == numbers(start, flat(groups).len()),
    decreases groups.len(),
{
    if groups.len() > 0 {
        let before = groups.drop_last();
        lemma_numbered_flat(start, before);
        let all = numbered(start, groups);
        assert(all.drop_last() =~= numbered(start, before));
        assert(flat(all) =~= numbers(start, flat(groups).len()));
    } else {
        assert(numbers(start, 0) =~= Seq::empty());
    }
}

/// How many calls and notes the first `n` calls leave.
spec fn place(ops: Seq<LirOp<u32, u32>>, n: int) -> int {
    recording(ops, n).calls.len() as int
}

/// What stands at and before a place of a recording.
proof fn lemma_places(ops: Seq<LirOp<u32, u32>>, j: int, n: int)
    requires
        0 <= j <= n,
    ensures
        place(ops, j) <= place(ops, n),
        recording(ops, n).calls.take(place(ops, j)) == recording(ops, j).calls,
    decreases n - j,
{
    if j < n {
        lemma_places(ops, j, n - 1);
        let a = recording(ops, n - 1).calls;
        let b = recording(ops, n).calls;
        assert(b.take(place(ops, j)) =~= a.take(place(ops, j)));
    } else {
        assert(recording(ops, n).calls.take(place(ops, n)) =~= recording(ops, n).calls);
    }
}

/// The notes and the call that call `j` leaves in a recording.
proof fn lemma_call_at(ops: Seq<LirOp<u32, u32>>, j: int, n: int, i: int)
    requires
        0 <= j < n,
        place(ops, j) <= i < place(ops, j + 1),
    ensures
        ({
            let s = recording(ops, j);
            let calls = recording(ops, n).calls;
            &&& place(ops, j + 1) == place(ops, j) + flat(made_types(s, ops[j])).len() + 1
            &&& place(ops, j + 1) <= calls.len()
            &&& i + 1 < place(ops, j + 1) ==> calls[i] is ValueType
            &&& i + 1 == place(ops, j + 1) ==> calls[i] == (LirCallView::Op {
                op: stripped(ops[j]),
                reply: rec_reply(s, ops[j]),
            })
        }),
{
    lemma_places(ops, j + 1, n);
    let part = recording(ops, j + 1).calls;
    let calls = recording(ops, n).calls;
    assert(part[i] == calls.take(place(ops, j + 1))[i]);
}

/// Where a replay of a recording stands behind the first `j` calls: in the
/// state of the recorder, with every handle equal to its number.
spec fn on_track(ops: Seq<LirOp<u32, u32>>, run: ReplayRun<RecordingTarget>, j: int, i: int) -> bool {
    let s = recording(ops, j);
    &&& run.targets[i]@ == s
    &&& values_made(run.replies, i) == numbers(0, s.types.len())
    &&& blocks_made(run.replies, i) == numbers(0, s.n_blocks as nat)
}

/// A replay of a recording is on track at every place that it has reached.
proof fn lemma_on_track(
    ops: Seq<LirOp<u32, u32>>,
    run: ReplayRun<RecordingTarget>,
    start: RecordingTarget,
    m: int,
    j: int,
    i: int,
)
    requires
        all_well_made(ops),
        start@ == nothing_recorded(),
        run.replays(recording(ops, ops.len() as int).calls, start, m),
        0 <= j <= ops.len(),
        place(ops, j) <= i <= m,
        j < ops.len() ==> i < place(ops, j + 1),
        j == ops.len() ==> i == place(ops, j),
    ensures
        on_track(ops, run, j, i),
    decreases i, j,
{
    let n = ops.len() as int;
    let calls = recording(ops, n).calls;
    if i > place(ops, j) {
        lemma_call_at(ops, j, n, i - 1);
        lemma_on_track(ops, run, start, m, j, i - 1);
        assert(run.step_at(calls, i - 1));
        lemma_flat_none();
        assert(values_made(run.replies, i) =~= values_made(run.replies, i - 1));
        assert(blocks_made(run.replies, i) =~= blocks_made(run.replies, i - 1));
    } else if j > 0 {
        let s = recording(ops, j - 1);
        lemma_places(ops, j - 1, j);
        assert(place(ops, j) >= place(ops, j - 1) + 1);
        lemma_call_at(ops, j - 1, n, i - 1);
        lemma_on_track(ops, run, start, m, j - 1, i - 1);
        assert(run.step_at(calls, i - 1));
        assert(well_made(s, ops[j - 1]));
        lemma_stripped(s, ops[j - 1]);
        lemma_mapped(stripped(ops[j - 1]), s.types.len(), s.n_blocks as nat);
        let op = ops[j - 1];
        let groups = made_types(s, op);
        lemma_numbered_flat(s.types.len(), groups);
        assert(values_made(run.replies, i) =~= numbers(0, recording(ops, j).types.len()));
        assert(blocks_made(run.replies, i) =~= numbers(0, recording(ops, j).n_blocks as nat));
    } else {
        assert(i == 0);
        assert(values_made(run.replies, 0) =~= numbers(0, 0));
        assert(blocks_made(run.replies, 0) =~= numbers(0, 0));
    }
}

proof fn lemma_flat_none()
    ensures
        flat(Seq::<Seq<u32>>::empty()) == Seq::<u32>::empty(),
{
}

/// The call that a place belongs to.
proof fn lemma_find_call(ops: Seq<LirOp<u32, u32>>, n: int, i: int) -> (j: int)
    requires
        0 <= n <= ops.len(),
        0 <= i < place(ops, n),
    ensures
        0 <= j < n,
        place(ops, j) <= i < place(ops, j + 1),
    decreases n,
{
    assert(n > 0);
    if i >= place(ops, n - 1) {
        n - 1
    } else {
        lemma_find_call(ops, n - 1, i)
    }
}

/// A recording can be replayed into a fresh recorder.
pub proof fn law_recording_replayable(s: RecView, start: RecordingTarget)
    requires
        is_recording(s),
        start@ == nothing_recorded(),
    ensures
        replayable(s.calls, start),
{
    let ops = choose|ops: Seq<LirOp<u32, u32>>| #[trigger]
        all_well_made(ops) && s == recording(ops, ops.len() as int);
    let n = ops.len() as int;
    assert forall|run: ReplayRun<RecordingTarget>, i: int|
        0 <= i < s.calls.len() && #[trigger] run.replays(s.calls, start, i) implies run.ready_at(
        s.calls,
        i,
    ) by {
        let j = lemma_find_call(ops, n, i);
        lemma_on_track(ops, run, start, i, j, i);
        lemma_call_at(ops, j, n, i);
        if i + 1 == place(ops, j + 1) {
            let r = recording(ops, j);
            assert(well_made(r, ops[j]));
            lemma_stripped(r, ops[j]);
            lemma_mapped(stripped(ops[j]), r.types.len(), r.n_blocks as nat);
        }
    }
}

/// Replay of a recording into a fresh recorder records it again.
pub proof fn law_replay_reproduces(s: RecView, start: RecordingTarget, end: RecordingTarget)
    requires
        is_recording(s),
        start@ == nothing_recorded(),
        replayed(s.calls, start, end),
    ensures
        end@ == s,
{
    let ops = choose|ops: Seq<LirOp<u32, u32>>| #[trigger]
        all_well_made(ops) && s == recording(ops, ops.len() as int);
    let run = choose|run: ReplayRun<RecordingTarget>| #[trigger]
        run.replays(s.calls, start, s.calls.len() as int) && run.targets.last() == end;
    lemma_on_track(
        ops,
        run,
        start,
        s.calls.len() as int,
        ops.len() as int,
        s.calls.len() as int,
    );
}

} // verus!
