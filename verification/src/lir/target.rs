//! The interface of a code generator.

use vstd::prelude::*;

use crate::common::{MeasureSpec, ReentryHint};
use crate::ir::hint_view;

verus! {

/// A struct type, by order of definition.
pub type StructId = u32;

/// The type of a value.
#[derive(PartialEq, Eq, Debug)]
pub enum LirType {
    Bool,
    U8,
    U16,
    U32,
    U64,
    I8,
    I16,
    I32,
    I64,
    /// A pointer.
    Ptr(Box<LirType>),
    /// An array.
    Arr(Box<LirType>, usize),
    /// A struct.
    Struct(StructId),
}

impl Clone for LirType {
    fn clone(&self) -> (r: Self)
        ensures
            r == *self,
        decreases self,
    {
        match self {
            LirType::Bool => LirType::Bool,
            LirType::U8 => LirType::U8,
            LirType::U16 => LirType::U16,
            LirType::U32 => LirType::U32,
            LirType::U64 => LirType::U64,
            LirType::I8 => LirType::I8,
            LirType::I16 => LirType::I16,
            LirType::I32 => LirType::I32,
            LirType::I64 => LirType::I64,
            LirType::Ptr(t) => LirType::Ptr(Box::new((&**t).clone())),
            LirType::Arr(t, n) => LirType::Arr(Box::new((&**t).clone()), *n),
            LirType::Struct(id) => LirType::Struct(*id),
        }
    }
}

/// A copy of a list of types.
pub fn clone_lir_types(s: &[LirType]) -> (r: Vec<LirType>)
    ensures
        r@ == s@,
{
    let mut out: Vec<LirType> = Vec::new();
    let mut i: usize = 0;
    while i < s.len()
        invariant
            i <= s.len(),
            out@.len() == i,
            forall|k: int| 0 <= k < i ==> #[trigger] out@[k] == s@[k],
        decreases s.len() - i,
    {
        out.push(s[i].clone());
        i += 1;
    }
    assert(out@ =~= s@);
    out
}

/// A copy of an optional type.
pub fn clone_lir_ret(t: &Option<LirType>) -> (r: Option<LirType>)
    ensures
        r == *t,
{
    match t {
        Some(t) => Some(t.clone()),
        None => None,
    }
}

/// A comparison.
#[derive(Clone, Copy, PartialEq, Eq, Debug, Structural)]
pub enum IcmpPred {
    Eq,
    Ne,
    Ult,
    Ule,
    Ugt,
    Uge,
    Slt,
    Sle,
    Sgt,
    Sge,
}

/// A field of a struct.
#[derive(PartialEq, Eq, Debug)]
pub struct StructField {
    pub name: String,
    pub ty: LirType,
}

/// A struct type.
#[derive(PartialEq, Eq, Debug)]
pub struct StructDef {
    pub name: String,
    pub fields: Vec<StructField>,
}

/// What a [`StructDef`] denotes.
#[verifier::ext_equal]
pub struct StructDefView {
    pub name: Seq<char>,
    pub fields: Seq<(Seq<char>, LirType)>,
}

/// The names and types of a list of fields.
pub open spec fn field_views(s: Seq<StructField>) -> Seq<(Seq<char>, LirType)> {
    s.map_values(|f: StructField| (f.name@, f.ty))
}

impl View for StructDef {
    type V = StructDefView;

    open spec fn view(&self) -> StructDefView {
        StructDefView { name: self.name@, fields: field_views(self.fields@) }
    }
}

impl Clone for StructDef {
    fn clone(&self) -> (r: Self)
        ensures
            r@ == self@,
    {
        let mut fields: Vec<StructField> = Vec::new();
        let mut i: usize = 0;
        while i < self.fields.len()
            invariant
                i <= self.fields.len(),
                fields@.len() == i,
                forall|k: int|
                    0 <= k < i ==> (#[trigger] fields@[k]).name@ == self.fields@[k].name@
                        && fields@[k].ty == self.fields@[k].ty,
            decreases self.fields.len() - i,
        {
            fields.push(
                StructField {
                    name: self.fields[i].name.clone(),
                    ty: self.fields[i].ty.clone(),
                },
            );
            i += 1;
        }
        assert(field_views(fields@) =~= field_views(self.fields@));
        StructDef { name: self.name.clone(), fields }
    }
}

/// The arguments of a jump, with a hint on re-entry.
#[derive(Debug)]
pub struct BranchTarget<V> {
    pub args: Vec<V>,
    pub reentry: Option<ReentryHint>,
}

/// What a [`BranchTarget`] denotes.
#[verifier::ext_equal]
pub struct LirBranch<V> {
    pub args: Seq<V>,
    pub reentry: Option<Seq<MeasureSpec>>,
}

impl<V> View for BranchTarget<V> {
    type V = LirBranch<V>;

    open spec fn view(&self) -> LirBranch<V> {
        LirBranch { args: self.args@, reentry: hint_view(self.reentry) }
    }
}

impl<V> BranchTarget<V> {
    /// Arguments without a hint.
    pub fn args(args: Vec<V>) -> (r: Self)
        ensures
            r@ == plain_branch(args@),
    {
        BranchTarget { args, reentry: None }
    }
}

/// Arguments without a hint.
pub open spec fn plain_branch<V>(args: Seq<V>) -> LirBranch<V> {
    LirBranch { args, reentry: None }
}

/// An operation on two values.
#[derive(Clone, Copy, PartialEq, Eq, Debug, Structural)]
pub enum BinKind {
    Add,
    Sub,
    Mul,
    Udiv,
    Sdiv,
    And,
    Or,
    Xor,
    Shl,
    Lshr,
    Ashr,
}

/// A conversion.
#[derive(Clone, Copy, PartialEq, Eq, Debug, Structural)]
pub enum ConvKind {
    Zext,
    Sext,
    Trunc,
}

/// A call into a code generator whose values are `V` and whose blocks are `B`.
#[verifier::ext_equal]
#[allow(inconsistent_fields)]
pub enum LirOp<V, B> {
    DefineStruct { def: StructDefView },
    BeginFunction { name: Seq<char>, params: Seq<LirType>, ret: Option<LirType> },
    EndFunction,
    CreateBlock,
    AddBlockParam { block: B, ty: LirType },
    SwitchToBlock { block: B },
    Iconst { ty: LirType, val: i64 },
    Binary { kind: BinKind, lhs: V, rhs: V },
    Not { val: V },
    Icmp { pred: IcmpPred, lhs: V, rhs: V },
    Convert { kind: ConvKind, val: V, dst_ty: LirType },
    Select { cond: V, then_val: V, else_val: V },
    Jump { target: B, branch: LirBranch<V> },
    Branch {
        cond: V,
        then_block: B,
        then_branch: LirBranch<V>,
        else_block: B,
        else_branch: LirBranch<V>,
    },
    Ret { vals: Seq<V> },
    CallExtern {
        name: Seq<char>,
        arg_tys: Seq<LirType>,
        args: Seq<V>,
        ret_ty: Option<LirType>,
    },
    Call { name: Seq<char>, arg_tys: Seq<LirType>, args: Seq<V>, ret_ty: Option<LirType> },
    Switch {
        index: V,
        cases: Seq<(i64, B, LirBranch<V>)>,
        default_block: B,
        default_branch: LirBranch<V>,
    },
    BlockAddr { block: B },
    DynJump { index: V, destinations: Seq<B>, branch: LirBranch<V> },
    Oracle { name: Seq<char>, arg_tys: Seq<LirType>, args: Seq<V>, ret_tys: Seq<LirType> },
    Action {
        name: Seq<char>,
        guard: V,
        arg_tys: Seq<LirType>,
        args: Seq<V>,
        fallbacks: Seq<V>,
        ret_tys: Seq<LirType>,
    },
    Rng { ty: LirType },
    Alloca { elem_ty: LirType, count: usize },
    PtrLoad { ptr: V, ty: LirType },
    PtrStore { ptr: V, val: V },
    PtrOffset { ptr: V, idx: V },
    PtrIndexLoad { ptr: V, idx: V, pointee_ty: LirType },
    PtrIndexStore { ptr: V, idx: V, vals: Seq<V>, pointee_ty: LirType },
}

/// What a code generator answers to a call.
#[verifier::ext_equal]
pub struct LirReply<V, B> {
    /// The struct that was defined.
    pub id: Option<StructId>,
    /// The blocks that were made.
    pub blocks: Seq<B>,
    /// The values that were made, in groups.
    pub groups: Seq<Seq<V>>,
}

/// Nothing.
pub open spec fn no_reply<V, B>() -> LirReply<V, B> {
    LirReply { id: None, blocks: Seq::empty(), groups: Seq::empty() }
}

/// One value.
pub open spec fn one_value<V, B>(v: V) -> LirReply<V, B> {
    LirReply { id: None, blocks: Seq::empty(), groups: seq![seq![v]] }
}

/// A list of values.
pub open spec fn some_values<V, B>(vs: Seq<V>) -> LirReply<V, B> {
    LirReply { id: None, blocks: Seq::empty(), groups: seq![vs] }
}

/// The views of a list of lists.
pub open spec fn group_views<V>(s: Seq<Vec<V>>) -> Seq<Seq<V>> {
    s.map_values(|g: Vec<V>| g@)
}

/// The views of the cases of a switch.
pub open spec fn switch_views<V, B>(s: Seq<(i64, B, BranchTarget<V>)>) -> Seq<
    (i64, B, LirBranch<V>),
> {
    s.map_values(|c: (i64, B, BranchTarget<V>)| (c.0, c.1, c.2@))
}

/// A code generator.
///
/// `accepts` says which calls it takes in its present state; `step` relates its
/// state before a call to that after it and to its answer.
pub trait LirTarget: Sized {
    type Value: Copy;

    type Block: Copy;

    /// Whether a call may be made.
    spec fn accepts(self, op: LirOp<Self::Value, Self::Block>) -> bool;

    /// Whether a call may lead to the state `post` with the given answer.
    spec fn step(
        self,
        op: LirOp<Self::Value, Self::Block>,
        post: Self,
        reply: LirReply<Self::Value, Self::Block>,
    ) -> bool;

    /// The type of a value, if it is known.
    spec fn type_of(self, val: Self::Value) -> Option<LirType>;

    /// Define a struct.
    fn define_struct(&mut self, def: StructDef) -> (r: StructId)
        requires
            old(self).accepts(LirOp::DefineStruct { def: def@ }),
        ensures
            old(self).step(LirOp::DefineStruct { def: def@ }, *final(self), (LirReply { id: Some(r), blocks: Seq::empty(), groups: Seq::empty() })),
    ;

    /// Start a function: its entry block, and for each parameter its scalars.
    fn begin_function(&mut self, name: &str, params: &[LirType], ret: Option<LirType>) -> (r: (Self::Block, Vec<Vec<Self::Value>>))
        requires
            old(self).accepts(LirOp::BeginFunction { name: name@, params: params@, ret }),
        ensures
            old(self).step(LirOp::BeginFunction { name: name@, params: params@, ret }, *final(self), (LirReply { id: None, blocks: seq![r.0], groups: group_views(r.1@) })),
    ;

    /// End the function.
    fn end_function(&mut self)
        requires
            old(self).accepts(LirOp::EndFunction),
        ensures
            old(self).step(LirOp::EndFunction, *final(self), no_reply()),
    ;

    /// Make a block.
    fn create_block(&mut self) -> (r: Self::Block)
        requires
            old(self).accepts(LirOp::CreateBlock),
        ensures
            old(self).step(LirOp::CreateBlock, *final(self), (LirReply { id: None, blocks: seq![r], groups: Seq::empty() })),
    ;

    /// Add a parameter to a block.
    fn add_block_param(&mut self, block: Self::Block, ty: LirType) -> (r: Self::Value)
        requires
            old(self).accepts(LirOp::AddBlockParam { block, ty }),
        ensures
            old(self).step(LirOp::AddBlockParam { block, ty }, *final(self), one_value(r)),
    ;

    /// Emit into a block from now on.
    fn switch_to_block(&mut self, block: Self::Block)
        requires
            old(self).accepts(LirOp::SwitchToBlock { block }),
        ensures
            old(self).step(LirOp::SwitchToBlock { block }, *final(self), no_reply()),
    ;

    /// A constant.
    fn iconst(&mut self, ty: LirType, val: i64) -> (r: Self::Value)
        requires
            old(self).accepts(LirOp::Iconst { ty, val }),
        ensures
            old(self).step(LirOp::Iconst { ty, val }, *final(self), one_value(r)),
    ;

    /// The sum.
    fn add(&mut self, lhs: Self::Value, rhs: Self::Value) -> (r: Self::Value)
        requires
            old(self).accepts(LirOp::Binary { kind: BinKind::Add, lhs, rhs }),
        ensures
            old(self).step(LirOp::Binary { kind: BinKind::Add, lhs, rhs }, *final(self), one_value(r)),
    ;

    /// The difference.
    fn sub(&mut self, lhs: Self::Value, rhs: Self::Value) -> (r: Self::Value)
        requires
            old(self).accepts(LirOp::Binary { kind: BinKind::Sub, lhs, rhs }),
        ensures
            old(self).step(LirOp::Binary { kind: BinKind::Sub, lhs, rhs }, *final(self), one_value(r)),
    ;

    /// The product.
    fn mul(&mut self, lhs: Self::Value, rhs: Self::Value) -> (r: Self::Value)
        requires
            old(self).accepts(LirOp::Binary { kind: BinKind::Mul, lhs, rhs }),
        ensures
            old(self).step(LirOp::Binary { kind: BinKind::Mul, lhs, rhs }, *final(self), one_value(r)),
    ;

    /// The unsigned quotient.
    fn udiv(&mut self, lhs: Self::Value, rhs: Self::Value) -> (r: Self::Value)
        requires
            old(self).accepts(LirOp::Binary { kind: BinKind::Udiv, lhs, rhs }),
        ensures
            old(self).step(LirOp::Binary { kind: BinKind::Udiv, lhs, rhs }, *final(self), one_value(r)),
    ;

    /// The signed quotient.
    fn sdiv(&mut self, lhs: Self::Value, rhs: Self::Value) -> (r: Self::Value)
        requires
            old(self).accepts(LirOp::Binary { kind: BinKind::Sdiv, lhs, rhs }),
        ensures
            old(self).step(LirOp::Binary { kind: BinKind::Sdiv, lhs, rhs }, *final(self), one_value(r)),
    ;

    /// Bitwise conjunction.
    fn and(&mut self, lhs: Self::Value, rhs: Self::Value) -> (r: Self::Value)
        requires
            old(self).accepts(LirOp::Binary { kind: BinKind::And, lhs, rhs }),
        ensures
            old(self).step(LirOp::Binary { kind: BinKind::And, lhs, rhs }, *final(self), one_value(r)),
    ;

    /// Bitwise disjunction.
    fn or(&mut self, lhs: Self::Value, rhs: Self::Value) -> (r: Self::Value)
        requires
            old(self).accepts(LirOp::Binary { kind: BinKind::Or, lhs, rhs }),
        ensures
            old(self).step(LirOp::Binary { kind: BinKind::Or, lhs, rhs }, *final(self), one_value(r)),
    ;

    /// Bitwise exclusive or.
    fn xor(&mut self, lhs: Self::Value, rhs: Self::Value) -> (r: Self::Value)
        requires
            old(self).accepts(LirOp::Binary { kind: BinKind::Xor, lhs, rhs }),
        ensures
            old(self).step(LirOp::Binary { kind: BinKind::Xor, lhs, rhs }, *final(self), one_value(r)),
    ;

    /// Bitwise negation.
    fn not(&mut self, val: Self::Value) -> (r: Self::Value)
        requires
            old(self).accepts(LirOp::Not { val }),
        ensures
            old(self).step(LirOp::Not { val }, *final(self), one_value(r)),
    ;

    /// A shift to the left.
    fn shl(&mut self, val: Self::Value, shift: Self::Value) -> (r: Self::Value)
        requires
            old(self).accepts(LirOp::Binary { kind: BinKind::Shl, lhs: val, rhs: shift }),
        ensures
            old(self).step(LirOp::Binary { kind: BinKind::Shl, lhs: val, rhs: shift }, *final(self), one_value(r)),
    ;

    /// A logical shift to the right.
    fn lshr(&mut self, val: Self::Value, shift: Self::Value) -> (r: Self::Value)
        requires
            old(self).accepts(LirOp::Binary { kind: BinKind::Lshr, lhs: val, rhs: shift }),
        ensures
            old(self).step(LirOp::Binary { kind: BinKind::Lshr, lhs: val, rhs: shift }, *final(self), one_value(r)),
    ;

    /// An arithmetic shift to the right.
    fn ashr(&mut self, val: Self::Value, shift: Self::Value) -> (r: Self::Value)
        requires
            old(self).accepts(LirOp::Binary { kind: BinKind::Ashr, lhs: val, rhs: shift }),
        ensures
            old(self).step(LirOp::Binary { kind: BinKind::Ashr, lhs: val, rhs: shift }, *final(self), one_value(r)),
    ;

    /// A comparison.
    fn icmp(&mut self, pred: IcmpPred, lhs: Self::Value, rhs: Self::Value) -> (r: Self::Value)
        requires
            old(self).accepts(LirOp::Icmp { pred, lhs, rhs }),
        ensures
            old(self).step(LirOp::Icmp { pred, lhs, rhs }, *final(self), one_value(r)),
    ;

    /// Widen with zeros.
    fn zext(&mut self, val: Self::Value, dst_ty: LirType) -> (r: Self::Value)
        requires
            old(self).accepts(LirOp::Convert { kind: ConvKind::Zext, val, dst_ty }),
        ensures
            old(self).step(LirOp::Convert { kind: ConvKind::Zext, val, dst_ty }, *final(self), one_value(r)),
    ;

    /// Widen with the sign.
    fn sext(&mut self, val: Self::Value, dst_ty: LirType) -> (r: Self::Value)
        requires
            old(self).accepts(LirOp::Convert { kind: ConvKind::Sext, val, dst_ty }),
        ensures
            old(self).step(LirOp::Convert { kind: ConvKind::Sext, val, dst_ty }, *final(self), one_value(r)),
    ;

    /// Narrow.
    fn trunc(&mut self, val: Self::Value, dst_ty: LirType) -> (r: Self::Value)
        requires
            old(self).accepts(LirOp::Convert { kind: ConvKind::Trunc, val, dst_ty }),
        ensures
            old(self).step(LirOp::Convert { kind: ConvKind::Trunc, val, dst_ty }, *final(self), one_value(r)),
    ;

    /// One of two values.
    fn select(&mut self, cond: Self::Value, then_val: Self::Value, else_val: Self::Value) -> (r: Self::Value)
        requires
            old(self).accepts(LirOp::Select { cond, then_val, else_val }),
        ensures
            old(self).step(LirOp::Select { cond, then_val, else_val }, *final(self), one_value(r)),
    ;

    /// Call a function outside the module.
    fn call_extern(&mut self, name: &str, arg_tys: &[LirType], args: &[Self::Value], ret_ty: Option<LirType>) -> (r: Vec<Self::Value>)
        requires
            old(self).accepts(LirOp::CallExtern { name: name@, arg_tys: arg_tys@, args: args@, ret_ty }),
        ensures
            old(self).step(LirOp::CallExtern { name: name@, arg_tys: arg_tys@, args: args@, ret_ty }, *final(self), some_values(r@)),
    ;

    /// Call a function of the module.
    fn call(&mut self, name: &str, arg_tys: &[LirType], args: &[Self::Value], ret_ty: Option<LirType>) -> (r: Vec<Self::Value>)
        requires
            old(self).accepts(LirOp::Call { name: name@, arg_tys: arg_tys@, args: args@, ret_ty }),
        ensures
            old(self).step(LirOp::Call { name: name@, arg_tys: arg_tys@, args: args@, ret_ty }, *final(self), some_values(r@)),
    ;

    /// Jump.
    fn jump(&mut self, target: Self::Block, branch: BranchTarget<Self::Value>)
        requires
            old(self).accepts(LirOp::Jump { target, branch: branch@ }),
        ensures
            old(self).step(LirOp::Jump { target, branch: branch@ }, *final(self), no_reply()),
    ;

    /// Jump to one of two blocks.
    fn branch(&mut self, cond: Self::Value, then_block: Self::Block, then_branch: BranchTarget<Self::Value>, else_block: Self::Block, else_branch: BranchTarget<Self::Value>)
        requires
            old(self).accepts(LirOp::Branch {
                cond,
                then_block,
                then_branch: then_branch@,
                else_block,
                else_branch: else_branch@,
            }),
        ensures
            old(self).step(LirOp::Branch {
                cond,
                then_block,
                then_branch: then_branch@,
                else_block,
                else_branch: else_branch@,
            }, *final(self), no_reply()),
    ;

    /// Return.
    fn ret(&mut self, vals: &[Self::Value])
        requires
            old(self).accepts(LirOp::Ret { vals: vals@ }),
        ensures
            old(self).step(LirOp::Ret { vals: vals@ }, *final(self), no_reply()),
    ;

    /// Jump to the block of a key, or to the default.
    fn switch(&mut self, index: Self::Value, cases: &[(i64, Self::Block, BranchTarget<Self::Value>)], default_block: Self::Block, default_branch: BranchTarget<Self::Value>)
        requires
            old(self).accepts(LirOp::Switch {
                index,
                cases: switch_views(cases@),
                default_block,
                default_branch: default_branch@,
            }),
        ensures
            old(self).step(LirOp::Switch {
                index,
                cases: switch_views(cases@),
                default_block,
                default_branch: default_branch@,
            }, *final(self), no_reply()),
    ;

    /// A block as a value.
    fn block_addr(&mut self, block: Self::Block) -> (r: Self::Value)
        requires
            old(self).accepts(LirOp::BlockAddr { block }),
        ensures
            old(self).step(LirOp::BlockAddr { block }, *final(self), one_value(r)),
    ;

    /// Jump to a block that is a value.
    fn dyn_jump(&mut self, index: Self::Value, destinations: &[Self::Block], branch: BranchTarget<Self::Value>)
        requires
            old(self).accepts(LirOp::DynJump { index, destinations: destinations@, branch: branch@ }),
        ensures
            old(self).step(LirOp::DynJump { index, destinations: destinations@, branch: branch@ }, *final(self), no_reply()),
    ;

    /// Call an oracle.
    fn oracle(&mut self, name: &str, arg_tys: &[LirType], args: &[Self::Value], ret_tys: &[LirType]) -> (r: Vec<Self::Value>)
        requires
            old(self).accepts(LirOp::Oracle { name: name@, arg_tys: arg_tys@, args: args@, ret_tys: ret_tys@ }),
        ensures
            old(self).step(LirOp::Oracle { name: name@, arg_tys: arg_tys@, args: args@, ret_tys: ret_tys@ }, *final(self), some_values(r@)),
    ;

    /// Call an action if a guard holds.
    fn action(&mut self, name: &str, guard: Self::Value, arg_tys: &[LirType], args: &[Self::Value], fallbacks: &[Self::Value], ret_tys: &[LirType]) -> (r: Vec<Self::Value>)
        requires
            old(self).accepts(LirOp::Action {
                name: name@,
                guard,
                arg_tys: arg_tys@,
                args: args@,
                fallbacks: fallbacks@,
                ret_tys: ret_tys@,
            }),
        ensures
            old(self).step(LirOp::Action {
                name: name@,
                guard,
                arg_tys: arg_tys@,
                args: args@,
                fallbacks: fallbacks@,
                ret_tys: ret_tys@,
            }, *final(self), some_values(r@)),
    ;

    /// A random value.
    fn rng(&mut self, ty: LirType) -> (r: Self::Value)
        requires
            old(self).accepts(LirOp::Rng { ty }),
        ensures
            old(self).step(LirOp::Rng { ty }, *final(self), one_value(r)),
    ;

    /// Room on the stack.
    fn alloca(&mut self, elem_ty: LirType, count: usize) -> (r: Self::Value)
        requires
            old(self).accepts(LirOp::Alloca { elem_ty, count }),
        ensures
            old(self).step(LirOp::Alloca { elem_ty, count }, *final(self), one_value(r)),
    ;

    /// Load.
    fn ptr_load(&mut self, ptr: Self::Value, ty: LirType) -> (r: Self::Value)
        requires
            old(self).accepts(LirOp::PtrLoad { ptr, ty }),
        ensures
            old(self).step(LirOp::PtrLoad { ptr, ty }, *final(self), one_value(r)),
    ;

    /// Store.
    fn ptr_store(&mut self, ptr: Self::Value, val: Self::Value)
        requires
            old(self).accepts(LirOp::PtrStore { ptr, val }),
        ensures
            old(self).step(LirOp::PtrStore { ptr, val }, *final(self), no_reply()),
    ;

    /// Move a pointer.
    fn ptr_offset(&mut self, ptr: Self::Value, idx: Self::Value) -> (r: Self::Value)
        requires
            old(self).accepts(LirOp::PtrOffset { ptr, idx }),
        ensures
            old(self).step(LirOp::PtrOffset { ptr, idx }, *final(self), one_value(r)),
    ;

    /// Load an element.
    fn ptr_index_load(&mut self, ptr: Self::Value, idx: Self::Value, pointee_ty: &LirType) -> (r: Vec<Self::Value>)
        requires
            old(self).accepts(LirOp::PtrIndexLoad { ptr, idx, pointee_ty: *pointee_ty }),
        ensures
            old(self).step(LirOp::PtrIndexLoad { ptr, idx, pointee_ty: *pointee_ty }, *final(self), some_values(r@)),
    ;

    /// Store an element.
    fn ptr_index_store(&mut self, ptr: Self::Value, idx: Self::Value, vals: &[Self::Value], pointee_ty: &LirType)
        requires
            old(self).accepts(LirOp::PtrIndexStore { ptr, idx, vals: vals@, pointee_ty: *pointee_ty }),
        ensures
            old(self).step(LirOp::PtrIndexStore { ptr, idx, vals: vals@, pointee_ty: *pointee_ty }, *final(self), no_reply()),
    ;

    /// The type of a value.
    fn value_scalar_type(&self, val: &Self::Value) -> (r: LirType)
        requires
            self.type_of(*val) is Some,
        ensures
            self.type_of(*val) == Some(r),
    ;
}

} // verus!
