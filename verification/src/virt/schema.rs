//! The slots of a handler: which values a row of the bytecode table supplies,
//! where they are stored, and what they are for a given block.

use vstd::prelude::*;

use crate::common::{type_views, Constant, IrType, IrTypeView, StorageId};
use crate::ir::{
    BranchView, IRBlock, IRBlockTargetId, IRBlockView, IRBranchTarget, IRTypeId, Stmt, StmtView,
};
use crate::virt::canon::{
    canon_branch, canon_stmts, ir_key, lifted_consts, zero_constant, IrHandlerKey,
};
use crate::virt::ctx::{key_views, DedupTable};
use crate::virt::regs::{
    arms, assign_registers, branch_views, dyn_params, register_index, registers, resolve_var_type,
    return_shape, terminator_arms, RegAlloc, RegRef,
};

verus! {

/// The constant of a number.
pub open spec fn constant_of(x: u32) -> Constant {
    Constant { hi: 0, lo: x as u128 }
}

/// The constant of a number.
pub fn const_u32(x: u32) -> (r: Constant)
    ensures
        r == constant_of(x),
{
    Constant { hi: 0, lo: x as u128 }
}

/// The constant of a bit.
pub open spec fn constant_of_bit(b: bool) -> Constant {
    Constant {
        hi: 0,
        lo: if b {
            1
        } else {
            0
        },
    }
}

/// The constant of a bit.
pub fn const_bit(b: bool) -> (r: Constant)
    ensures
        r == constant_of_bit(b),
{
    Constant {
        hi: 0,
        lo: if b {
            1
        } else {
            0
        },
    }
}

// ---------------------------------------------------------------------------
// Slots
// ---------------------------------------------------------------------------

/// What a slot holds.
#[derive(Clone, Copy, PartialEq, Eq, Debug, Structural)]
pub enum SlotKind {
    /// A lifted constant.
    ConstValue,
    /// The register that a parameter is read from.
    ParamSrcReg,
    /// The register that an argument is written to.
    ArgDstReg,
    /// The row that a branch continues at.
    TargetPc,
    /// Whether a branch returns.
    DoneFlag,
}

/// A slot and the type of its value.
#[derive(Clone, Copy, PartialEq, Eq, Debug, Structural)]
pub struct HandlerSlot {
    pub kind: SlotKind,
    pub ty: IRTypeId,
}

/// The slot of the constant of a statement, if it has one.
pub open spec fn const_slot(s: StmtView) -> Seq<HandlerSlot> {
    match s {
        StmtView::Const(_, ty) => seq![HandlerSlot { kind: SlotKind::ConstValue, ty }],
        StmtView::Poly { ty, .. } => seq![HandlerSlot { kind: SlotKind::ConstValue, ty }],
        _ => Seq::empty(),
    }
}

/// The slots of the constants of a list of statements.
pub open spec fn stmt_slots(s: Seq<StmtView>) -> Seq<HandlerSlot>
    decreases s.len(),
{
    if s.len() == 0 {
        Seq::empty()
    } else {
        stmt_slots(s.drop_last()) + const_slot(s.last())
    }
}

/// The slots of the parameters of a block.
pub open spec fn param_slots(n: nat, addr_ty: IRTypeId) -> Seq<HandlerSlot> {
    Seq::new(n, |i: int| HandlerSlot { kind: SlotKind::ParamSrcReg, ty: addr_ty })
}

/// The slots of a branch: where it continues, whether it returns, and where
/// its arguments go.
pub open spec fn arm_slots(n_args: nat, addr_ty: IRTypeId, bit_ty: IRTypeId) -> Seq<HandlerSlot> {
    seq![
        HandlerSlot { kind: SlotKind::TargetPc, ty: addr_ty },
        HandlerSlot { kind: SlotKind::DoneFlag, ty: bit_ty },
    ] + Seq::new(n_args, |i: int| HandlerSlot { kind: SlotKind::ArgDstReg, ty: addr_ty })
}

/// The slots of a list of branches.
pub open spec fn arms_slots(
    s: Seq<BranchView>,
    addr_ty: IRTypeId,
    bit_ty: IRTypeId,
) -> Seq<HandlerSlot>
    decreases s.len(),
{
    if s.len() == 0 {
        Seq::empty()
    } else {
        arms_slots(s.drop_last(), addr_ty, bit_ty) + arm_slots(s.last().args.len(), addr_ty, bit_ty)
    }
}

/// The slots of a handler: those of its parameters, of its constants and of its
/// branches.
pub open spec fn handler_slots(
    key: IRBlockView,
    addr_ty: IRTypeId,
    bit_ty: IRTypeId,
) -> Seq<HandlerSlot> {
    param_slots(key.params.len(), addr_ty) + stmt_slots(key.stmts) + arms_slots(
        arms(key.terminator),
        addr_ty,
        bit_ty,
    )
}

/// The slot of the constant of statement `i`, if it has one.
pub open spec fn const_slot_index(key: IRBlockView, i: int) -> Option<nat> {
    if key.stmts[i] is Const || key.stmts[i] is Poly {
        Some(key.params.len() + stmt_slots(key.stmts.take(i)).len())
    } else {
        None
    }
}

/// The number of slots of the branches of a list.
pub open spec fn arms_width(s: Seq<BranchView>) -> nat
    decreases s.len(),
{
    if s.len() == 0 {
        0
    } else {
        arms_width(s.drop_last()) + 2 + s.last().args.len()
    }
}

/// The first slot of branch `a`.
pub open spec fn arm_start(key: IRBlockView, a: int) -> nat {
    key.params.len() + stmt_slots(key.stmts).len() + arms_width(arms(key.terminator).take(a))
}

/// The number of slots of the branches of a list is that of the list of their
/// slots.
pub proof fn lemma_arms_width(s: Seq<BranchView>, addr_ty: IRTypeId, bit_ty: IRTypeId)
    ensures
        arms_slots(s, addr_ty, bit_ty).len() == arms_width(s),
    decreases s.len(),
{
    if s.len() > 0 {
        lemma_arms_width(s.drop_last(), addr_ty, bit_ty);
    }
}

/// More branches have more slots.
pub proof fn lemma_arms_width_take(s: Seq<BranchView>, i: int, j: int)
    requires
        0 <= i <= j <= s.len(),
    ensures
        arms_width(s.take(i)) <= arms_width(s.take(j)),
        arms_width(s.take(j)) <= arms_width(s),
    decreases s.len() - i,
{
    if i < j {
        lemma_arms_width_take(s, i + 1, j);
        assert(s.take(i + 1).drop_last() =~= s.take(i));
    } else if j < s.len() {
        lemma_arms_width_take(s, i + 1, j + 1);
        assert(s.take(i + 1).drop_last() =~= s.take(i));
    } else {
        assert(s.take(j) =~= s);
    }
}

/// More statements have more slots.
pub proof fn lemma_stmt_slots_take(s: Seq<StmtView>, i: int)
    requires
        0 <= i <= s.len(),
    ensures
        stmt_slots(s.take(i)).len() <= stmt_slots(s).len(),
        i < s.len() ==> stmt_slots(s.take(i)).len() + const_slot(s[i]).len() <= stmt_slots(s).len(),
    decreases s.len() - i,
{
    if i < s.len() {
        lemma_stmt_slots_take(s, i + 1);
        assert(s.take(i + 1).drop_last() =~= s.take(i));
        assert(s.take(i + 1).last() == s[i]);
    } else {
        assert(s.take(i) =~= s);
    }
}

/// The slots of a branch.
#[derive(Debug)]
pub struct ArmSchema {
    pub next_pc_slot: usize,
    pub done_slot: usize,
    pub arg_dst_slots: Vec<usize>,
}

impl ArmSchema {
    /// Whether these are the slots of a branch with `n_args` arguments that
    /// start at `start`.
    pub open spec fn starts_at(&self, start: nat, n_args: nat) -> bool {
        &&& self.next_pc_slot == start
        &&& self.done_slot == start + 1
        &&& self.arg_dst_slots@.len() == n_args
        &&& forall|i: int|
            0 <= i < n_args ==> #[trigger] self.arg_dst_slots@[i] == start + 2 + i
    }
}

/// The slots of a handler, and which slot is for what.
#[derive(Debug)]
pub struct HandlerSchema {
    pub slots: Vec<HandlerSlot>,
    pub param_src_slot: Vec<usize>,
    pub const_value_slot: Vec<Option<usize>>,
    pub arms: Vec<ArmSchema>,
}

impl HandlerSchema {
    /// Whether this describes the slots of the handler with the given key.
    pub open spec fn describes(
        &self,
        key: IRBlockView,
        addr_ty: IRTypeId,
        bit_ty: IRTypeId,
    ) -> bool {
        &&& self.slots@ == handler_slots(key, addr_ty, bit_ty)
        &&& self.param_src_slot@.len() == key.params.len()
        &&& forall|i: int|
            0 <= i < key.params.len() ==> #[trigger] self.param_src_slot@[i] == i
        &&& self.const_value_slot@.len() == key.stmts.len()
        &&& forall|i: int|
            0 <= i < key.stmts.len() ==> match #[trigger] self.const_value_slot@[i] {
                Some(k) => const_slot_index(key, i) == Some(k as nat),
                None => const_slot_index(key, i) is None,
            }
        &&& self.arms@.len() == arms(key.terminator).len()
        &&& forall|a: int|
            0 <= a < self.arms@.len() ==> (#[trigger] self.arms@[a]).starts_at(
                arm_start(key, a),
                arms(key.terminator)[a].args.len(),
            )
    }

    /// Plan the slots of a handler.
    pub fn build(key: &IrHandlerKey, addr_ty: IRTypeId, bit_ty: IRTypeId) -> (r: Self)
        requires
            handler_slots(key@, addr_ty, bit_ty).len() <= u32::MAX,
        ensures
            r.describes(key@, addr_ty, bit_ty),
    {
        let ghost k = key@;
        let mut slots: Vec<HandlerSlot> = Vec::new();
        let mut param_src_slot: Vec<usize> = Vec::new();
        let mut i: usize = 0;
        while i < key.params.len()
            invariant
                i <= key.params.len(),
                slots@ == param_slots(i as nat, addr_ty),
                param_src_slot@.len() == i,
                forall|j: int| 0 <= j < i ==> #[trigger] param_src_slot@[j] == j,
            decreases key.params.len() - i,
        {
            param_src_slot.push(push_slot(&mut slots, SlotKind::ParamSrcReg, addr_ty));
            assert(slots@ =~= param_slots((i + 1) as nat, addr_ty));
            i += 1;
        }
        let ghost ps = slots@;
        let mut const_value_slot: Vec<Option<usize>> = Vec::new();
        i = 0;
        assert(slots@ =~= ps + stmt_slots(k.stmts.take(0)));
        while i < key.stmts.len()
            invariant
                i <= key.stmts.len(),
                k == key@,
                ps.len() == k.params.len(),
                slots@ == ps + stmt_slots(k.stmts.take(i as int)),
                const_value_slot@.len() == i,
                forall|j: int|
                    0 <= j < i ==> match #[trigger] const_value_slot@[j] {
                        Some(x) => const_slot_index(k, j) == Some(x as nat),
                        None => const_slot_index(k, j) is None,
                    },
            decreases key.stmts.len() - i,
        {
            proof {
                assert(k.stmts[i as int] == key.stmts@[i as int]@);
                assert(k.stmts.take(i + 1).drop_last() =~= k.stmts.take(i as int));
                assert(k.stmts.take(i + 1).last() == k.stmts[i as int]);
            }
            let ghost before = slots@;
            match &key.stmts[i] {
                Stmt::Const(_, ty) => {
                    let idx: usize = push_slot(&mut slots, SlotKind::ConstValue, *ty);
                    const_value_slot.push(Some(idx));
                },
                Stmt::Poly { ty, .. } => {
                    let idx: usize = push_slot(&mut slots, SlotKind::ConstValue, *ty);
                    const_value_slot.push(Some(idx));
                },
                _ => {
                    const_value_slot.push(None);
                },
            }
            assert(slots@ =~= ps + stmt_slots(k.stmts.take(i + 1)));
            i += 1;
        }
        assert(k.stmts.take(i as int) =~= k.stmts);
        let ghost cs = slots@;
        let list = terminator_arms(&key.terminator);
        let ghost av = arms(k.terminator);
        let mut arm_list: Vec<ArmSchema> = Vec::new();
        let mut a: usize = 0;
        assert(slots@ =~= cs + arms_slots(av.take(0), addr_ty, bit_ty));
        while a < list.len()
            invariant
                a <= list.len(),
                branch_views(list@) == av,
                av == arms(k.terminator),
                cs.len() == k.params.len() + stmt_slots(k.stmts).len(),
                slots@ == cs + arms_slots(av.take(a as int), addr_ty, bit_ty),
                arm_list@.len() == a,
                forall|j: int|
                    0 <= j < a ==> (#[trigger] arm_list@[j]).starts_at(
                        arm_start(k, j),
                        av[j].args.len(),
                    ),
            decreases list.len() - a,
        {
            proof {
                assert(list@[a as int]@ == av[a as int]);
                assert(av.take(a + 1).drop_last() =~= av.take(a as int));
                assert(av.take(a + 1).last() == av[a as int]);
                lemma_arms_width(av.take(a as int), addr_ty, bit_ty);
            }
            let ghost before = slots@;
            let n_args: usize = list[a].args.len();
            let next_pc_slot: usize = push_slot(&mut slots, SlotKind::TargetPc, addr_ty);
            let done_slot: usize = push_slot(&mut slots, SlotKind::DoneFlag, bit_ty);
            let mut arg_dst_slots: Vec<usize> = Vec::new();
            let mut x: usize = 0;
            assert(slots@ =~= before + arm_slots(0, addr_ty, bit_ty));
            while x < n_args
                invariant
                    x <= n_args,
                    slots@ == before + arm_slots(x as nat, addr_ty, bit_ty),
                    arg_dst_slots@.len() == x,
                    forall|j: int|
                        0 <= j < x ==> #[trigger] arg_dst_slots@[j] == before.len() + 2 + j,
                decreases n_args - x,
            {
                arg_dst_slots.push(push_slot(&mut slots, SlotKind::ArgDstReg, addr_ty));
                assert(slots@ =~= before + arm_slots((x + 1) as nat, addr_ty, bit_ty));
                x += 1;
            }
            arm_list.push(ArmSchema { next_pc_slot, done_slot, arg_dst_slots });
            assert(slots@ =~= cs + arms_slots(av.take(a + 1), addr_ty, bit_ty));
            a += 1;
        }
        assert(av.take(a as int) =~= av);
        HandlerSchema { slots, param_src_slot, const_value_slot, arms: arm_list }
    }
}

/// Append a slot.
fn push_slot(slots: &mut Vec<HandlerSlot>, kind: SlotKind, ty: IRTypeId) -> (idx: usize)
    ensures
        final(slots)@ == old(slots)@.push(HandlerSlot { kind, ty }),
        idx == old(slots)@.len(),
{
    let idx: usize = slots.len();
    slots.push(HandlerSlot { kind, ty });
    idx
}

// ---------------------------------------------------------------------------
// Storages of slots
// ---------------------------------------------------------------------------

/// The number of slots of the handlers of a list.
pub open spec fn slots_width(keys: Seq<IRBlockView>, addr_ty: IRTypeId, bit_ty: IRTypeId) -> nat
    decreases keys.len(),
{
    if keys.len() == 0 {
        0
    } else {
        slots_width(keys.drop_last(), addr_ty, bit_ty) + handler_slots(
            keys.last(),
            addr_ty,
            bit_ty,
        ).len()
    }
}

/// The storages of the slots of handler `h`. The slots of all handlers follow
/// one another, behind the storage `base` of handler indices.
pub open spec fn slot_storages(
    keys: Seq<IRBlockView>,
    addr_ty: IRTypeId,
    bit_ty: IRTypeId,
    base: StorageId,
    h: int,
) -> Seq<StorageId> {
    Seq::new(
        handler_slots(keys[h], addr_ty, bit_ty).len(),
        |s: int| StorageId((base.0 + 1 + slots_width(keys.take(h), addr_ty, bit_ty) + s) as u32),
    )
}

/// The first storage behind the slots of all handlers.
pub open spec fn storage_behind(
    keys: Seq<IRBlockView>,
    addr_ty: IRTypeId,
    bit_ty: IRTypeId,
    base: StorageId,
) -> int {
    base.0 + 1 + slots_width(keys, addr_ty, bit_ty)
}

/// More handlers have more slots.
pub proof fn lemma_slots_width_take(
    keys: Seq<IRBlockView>,
    addr_ty: IRTypeId,
    bit_ty: IRTypeId,
    i: int,
    j: int,
)
    requires
        0 <= i <= j <= keys.len(),
    ensures
        slots_width(keys.take(i), addr_ty, bit_ty) <= slots_width(keys.take(j), addr_ty, bit_ty),
        slots_width(keys.take(j), addr_ty, bit_ty) <= slots_width(keys, addr_ty, bit_ty),
        i < j ==> slots_width(keys.take(i), addr_ty, bit_ty) + handler_slots(
            keys[i],
            addr_ty,
            bit_ty,
        ).len() <= slots_width(keys.take(j), addr_ty, bit_ty),
    decreases keys.len() - i,
{
    if i < j {
        lemma_slots_width_take(keys, addr_ty, bit_ty, i + 1, j);
        assert(keys.take(i + 1).drop_last() =~= keys.take(i));
        assert(keys.take(i + 1).last() == keys[i]);
    } else if j < keys.len() {
        lemma_slots_width_take(keys, addr_ty, bit_ty, i + 1, j + 1);
        assert(keys.take(i + 1).drop_last() =~= keys.take(i));
    } else {
        assert(keys.take(j) =~= keys);
    }
}

/// No two slots share a storage, and none has that of handler indices or one
/// behind the table.
pub proof fn law_slot_storages_distinct(
    keys: Seq<IRBlockView>,
    addr_ty: IRTypeId,
    bit_ty: IRTypeId,
    base: StorageId,
    h1: int,
    s1: int,
    h2: int,
    s2: int,
)
    requires
        storage_behind(keys, addr_ty, bit_ty, base) <= u32::MAX,
        0 <= h1 < keys.len(),
        0 <= s1 < handler_slots(keys[h1], addr_ty, bit_ty).len(),
        0 <= h2 < keys.len(),
        0 <= s2 < handler_slots(keys[h2], addr_ty, bit_ty).len(),
    ensures
        base.0 < slot_storages(keys, addr_ty, bit_ty, base, h1)[s1].0 < storage_behind(
            keys,
            addr_ty,
            bit_ty,
            base,
        ),
        (h1, s1) != (h2, s2) ==> slot_storages(keys, addr_ty, bit_ty, base, h1)[s1]
            != slot_storages(keys, addr_ty, bit_ty, base, h2)[s2],
{
    lemma_slots_width_take(keys, addr_ty, bit_ty, h1, keys.len() as int);
    lemma_slots_width_take(keys, addr_ty, bit_ty, h2, keys.len() as int);
    assert(keys.take(keys.len() as int) =~= keys);
    if h1 < h2 {
        lemma_slots_width_take(keys, addr_ty, bit_ty, h1, h2);
    } else if h2 < h1 {
        lemma_slots_width_take(keys, addr_ty, bit_ty, h2, h1);
    }
}

/// The slots of every handler and their storages.
#[derive(Debug)]
pub struct GlobalLayout {
    pub per_handler_slot: Vec<Vec<StorageId>>,
    pub schemas: Vec<HandlerSchema>,
}

impl GlobalLayout {
    /// Whether this is the layout for the handlers with the given keys.
    pub open spec fn lays_out(
        &self,
        keys: Seq<IRBlockView>,
        addr_ty: IRTypeId,
        bit_ty: IRTypeId,
        base: StorageId,
    ) -> bool {
        &&& self.schemas@.len() == keys.len()
        &&& self.per_handler_slot@.len() == keys.len()
        &&& forall|h: int|
            0 <= h < keys.len() ==> (#[trigger] self.schemas@[h]).describes(
                keys[h],
                addr_ty,
                bit_ty,
            )
        &&& forall|h: int|
            0 <= h < keys.len() ==> (#[trigger] self.per_handler_slot@[h])@ == slot_storages(
                keys,
                addr_ty,
                bit_ty,
                base,
                h,
            )
    }

    /// Lay out the slots of the handlers with the given keys.
    pub fn from_keys(
        handler_keys: &Vec<IrHandlerKey>,
        addr_ty: IRTypeId,
        bit_ty: IRTypeId,
        base: StorageId,
    ) -> (r: Self)
        requires
            storage_behind(key_views(handler_keys@), addr_ty, bit_ty, base) <= u32::MAX,
        ensures
            r.lays_out(key_views(handler_keys@), addr_ty, bit_ty, base),
    {
        let ghost keys = key_views(handler_keys@);
        let mut schemas: Vec<HandlerSchema> = Vec::new();
        let mut per_handler_slot: Vec<Vec<StorageId>> = Vec::new();
        assert(slots_width(keys.take(0), addr_ty, bit_ty) == 0);
        proof {
            lemma_slots_width_take(keys, addr_ty, bit_ty, 0, 0);
        }
        let mut next: u32 = base.0 + 1;
        let mut h: usize = 0;
        while h < handler_keys.len()
            invariant
                h <= handler_keys.len(),
                keys == key_views(handler_keys@),
                storage_behind(keys, addr_ty, bit_ty, base) <= u32::MAX,
                next == base.0 + 1 + slots_width(keys.take(h as int), addr_ty, bit_ty),
                schemas@.len() == h,
                per_handler_slot@.len() == h,
                forall|j: int|
                    0 <= j < h ==> (#[trigger] schemas@[j]).describes(keys[j], addr_ty, bit_ty),
                forall|j: int|
                    0 <= j < h ==> (#[trigger] per_handler_slot@[j])@ == slot_storages(
                        keys,
                        addr_ty,
                        bit_ty,
                        base,
                        j,
                    ),
            decreases handler_keys.len() - h,
        {
            let ghost start = next;
            proof {
                assert(keys[h as int] == handler_keys@[h as int]@);
                lemma_slots_width_take(keys, addr_ty, bit_ty, h as int, h + 1);
                assert(keys.take(h + 1).drop_last() =~= keys.take(h as int));
                assert(keys.take(h + 1).last() == keys[h as int]);
            }
            let schema = HandlerSchema::build(&handler_keys[h], addr_ty, bit_ty);
            let mut ids: Vec<StorageId> = Vec::new();
            let mut s: usize = 0;
            let n: usize = schema.slots.len();
            while s < n
                invariant
                    s <= n,
                    start + n <= u32::MAX,
                    next == start + s,
                    ids@.len() == s,
                    forall|j: int| 0 <= j < s ==> (#[trigger] ids@[j]).0 == start + j,
                decreases n - s,
            {
                ids.push(StorageId(next));
                next += 1;
                s += 1;
            }
            assert(ids@ =~= slot_storages(keys, addr_ty, bit_ty, base, h as int));
            schemas.push(schema);
            per_handler_slot.push(ids);
            h += 1;
        }
        GlobalLayout { per_handler_slot, schemas }
    }

    /// Lay out the slots of the handlers of a table.
    pub fn from_dedup(
        dedup: &DedupTable<IrHandlerKey>,
        addr_ty: IRTypeId,
        bit_ty: IRTypeId,
        base: StorageId,
    ) -> (r: Self)
        requires
            storage_behind(key_views(dedup.handler_keys@), addr_ty, bit_ty, base) <= u32::MAX,
        ensures
            r.lays_out(key_views(dedup.handler_keys@), addr_ty, bit_ty, base),
    {
        GlobalLayout::from_keys(&dedup.handler_keys, addr_ty, bit_ty, base)
    }

    /// The first storage behind the slots of all handlers.
    pub fn next_free_storage_after_bytecode(
        &self,
        base: StorageId,
        keys: Ghost<Seq<IRBlockView>>,
        addr_ty: IRTypeId,
        bit_ty: IRTypeId,
    ) -> (r: u32)
        requires
            self.lays_out(keys@, addr_ty, bit_ty, base),
            storage_behind(keys@, addr_ty, bit_ty, base) <= u32::MAX,
        ensures
            r == storage_behind(keys@, addr_ty, bit_ty, base),
    {
        let mut total: u32 = 0;
        let mut h: usize = 0;
        let ghost ks = keys@;
        proof {
            lemma_slots_width_take(ks, addr_ty, bit_ty, 0, 0);
            assert(slots_width(ks.take(0), addr_ty, bit_ty) == 0);
        }
        while h < self.per_handler_slot.len()
            invariant
                h <= self.per_handler_slot.len(),
                ks == keys@,
                self.lays_out(ks, addr_ty, bit_ty, base),
                storage_behind(ks, addr_ty, bit_ty, base) <= u32::MAX,
                total == slots_width(ks.take(h as int), addr_ty, bit_ty),
            decreases self.per_handler_slot.len() - h,
        {
            proof {
                lemma_slots_width_take(ks, addr_ty, bit_ty, h as int, h + 1);
                assert(ks.take(h + 1).drop_last() =~= ks.take(h as int));
                assert(ks.take(h + 1).last() == ks[h as int]);
                assert(self.per_handler_slot@[h as int]@ == slot_storages(
                    ks,
                    addr_ty,
                    bit_ty,
                    base,
                    h as int,
                ));
            }
            total += self.per_handler_slot[h].len() as u32;
            h += 1;
        }
        assert(ks.take(h as int) =~= ks);
        base.0 + 1 + total
    }
}

// ---------------------------------------------------------------------------
// Slot values
// ---------------------------------------------------------------------------

/// The registers that the arguments of a branch are written to: those of the
/// parameters of the block that it names, those of what the module returns, or
/// those that the type of a dynamic destination says.
pub open spec fn arm_registers(
    b: IRBlockView,
    arm: BranchView,
    blocks: Seq<IRBlockView>,
    types: Seq<IrTypeView>,
) -> Seq<RegRef> {
    match arm.dest {
        IRBlockTargetId::Block(t) => registers(blocks[t.0 as int].params),
        IRBlockTargetId::Return => registers(return_shape(blocks)),
        IRBlockTargetId::Dyn(v) => registers(dyn_params(b, v, types)->0),
    }
}

/// What the slots of a branch hold.
pub open spec fn arm_values(
    b: IRBlockView,
    arm: BranchView,
    blocks: Seq<IRBlockView>,
    types: Seq<IrTypeView>,
) -> Seq<Constant> {
    let pc = match arm.dest {
        IRBlockTargetId::Block(t) => t.0,
        _ => 0,
    };
    seq![constant_of(pc), constant_of_bit(arm.dest is Return)] + Seq::new(
        arm.args.len(),
        |i: int| constant_of(arm_registers(b, arm, blocks, types)[i].idx),
    )
}

/// What the slots of a list of branches hold.
pub open spec fn arms_values(
    b: IRBlockView,
    s: Seq<BranchView>,
    blocks: Seq<IRBlockView>,
    types: Seq<IrTypeView>,
) -> Seq<Constant>
    decreases s.len(),
{
    if s.len() == 0 {
        Seq::empty()
    } else {
        arms_values(b, s.drop_last(), blocks, types) + arm_values(b, s.last(), blocks, types)
    }
}

/// What the slots of a block hold: the registers of its parameters, its
/// constants, and the values of its branches.
pub open spec fn slot_values(
    b: IRBlockView,
    blocks: Seq<IRBlockView>,
    types: Seq<IrTypeView>,
) -> Seq<Constant> {
    Seq::new(b.params.len(), |i: int| constant_of(register_index(b.params, i))) + lifted_consts(
        b.stmts,
    ) + arms_values(b, arms(b.terminator), blocks, types)
}

/// Whether a branch fits its destination: it names a block of the module, or
/// the type of a dynamic destination is that of a block, and there are at most
/// as many arguments as parameters.
pub open spec fn arm_fits(
    b: IRBlockView,
    arm: BranchView,
    blocks: Seq<IRBlockView>,
    types: Seq<IrTypeView>,
) -> bool {
    match arm.dest {
        IRBlockTargetId::Block(t) => t.0 < blocks.len() && arm.args.len()
            <= blocks[t.0 as int].params.len(),
        IRBlockTargetId::Return => arm.args.len() <= return_shape(blocks).len(),
        IRBlockTargetId::Dyn(v) => dyn_params(b, v, types) matches Some(params) && arm.args.len()
            <= params.len() && params.len() <= u32::MAX,
    }
}

/// Whether every branch of a block fits its destination.
pub open spec fn arms_fit(
    b: IRBlockView,
    blocks: Seq<IRBlockView>,
    types: Seq<IrTypeView>,
) -> bool {
    forall|a: int|
        0 <= a < arms(b.terminator).len() ==> arm_fits(
            b,
            #[trigger] arms(b.terminator)[a],
            blocks,
            types,
        )
}

/// The slots of a block and of its key are alike.
pub proof fn lemma_key_slots(b: IRBlockView, addr_ty: IRTypeId, bit_ty: IRTypeId)
    ensures
        handler_slots(ir_key(b), addr_ty, bit_ty) == handler_slots(b, addr_ty, bit_ty),
        stmt_slots(ir_key(b).stmts) == stmt_slots(b.stmts),
        arms(ir_key(b).terminator).len() == arms(b.terminator).len(),
        forall|a: int|
            0 <= a < arms(b.terminator).len() ==> #[trigger] arms(ir_key(b).terminator)[a]
                == canon_branch(arms(b.terminator)[a]),
        forall|a: int|
            0 <= a <= arms(b.terminator).len() ==> #[trigger] arm_start(ir_key(b), a) == arm_start(
                b,
                a,
            ),
        forall|i: int|
            0 <= i < b.stmts.len() ==> #[trigger] const_slot_index(ir_key(b), i)
                == const_slot_index(b, i),
{
    let k = ir_key(b);
    lemma_canon_slots(b.stmts);
    let ka = arms(k.terminator);
    let ba = arms(b.terminator);
    assert(ka.len() == ba.len());
    assert forall|a: int| 0 <= a < ba.len() implies #[trigger] ka[a] == canon_branch(ba[a]) by {}
    lemma_canon_arms(ka, ba, addr_ty, bit_ty);
    assert forall|a: int| 0 <= a <= ba.len() implies #[trigger] arm_start(k, a) == arm_start(
        b,
        a,
    ) by {
        assert forall|x: int| 0 <= x < a implies #[trigger] ka.take(a)[x] == canon_branch(
            ba.take(a)[x],
        ) by {
            assert(ka[x] == canon_branch(ba[x]));
        }
        lemma_canon_arms(ka.take(a), ba.take(a), addr_ty, bit_ty);
    }
    assert forall|i: int| 0 <= i < b.stmts.len() implies #[trigger] const_slot_index(k, i)
        == const_slot_index(b, i) by {
        assert(k.stmts.take(i) =~= canon_stmts(b.stmts.take(i)));
        lemma_canon_slots(b.stmts.take(i));
    }
}

/// Replacing constants keeps the slots.
proof fn lemma_canon_slots(s: Seq<StmtView>)
    ensures
        stmt_slots(canon_stmts(s)) == stmt_slots(s),
    decreases s.len(),
{
    if s.len() > 0 {
        lemma_canon_slots(s.drop_last());
        assert(canon_stmts(s).drop_last() =~= canon_stmts(s.drop_last()));
    }
}

/// Replacing destinations keeps the slots.
proof fn lemma_canon_arms(
    k: Seq<BranchView>,
    b: Seq<BranchView>,
    addr_ty: IRTypeId,
    bit_ty: IRTypeId,
)
    requires
        k.len() == b.len(),
        forall|a: int| 0 <= a < b.len() ==> #[trigger] k[a] == canon_branch(b[a]),
    ensures
        arms_slots(k, addr_ty, bit_ty) == arms_slots(b, addr_ty, bit_ty),
        arms_width(k) == arms_width(b),
    decreases b.len(),
{
    if b.len() > 0 {
        assert(k[b.len() - 1] == canon_branch(b[b.len() - 1]));
        lemma_canon_arms(k.drop_last(), b.drop_last(), addr_ty, bit_ty);
    }
}

/// There is one value for each slot.
pub proof fn lemma_slot_values_len(
    b: IRBlockView,
    blocks: Seq<IRBlockView>,
    types: Seq<IrTypeView>,
    addr_ty: IRTypeId,
    bit_ty: IRTypeId,
)
    ensures
        slot_values(b, blocks, types).len() == handler_slots(b, addr_ty, bit_ty).len(),
{
    lemma_lifted_len(b.stmts);
    lemma_arms_values_len(b, arms(b.terminator), blocks, types);
    lemma_arms_width(arms(b.terminator), addr_ty, bit_ty);
}

/// There is one slot for each lifted constant.
pub proof fn lemma_lifted_len(s: Seq<StmtView>)
    ensures
        lifted_consts(s).len() == stmt_slots(s).len(),
    decreases s.len(),
{
    if s.len() > 0 {
        lemma_lifted_len(s.drop_last());
    }
}

/// There is one value for each slot of a branch.
pub proof fn lemma_arms_values_len(
    b: IRBlockView,
    s: Seq<BranchView>,
    blocks: Seq<IRBlockView>,
    types: Seq<IrTypeView>,
)
    ensures
        arms_values(b, s, blocks, types).len() == arms_width(s),
    decreases s.len(),
{
    if s.len() > 0 {
        lemma_arms_values_len(b, s.drop_last(), blocks, types);
    }
}

/// What the slots of a branch hold.
fn branch_slot_values<P>(
    block: &IRBlock<P>,
    arm: &IRBranchTarget,
    reg_alloc: &RegAlloc,
    ir_types: &Vec<IrType>,
    blocks: Ghost<Seq<IRBlockView>>,
) -> (r: Vec<Constant>)
    requires
        reg_alloc.assigns(blocks@, reg_alloc.base, type_views(ir_types@)),
        arm_fits(block@, arm@, blocks@, type_views(ir_types@)),
    ensures
        r@ == arm_values(block@, arm@, blocks@, type_views(ir_types@)),
{
    let ghost tv = type_views(ir_types@);
    let mut out: Vec<Constant> = Vec::new();
    let ghost regs = arm_registers(block@, arm@, blocks@, tv);
    let mut i: usize = 0;
    match &arm.dest {
        IRBlockTargetId::Block(bid) => {
            out.push(const_u32(bid.0));
            out.push(const_bit(false));
            let dst = &reg_alloc.per_block_params[bid.0 as usize];
            while i < arm.args.len()
                invariant
                    i <= arm.args.len(),
                    arm.args@.len() <= dst@.len(),
                    out@.len() == 2 + i,
                    out@[0] == constant_of(bid.0),
                    out@[1] == constant_of_bit(false),
                    forall|j: int| 0 <= j < i ==> #[trigger] out@[2 + j] == constant_of(dst@[j].idx),
                decreases arm.args.len() - i,
            {
                out.push(const_u32(dst[i].idx));
                i += 1;
            }
        },
        IRBlockTargetId::Return => {
            out.push(const_u32(0));
            out.push(const_bit(true));
            let dst = &reg_alloc.return_regs;
            while i < arm.args.len()
                invariant
                    i <= arm.args.len(),
                    arm.args@.len() <= dst@.len(),
                    out@.len() == 2 + i,
                    out@[0] == constant_of(0),
                    out@[1] == constant_of_bit(true),
                    forall|j: int| 0 <= j < i ==> #[trigger] out@[2 + j] == constant_of(dst@[j].idx),
                decreases arm.args.len() - i,
            {
                out.push(const_u32(dst[i].idx));
                i += 1;
            }
        },
        IRBlockTargetId::Dyn(v) => {
            out.push(const_u32(0));
            out.push(const_bit(false));
            let t: IRTypeId = resolve_var_type(block, *v);
            assert(tv[t.0 as int] == ir_types@[t.0 as int]@);
            let dst = match &ir_types[t.0 as usize] {
                IrType::Block { params } => assign_registers(params),
                _ => Vec::new(),
            };
            while i < arm.args.len()
                invariant
                    i <= arm.args.len(),
                    arm.args@.len() <= dst@.len(),
                    out@.len() == 2 + i,
                    out@[0] == constant_of(0),
                    out@[1] == constant_of_bit(false),
                    forall|j: int| 0 <= j < i ==> #[trigger] out@[2 + j] == constant_of(dst@[j].idx),
                decreases arm.args.len() - i,
            {
                out.push(const_u32(dst[i].idx));
                i += 1;
            }
        },
    }
    proof {
        let want = arm_values(block@, arm@, blocks@, tv);
        assert(out@.len() == want.len());
        assert forall|k: int| 0 <= k < want.len() implies #[trigger] out@[k] == want[k] by {
            if k >= 2 {
                assert(out@[2 + (k - 2)] == constant_of(regs[k - 2].idx));
            }
        }
        assert(out@ =~= want);
    }
    out
}

/// The constant of a statement.
pub open spec fn constant_at(s: StmtView) -> Constant {
    match s {
        StmtView::Const(c, _) => c,
        StmtView::Poly { constant, .. } => constant,
        _ => zero_constant(),
    }
}

/// The constants of the statements of `from` that stand where those of `shape`
/// have one.
pub open spec fn consts_at(shape: Seq<StmtView>, from: Seq<StmtView>) -> Seq<Constant>
    decreases shape.len(),
{
    if shape.len() == 0 {
        Seq::empty()
    } else if shape.last() is Const || shape.last() is Poly {
        consts_at(shape.drop_last(), from).push(constant_at(from[shape.len() - 1]))
    } else {
        consts_at(shape.drop_last(), from)
    }
}

/// Whether a statement of `from` has a constant wherever one of `shape` has.
pub open spec fn consts_match(shape: Seq<StmtView>, from: Seq<StmtView>) -> bool {
    &&& shape.len() <= from.len()
    &&& forall|i: int|
        0 <= i < shape.len() && ((#[trigger] shape[i]) is Const || shape[i] is Poly) ==> from[i] is
            Const || from[i] is Poly
}

/// Where each statement stands for itself, these are the lifted constants.
pub proof fn lemma_consts_at_self(s: Seq<StmtView>, n: int)
    requires
        0 <= n <= s.len(),
    ensures
        consts_at(s.take(n), s) == lifted_consts(s.take(n)),
    decreases n,
{
    if n > 0 {
        lemma_consts_at_self(s, n - 1);
        assert(s.take(n).drop_last() =~= s.take(n - 1));
        assert(s.take(n).last() == s[n - 1]);
        assert(lifted_consts(s.take(n)) =~= consts_at(s.take(n), s));
    }
}

/// There is one constant for each slot.
pub proof fn lemma_consts_at_len(shape: Seq<StmtView>, from: Seq<StmtView>)
    ensures
        consts_at(shape, from).len() == stmt_slots(shape).len(),
    decreases shape.len(),
{
    if shape.len() > 0 {
        lemma_consts_at_len(shape.drop_last(), from);
    }
}

/// What the slots of the handler of `outer` hold for the block `b`, which has
/// its parameters and its terminator.
pub open spec fn shell_values(
    outer: IRBlockView,
    b: IRBlockView,
    blocks: Seq<IRBlockView>,
    types: Seq<IrTypeView>,
) -> Seq<Constant> {
    Seq::new(b.params.len(), |i: int| constant_of(register_index(b.params, i))) + consts_at(
        outer.stmts,
        b.stmts,
    ) + arms_values(b, arms(b.terminator), blocks, types)
}

/// What the slots of the handler of `outer` hold for a block.
pub fn compute_shell_values<P>(
    block: &IRBlock<P>,
    block_id: usize,
    schema: &HandlerSchema,
    reg_alloc: &RegAlloc,
    ir_types: &Vec<IrType>,
    blocks: Ghost<Seq<IRBlockView>>,
    outer: Ghost<IRBlockView>,
    addr_ty: IRTypeId,
    bit_ty: IRTypeId,
) -> (r: Vec<Constant>)
    requires
        block_id < blocks@.len(),
        block@ == blocks@[block_id as int],
        outer@.params == block@.params,
        outer@.terminator == block@.terminator,
        consts_match(outer@.stmts, block@.stmts),
        schema.describes(ir_key(outer@), addr_ty, bit_ty),
        reg_alloc.assigns(blocks@, reg_alloc.base, type_views(ir_types@)),
        arms_fit(block@, blocks@, type_views(ir_types@)),
    ensures
        r@ == shell_values(outer@, block@, blocks@, type_views(ir_types@)),
        r@.len() == schema.slots@.len(),
{
    let ghost b = block@;
    let ghost o = outer@;
    let ghost tv = type_views(ir_types@);
    let mut out: Vec<Constant> = Vec::new();
    proof {
        lemma_key_slots(o, addr_ty, bit_ty);
        lemma_consts_at_len(o.stmts, b.stmts);
        lemma_arms_values_len(b, arms(b.terminator), blocks@, tv);
        lemma_arms_width(arms(b.terminator), addr_ty, bit_ty);
    }
    let my_regs = &reg_alloc.per_block_params[block_id];
    let mut i: usize = 0;
    while i < my_regs.len()
        invariant
            i <= my_regs.len(),
            out@.len() == i,
            my_regs@ == registers(b.params),
            forall|j: int|
                0 <= j < i ==> #[trigger] out@[j] == constant_of(register_index(b.params, j)),
        decreases my_regs.len() - i,
    {
        out.push(const_u32(my_regs[i].idx));
        i += 1;
    }
    let ghost ps = out@;
    i = 0;
    assert(out@ =~= ps + consts_at(o.stmts.take(0), b.stmts));
    while i < schema.const_value_slot.len()
        invariant
            i <= schema.const_value_slot.len(),
            b == block@,
            o == outer@,
            consts_match(o.stmts, b.stmts),
            schema.describes(ir_key(o), addr_ty, bit_ty),
            out@ == ps + consts_at(o.stmts.take(i as int), b.stmts),
        decreases schema.const_value_slot.len() - i,
    {
        proof {
            assert(b.stmts[i as int] == block.stmts@[i as int].kind@);
            assert(o.stmts.take(i + 1).drop_last() =~= o.stmts.take(i as int));
            assert(o.stmts.take(i + 1).last() == o.stmts[i as int]);
            lemma_key_slots(o, addr_ty, bit_ty);
            assert(const_slot_index(ir_key(o), i as int) == const_slot_index(o, i as int));
        }
        if schema.const_value_slot[i].is_some() {
            match &block.stmts[i].kind {
                Stmt::Const(c, _) => {
                    out.push(*c);
                },
                Stmt::Poly { constant, .. } => {
                    out.push(*constant);
                },
                _ => {},
            }
        }
        assert(out@ =~= ps + consts_at(o.stmts.take(i + 1), b.stmts));
        i += 1;
    }
    assert(o.stmts.take(i as int) =~= o.stmts);
    let ghost cs = out@;
    let list = terminator_arms(&block.terminator);
    let ghost av = arms(b.terminator);
    let mut a: usize = 0;
    assert(out@ =~= cs + arms_values(b, av.take(0), blocks@, tv));
    while a < list.len()
        invariant
            a <= list.len(),
            b == block@,
            branch_views(list@) == av,
            av == arms(b.terminator),
            tv == type_views(ir_types@),
            reg_alloc.assigns(blocks@, reg_alloc.base, tv),
            arms_fit(b, blocks@, tv),
            out@ == cs + arms_values(b, av.take(a as int), blocks@, tv),
        decreases list.len() - a,
    {
        proof {
            assert(list@[a as int]@ == av[a as int]);
            assert(av.take(a + 1).drop_last() =~= av.take(a as int));
            assert(av.take(a + 1).last() == av[a as int]);
            assert(arm_fits(b, arms(b.terminator)[a as int], blocks@, tv));
        }
        let mut vals = branch_slot_values(block, list[a], reg_alloc, ir_types, blocks);
        out.append(&mut vals);
        assert(out@ =~= cs + arms_values(b, av.take(a + 1), blocks@, tv));
        a += 1;
    }
    assert(av.take(a as int) =~= av);
    assert(out@ =~= shell_values(o, b, blocks@, tv));
    out
}

/// What the slots of a block hold.
pub fn compute_slot_values<P>(
    block: &IRBlock<P>,
    block_id: usize,
    schema: &HandlerSchema,
    reg_alloc: &RegAlloc,
    ir_types: &Vec<IrType>,
    blocks: Ghost<Seq<IRBlockView>>,
    addr_ty: IRTypeId,
    bit_ty: IRTypeId,
) -> (r: Vec<Constant>)
    requires
        block_id < blocks@.len(),
        block@ == blocks@[block_id as int],
        schema.describes(ir_key(block@), addr_ty, bit_ty),
        reg_alloc.assigns(blocks@, reg_alloc.base, type_views(ir_types@)),
        arms_fit(block@, blocks@, type_views(ir_types@)),
    ensures
        r@ == slot_values(block@, blocks@, type_views(ir_types@)),
        r@.len() == schema.slots@.len(),
{
    proof {
        let s = block@.stmts;
        lemma_consts_at_self(s, s.len() as int);
        assert(s.take(s.len() as int) =~= s);
    }
    compute_shell_values(
        block,
        block_id,
        schema,
        reg_alloc,
        ir_types,
        blocks,
        Ghost(block@),
        addr_ty,
        bit_ty,
    )
}

} // verus!
