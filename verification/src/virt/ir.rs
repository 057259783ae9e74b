//! Virtualisation of typed modules.
//!
//! Each block stays one step of the virtualised module. Values that cross block
//! boundaries pass through a register file in storage: the row of a block says
//! which handler runs, which registers hold its parameters, what its constants
//! are, and for each branch where to continue, whether to return, and which
//! registers take the arguments.

use vstd::prelude::*;

use crate::common::{
    clone_actions, clone_oracles, clone_rngs, interned, interned_index, pre_init_views, type_views,
    Constant, IrType, IrTypeView, Node, PreInitSegment, PreInitView, StorageAccess, StorageEntry,
    StorageId, StorageTable, Type, TypeId, TypeTable,
};
use crate::ir::{
    block_views, clone_pre_init, IRBlock, IRBlockView, IRBlocks, IRBlocksView, IRStmt, IRTypeId,
};
use crate::virt::canon::{
    canonicalize_ir_block, ir_immediates, ir_key, ir_schema, BlockImmediates, HandlerKey,
    ImmediatesView, IrHandlerKey,
};
use crate::virt::bytecode::{BytecodeRowKind, EntryView, VirtBytecode};
use crate::virt::config::{DedupPolicy, DispatchMode, VirtualizeConfig};
use crate::virt::cse::{
    deduplicate_oracle_calls_in_block, merged_block, reads_in_range,
};
use crate::virt::ctx::{canon_keys, distinct, key_views, law_distinct, DedupTable, VirtOutput};
use crate::virt::handler::{all_controlled, scoped, Check, CommitmentCtx};
use crate::virt::hash::{
    bytes_to_constant, constant_bytes, constant_of_bytes, constant_to_le_bytes, le_bytes,
    to_le_bytes, word_views, CommitmentConfig, IrHashAlgorithm,
};
use crate::virt::hash_xor::XorFoldHash32;
use crate::virt::adaptive_emit::{
    adaptive_plan, adaptively_virtualizes, can_be_cut, virtualize_ir_adaptive,
};
use crate::virt::split::{plan_adaptive_split, split_ready, split_view};
use crate::virt::module::{
    emit_output_ir, handlers, handlers_ready, key_params, module_blocks, ModuleEnv, ModuleFrame,
};
use crate::virt::preinit::{
    all_slot_values, build_ir_storage_init, commitment_lane, lane, merge_pre_init, segments_apart,
    storage_lanes, table_covers, table_rows, table_values, CommitmentPreInit,
};
use crate::virt::regs::{dyn_vars_typed, register_types, return_shape, returns_agree, RegAlloc};
use crate::virt::schema::{
    arms_fit, handler_slots, lemma_key_slots, lemma_slot_values_len, slot_values, storage_behind,
    GlobalLayout, HandlerSlot,
};

verus! {

// ---------------------------------------------------------------------------
// Merging and canonical forms
// ---------------------------------------------------------------------------

/// The blocks with repeated oracle calls merged.
pub open spec fn merged_blocks(blocks: Seq<IRBlockView>) -> Seq<IRBlockView> {
    blocks.map_values(|b: IRBlockView| merged_block(b))
}

/// The keys of a list of blocks.
pub open spec fn block_keys(blocks: Seq<IRBlockView>) -> Seq<IRBlockView> {
    blocks.map_values(|b: IRBlockView| ir_key(b))
}

/// The values lifted out of each block of a list.
pub open spec fn block_immediates(blocks: Seq<IRBlockView>) -> Seq<ImmediatesView> {
    blocks.map_values(|b: IRBlockView| ir_immediates(b))
}

/// Merge repeated oracle calls in every block.
fn merge_all<P: Clone>(blocks: &IRBlocks<P>) -> (r: IRBlocks<P>)
    requires
        forall|i: int|
            0 <= i < blocks@.blocks.len() ==> reads_in_range(#[trigger] blocks@.blocks[i]),
    ensures
        r@ == (IRBlocksView { blocks: merged_blocks(blocks@.blocks), ..blocks@ }),
{
    let ghost bv = blocks@.blocks;
    let mut out: Vec<IRBlock<P>> = Vec::new();
    let mut i: usize = 0;
    while i < blocks.blocks.len()
        invariant
            i <= blocks.blocks.len(),
            bv == blocks@.blocks,
            forall|k: int| 0 <= k < bv.len() ==> reads_in_range(#[trigger] bv[k]),
            out@.len() == i,
            forall|k: int| 0 <= k < i ==> (#[trigger] out@[k])@ == merged_block(bv[k]),
        decreases blocks.blocks.len() - i,
    {
        assert(bv[i as int] == blocks.blocks@[i as int]@);
        assert(reads_in_range(bv[i as int]));
        out.push(deduplicate_oracle_calls_in_block(&blocks.blocks[i]));
        i += 1;
    }
    assert(block_views(out@) =~= merged_blocks(bv));
    IRBlocks {
        oracles: clone_oracles(&blocks.oracles),
        actions: clone_actions(&blocks.actions),
        rngs: clone_rngs(&blocks.rngs),
        blocks: out,
        pre_init: clone_pre_init(&blocks.pre_init),
    }
}

/// Group blocks by canonical form.
fn dedup_all<P>(blocks: &IRBlocks<P>) -> (r: DedupTable<IrHandlerKey>)
    requires
        blocks@.blocks.len() <= u32::MAX,
    ensures
        r.groups(block_keys(blocks@.blocks), block_immediates(blocks@.blocks)),
        table_covers(r.per_block@, key_views(r.handler_keys@), blocks@.blocks),
        key_views(r.handler_keys@) == distinct(block_keys(blocks@.blocks)),
{
    let ghost bv = blocks@.blocks;
    let mut canon: Vec<(IrHandlerKey, BlockImmediates)> = Vec::new();
    let mut i: usize = 0;
    while i < blocks.blocks.len()
        invariant
            i <= blocks.blocks.len(),
            bv == blocks@.blocks,
            canon@.len() == i,
            forall|k: int|
                0 <= k < i ==> (#[trigger] canon@[k]).0@ == ir_key(bv[k]) && canon@[k].1@
                    == ir_immediates(bv[k]),
        decreases blocks.blocks.len() - i,
    {
        assert(bv[i as int] == blocks.blocks@[i as int]@);
        canon.push(canonicalize_ir_block(&blocks.blocks[i]));
        i += 1;
    }
    proof {
        assert(canon_keys(canon@) =~= block_keys(bv));
        assert(canon@.map_values(|c: (IrHandlerKey, BlockImmediates)| c.1@)
            =~= block_immediates(bv));
    }
    let r = DedupTable::build(canon);
    proof {
        let keys = key_views(r.handler_keys@);
        assert forall|k: int| 0 <= k < bv.len() implies (#[trigger] r.per_block@[k]).0 < keys.len()
            && keys[r.per_block@[k].0 as int] == ir_key(bv[k]) by {
            assert(block_keys(bv)[k] == ir_key(bv[k]));
        }
    }
    r
}

// ---------------------------------------------------------------------------
// Types
// ---------------------------------------------------------------------------

/// The table after interning a list of types.
pub open spec fn interned_all(types: Seq<IrTypeView>, ts: Seq<IrTypeView>) -> Seq<IrTypeView>
    decreases ts.len(),
{
    if ts.len() == 0 {
        types
    } else {
        interned(interned_all(types, ts.drop_last()), ts.last())
    }
}

/// The indices that interning a list of types yields.
pub open spec fn interned_ids(types: Seq<IrTypeView>, ts: Seq<IrTypeView>) -> Seq<IRTypeId>
    decreases ts.len(),
{
    if ts.len() == 0 {
        Seq::empty()
    } else {
        interned_ids(types, ts.drop_last()).push(
            TypeId(interned_index(interned_all(types, ts.drop_last()), ts.last()) as u32),
        )
    }
}

/// Intern a list of types.
fn intern_all(types: &mut TypeTable, ts: &Vec<IrType>) -> (r: Vec<IRTypeId>)
    requires
        old(types)@.len() + ts@.len() < u32::MAX,
    ensures
        final(types)@ == interned_all(old(types)@, type_views(ts@)),
        r@ == interned_ids(old(types)@, type_views(ts@)),
        final(types)@.len() <= old(types)@.len() + ts@.len(),
{
    let ghost t0 = types@;
    let ghost tv = type_views(ts@);
    let mut out: Vec<IRTypeId> = Vec::new();
    let mut i: usize = 0;
    assert(tv.take(0) =~= Seq::empty());
    while i < ts.len()
        invariant
            i <= ts.len(),
            tv == type_views(ts@),
            t0.len() + ts@.len() < u32::MAX,
            types@ == interned_all(t0, tv.take(i as int)),
            types@.len() <= t0.len() + i,
            out@ == interned_ids(t0, tv.take(i as int)),
        decreases ts.len() - i,
    {
        proof {
            assert(tv.take(i + 1).drop_last() =~= tv.take(i as int));
            assert(tv.take(i + 1).last() == ts@[i as int]@);
        }
        out.push(types.intern(ts[i].clone()));
        i += 1;
    }
    assert(tv.take(i as int) =~= tv);
    out
}

// ---------------------------------------------------------------------------
// The plan of a virtualisation
// ---------------------------------------------------------------------------

/// What a virtualisation of a typed module works with.
pub struct IrPlan<H> {
    /// The blocks with repeated oracle calls merged.
    pub blocks: Seq<IRBlockView>,
    /// The keys of the handlers.
    pub keys: Seq<IRBlockView>,
    /// The types of the module, with those that the emitted blocks need.
    pub types: Seq<IrTypeView>,
    pub frame: ModuleFrame,
    /// The types that the module returns.
    pub shape: Seq<IRTypeId>,
    pub check: Option<Check<H>>,
    /// The words of the key.
    pub key: Seq<Constant>,
}

/// The type of addresses.
pub open spec fn addr_view() -> IrTypeView {
    IrTypeView::Primitive(Type::_32)
}

/// The type of bits.
pub open spec fn bit_view() -> IrTypeView {
    IrTypeView::Primitive(Type::Bit)
}

/// The types of the module with those of addresses and bits.
pub open spec fn with_addr_and_bit(types: Seq<IrTypeView>) -> Seq<IrTypeView> {
    interned(interned(types, addr_view()), bit_view())
}

/// The same with those of the key words and of the hash.
pub open spec fn plan_types<H: IrHashAlgorithm>(
    types: Seq<IrTypeView>,
    commitment: Option<CommitmentConfig<H>>,
) -> Seq<IrTypeView> {
    let t = with_addr_and_bit(types);
    match commitment {
        Some(c) => interned(interned_all(t, c.algorithm.key_types()), c.algorithm.output_type()),
        None => t,
    }
}

/// What the checks of handlers depend on.
pub open spec fn plan_check<H: IrHashAlgorithm>(
    types: Seq<IrTypeView>,
    commitment: Option<CommitmentConfig<H>>,
) -> Option<Check<H>> {
    let t = with_addr_and_bit(types);
    match commitment {
        Some(c) => Some(
            Check {
                algorithm: c.algorithm,
                storage: c.commitment_storage,
                hash_ty: TypeId(
                    interned_index(
                        interned_all(t, c.algorithm.key_types()),
                        c.algorithm.output_type(),
                    ) as u32,
                ),
                key_tys: interned_ids(t, c.algorithm.key_types()),
                key_storage: c.key_storage,
            },
        ),
        None => None,
    }
}

/// What a virtualisation of the given blocks works with.
pub open spec fn plan_of<H: IrHashAlgorithm>(
    blocks: Seq<IRBlockView>,
    types: Seq<IrTypeView>,
    bytecode: StorageId,
    direct: bool,
    commitment: Option<CommitmentConfig<H>>,
) -> IrPlan<H> {
    let keys = distinct(block_keys(blocks));
    let addr_ty = TypeId(interned_index(types, addr_view()) as u32);
    let bit_ty = TypeId(interned_index(interned(types, addr_view()), bit_view()) as u32);
    let all = plan_types(types, commitment);
    IrPlan {
        blocks,
        keys,
        types: all,
        frame: ModuleFrame {
            addr_ty,
            bit_ty,
            bytecode,
            file: register_types(blocks, all),
            base: storage_behind(keys, addr_ty, bit_ty, bytecode) as u32,
            direct,
        },
        shape: return_shape(blocks),
        check: plan_check(types, commitment),
        key: match commitment {
            Some(c) => c.key@.take(c.algorithm.key_types().len() as int),
            None => Seq::empty(),
        },
    }
}

/// What a virtualisation works with: the blocks with repeated oracle calls
/// merged.
pub open spec fn ir_plan<H: IrHashAlgorithm>(
    blocks: Seq<IRBlockView>,
    types: Seq<IrTypeView>,
    bytecode: StorageId,
    direct: bool,
    commitment: Option<CommitmentConfig<H>>,
) -> IrPlan<H> {
    plan_of(merged_blocks(blocks), types, bytecode, direct, commitment)
}

/// The handler of each block: that with its key.
pub open spec fn plan_rows<H>(p: IrPlan<H>) -> Seq<u32> {
    p.blocks.map_values(|b: IRBlockView| p.keys.index_of_first(ir_key(b)).unwrap() as u32)
}

/// The words of a row that are hashed: the handler index and the slots.
pub open spec fn row_words(
    h: u32,
    slots: Seq<HandlerSlot>,
    values: Seq<Constant>,
    types: Seq<IrTypeView>,
) -> Seq<Seq<u8>> {
    seq![le_bytes(h as nat, 4)] + Seq::new(
        slots.len(),
        |s: int| constant_bytes(values[s], types[slots[s].ty.0 as int]),
    )
}

/// The words of the key.
pub open spec fn key_words<H: IrHashAlgorithm>(c: CommitmentConfig<H>) -> Seq<Seq<u8>> {
    Seq::new(
        c.algorithm.key_types().len(),
        |i: int| constant_bytes(c.key@[i], c.algorithm.key_types()[i]),
    )
}

/// The hash of row `i`.
pub open spec fn row_hash<H: IrHashAlgorithm>(
    p: IrPlan<H>,
    c: CommitmentConfig<H>,
    i: int,
) -> Constant {
    constant_of_bytes(
        c.algorithm.digest(
            key_words(c),
            row_words(
                plan_rows(p)[i],
                handler_slots(p.blocks[i], p.frame.addr_ty, p.frame.bit_ty),
                slot_values(p.blocks[i], p.blocks, p.types),
                p.types,
            ),
        ),
    )
}

/// The lane of the commitment.
pub open spec fn plan_lane<H: IrHashAlgorithm>(
    p: IrPlan<H>,
    commitment: Option<CommitmentConfig<H>>,
) -> Option<PreInitView> {
    match (commitment, p.check) {
        (Some(c), Some(k)) => Some(
            lane(
                k.storage,
                k.hash_ty,
                Seq::new(p.blocks.len(), |i: int| row_hash(p, c, i)),
            ),
        ),
        _ => None,
    }
}

/// The initial storage that the bytecode table needs.
pub open spec fn plan_storage<H: IrHashAlgorithm>(
    p: IrPlan<H>,
    commitment: Option<CommitmentConfig<H>>,
) -> Seq<PreInitView> {
    storage_lanes(
        p.keys,
        p.frame.addr_ty,
        p.frame.bit_ty,
        p.frame.bytecode,
        plan_rows(p),
        table_values(p.blocks, p.types),
        plan_lane(p, commitment),
    )
}

/// The virtualised module.
pub open spec fn virtual_module<H: IrHashAlgorithm>(
    m: IRBlocksView,
    p: IrPlan<H>,
    commitment: Option<CommitmentConfig<H>>,
) -> IRBlocksView {
    IRBlocksView {
        blocks: module_blocks(
            p.frame,
            p.blocks[0].params,
            p.shape,
            p.keys,
            p.check,
            p.types,
        ),
        pre_init: m.pre_init + plan_storage(p, commitment),
        ..m
    }
}

/// Whether a key fits the algorithm of a commitment.
pub open spec fn commitment_ready<H: IrHashAlgorithm>(c: CommitmentConfig<H>) -> bool {
    &&& c.key@.len() >= c.algorithm.key_types().len()
    &&& c.algorithm.key_types().len() > 0 ==> c.key_storage is Some
}

/// Whether a module can be virtualised: blocks are well scoped, branches fit
/// their destinations, returns agree, every type that crosses a block boundary
/// has registers, and every identifier fits its number.
pub open spec fn plan_ready<H: IrHashAlgorithm>(
    m: IRBlocksView,
    p: IrPlan<H>,
    commitment: Option<CommitmentConfig<H>>,
) -> bool {
    &&& 0 < m.blocks.len()
    &&& 0 < p.blocks.len() <= u32::MAX
    &&& forall|i: int| 0 <= i < m.blocks.len() ==> reads_in_range(#[trigger] m.blocks[i])
    &&& returns_agree(p.blocks)
    &&& dyn_vars_typed(p.blocks, p.types)
    &&& forall|i: int|
        0 <= i < p.blocks.len() ==> arms_fit(#[trigger] p.blocks[i], p.blocks, p.types)
    &&& handlers_ready(p.frame, p.keys, p.check)
    &&& forall|i: int, k: int|
        0 <= i < p.blocks.len() && 0 <= k < p.blocks[i].params.len() ==> p.frame.file.contains(
            #[trigger] p.blocks[i].params[k],
        )
    &&& forall|i: int| 0 <= i < p.shape.len() ==> p.frame.file.contains(#[trigger] p.shape[i])
    &&& storage_behind(p.keys, p.frame.addr_ty, p.frame.bit_ty, p.frame.bytecode) <= u32::MAX
    &&& 3 * (key_params(p.check).len() + p.blocks[0].params.len()) + 2 <= u32::MAX
    &&& 2 * p.shape.len() <= u32::MAX
    &&& p.types.len() + p.keys.len() + key_params(p.check).len() + 4 < u32::MAX
    &&& segments_apart(m.pre_init, plan_storage(p, commitment))
    &&& commitment matches Some(c) ==> commitment_ready(c) && forall|h: int, s: int|
        0 <= h < p.keys.len() && 0 <= s < handler_slots(
            p.keys[h],
            p.frame.addr_ty,
            p.frame.bit_ty,
        ).len() ==> (#[trigger] handler_slots(p.keys[h], p.frame.addr_ty, p.frame.bit_ty)[s]).ty.0
            < p.types.len()
}

// ---------------------------------------------------------------------------
// Commitment
// ---------------------------------------------------------------------------

/// The words of a key.
fn serialise_key<H: IrHashAlgorithm>(config: &CommitmentConfig<H>, schema: &Vec<IrType>) -> (r: Vec<
    Vec<u8>,
>)
    requires
        type_views(schema@) == config.algorithm.key_types(),
        config.key@.len() >= schema@.len(),
    ensures
        word_views(r@) == key_words(*config),
{
    let ghost kt = config.algorithm.key_types();
    let mut out: Vec<Vec<u8>> = Vec::new();
    let mut i: usize = 0;
    while i < schema.len()
        invariant
            i <= schema.len(),
            kt == type_views(schema@),
            config.key@.len() >= schema@.len(),
            out@.len() == i,
            forall|k: int| 0 <= k < i ==> (#[trigger] out@[k])@ == constant_bytes(
                config.key@[k],
                kt[k],
            ),
        decreases schema.len() - i,
    {
        out.push(constant_to_le_bytes(&config.key[i], &schema[i]));
        i += 1;
    }
    assert(word_views(out@) =~= key_words(*config));
    out
}

/// The words of a row that are hashed.
fn serialise_row(
    h: u32,
    slots: &Vec<HandlerSlot>,
    values: &Vec<Constant>,
    ir_types: &Vec<IrType>,
) -> (r: Vec<Vec<u8>>)
    requires
        slots@.len() == values@.len(),
        forall|s: int| 0 <= s < slots@.len() ==> (#[trigger] slots@[s]).ty.0 < ir_types@.len(),
    ensures
        word_views(r@) == row_words(h, slots@, values@, type_views(ir_types@)),
{
    let ghost tv = type_views(ir_types@);
    let ghost want = row_words(h, slots@, values@, tv);
    let mut out: Vec<Vec<u8>> = Vec::new();
    out.push(to_le_bytes(h as u128, 4));
    let mut s: usize = 0;
    while s < slots.len()
        invariant
            s <= slots.len(),
            tv == type_views(ir_types@),
            want == row_words(h, slots@, values@, tv),
            slots@.len() == values@.len(),
            forall|k: int| 0 <= k < slots@.len() ==> (#[trigger] slots@[k]).ty.0 < ir_types@.len(),
            out@.len() == 1 + s,
            forall|k: int| 0 <= k < 1 + s ==> (#[trigger] out@[k])@ == want[k],
        decreases slots.len() - s,
    {
        assert(tv[slots@[s as int].ty.0 as int] == ir_types@[slots@[s as int].ty.0 as int]@);
        out.push(constant_to_le_bytes(&values[s], &ir_types[slots[s].ty.0 as usize]));
        s += 1;
    }
    assert(word_views(out@) =~= want);
    out
}

/// The hash of every row.
fn hash_rows<H: IrHashAlgorithm>(
    config: &CommitmentConfig<H>,
    dedup: &DedupTable<IrHandlerKey>,
    layout: &GlobalLayout,
    values: &Vec<Vec<Constant>>,
    schema: &Vec<IrType>,
    ir_types: &Vec<IrType>,
    addr_ty: IRTypeId,
    bit_ty: IRTypeId,
    base: StorageId,
    plan: Ghost<IrPlan<H>>,
) -> (r: Vec<Constant>)
    requires
        ({
            let p = plan@;
            &&& p.frame.addr_ty == addr_ty
            &&& p.frame.bit_ty == bit_ty
            &&& p.types == type_views(ir_types@)
            &&& key_views(dedup.handler_keys@) == p.keys
            &&& table_rows(*dedup) == plan_rows(p)
            &&& table_covers(dedup.per_block@, p.keys, p.blocks)
            &&& values@.map_values(|v: Vec<Constant>| v@) == table_values(p.blocks, p.types)
            &&& forall|h: int, s: int|
                0 <= h < p.keys.len() && 0 <= s < handler_slots(p.keys[h], addr_ty, bit_ty).len()
                    ==> (#[trigger] handler_slots(p.keys[h], addr_ty, bit_ty)[s]).ty.0
                    < p.types.len()
        }),
        layout.lays_out(key_views(dedup.handler_keys@), addr_ty, bit_ty, base),
        type_views(schema@) == config.algorithm.key_types(),
        config.key@.len() >= schema@.len(),
    ensures
        r@ == Seq::new(plan@.blocks.len(), |i: int| row_hash(plan@, *config, i)),
{
    let ghost p = plan@;
    let key = serialise_key(config, schema);
    assert(key@.len() == word_views(key@).len());
    let mut out: Vec<Constant> = Vec::new();
    let mut i: usize = 0;
    assert(values@.len() == table_values(p.blocks, p.types).len());
    while i < values.len()
        invariant
            i <= values.len(),
            p == plan@,
            values@.len() == p.blocks.len(),
            p.frame.addr_ty == addr_ty,
            p.frame.bit_ty == bit_ty,
            p.types == type_views(ir_types@),
            key_views(dedup.handler_keys@) == p.keys,
            table_rows(*dedup) == plan_rows(p),
            table_covers(dedup.per_block@, p.keys, p.blocks),
            values@.map_values(|v: Vec<Constant>| v@) == table_values(p.blocks, p.types),
            forall|h: int, s: int|
                0 <= h < p.keys.len() && 0 <= s < handler_slots(p.keys[h], addr_ty, bit_ty).len()
                    ==> (#[trigger] handler_slots(p.keys[h], addr_ty, bit_ty)[s]).ty.0
                    < p.types.len(),
            layout.lays_out(p.keys, addr_ty, bit_ty, base),
            word_views(key@) == key_words(*config),
            key@.len() == config.algorithm.key_types().len(),
            out@.len() == i,
            forall|k: int| 0 <= k < i ==> #[trigger] out@[k] == row_hash(p, *config, k),
        decreases values.len() - i,
    {
        let h: u32 = dedup.per_block[i].0;
        let block_schema = &layout.schemas[h as usize];
        proof {
            assert(block_schema.describes(p.keys[h as int], addr_ty, bit_ty));
            lemma_key_slots(p.blocks[i as int], addr_ty, bit_ty);
            lemma_slot_values_len(p.blocks[i as int], p.blocks, p.types, addr_ty, bit_ty);
            assert(values@.map_values(|v: Vec<Constant>| v@)[i as int] == values@[i as int]@);
            assert(table_rows(*dedup)[i as int] == h);
            assert forall|s: int| 0 <= s < block_schema.slots@.len() implies (
            #[trigger] block_schema.slots@[s]).ty.0 < ir_types@.len() by {
                assert(handler_slots(p.keys[h as int], addr_ty, bit_ty)[s].ty.0 < p.types.len());
            }
        }
        let words = serialise_row(h, &block_schema.slots, &values[i], ir_types);
        let digest = config.algorithm.hash_bytes_native(&key, &words);
        out.push(bytes_to_constant(&digest));
        i += 1;
    }
    assert(out@ =~= Seq::new(p.blocks.len(), |k: int| row_hash(p, *config, k)));
    out
}

// ---------------------------------------------------------------------------
// Declared access
// ---------------------------------------------------------------------------

/// What the layout of a virtualised module implies for a storage: the register
/// file and the key are written, the table is not.
pub open spec fn generated_access(
    s: StorageId,
    segments: Seq<PreInitView>,
    bytecode: StorageId,
    base: u32,
    n_files: nat,
    key_storage: Option<StorageId>,
) -> Option<StorageAccess> {
    if base <= s.0 < base + n_files || key_storage == Some(s) {
        Some(StorageAccess::ReadWrite)
    } else if s == bytecode || exists|i: int|
        0 <= i < segments.len() && (#[trigger] segments[i]).storage == s {
        Some(StorageAccess::ReadOnly)
    } else {
        None
    }
}

/// Two declarations taken together: read-only only if neither says otherwise.
pub open spec fn combined_access(
    a: Option<StorageAccess>,
    b: Option<StorageAccess>,
) -> Option<StorageAccess> {
    match (a, b) {
        (Some(x), Some(y)) => if x == StorageAccess::ReadOnly && y == StorageAccess::ReadOnly {
            Some(StorageAccess::ReadOnly)
        } else {
            Some(StorageAccess::ReadWrite)
        },
        (Some(x), None) => Some(x),
        (None, Some(y)) => Some(y),
        (None, None) => None,
    }
}

/// The declarations for a virtualised module: what its layout implies, taken
/// together with what the caller declared.
pub fn storage_access_for_ir(
    pre_init: &Vec<PreInitSegment>,
    bytecode_storage: StorageId,
    base: u32,
    n_files: usize,
    key_storage: Option<StorageId>,
    caller: &StorageTable,
) -> (r: StorageTable)
    requires
        base + n_files <= u32::MAX,
    ensures
        forall|s: StorageId| #[trigger]
            r.declared(s) == combined_access(
                generated_access(
                    s,
                    pre_init_views(pre_init@),
                    bytecode_storage,
                    base,
                    n_files as nat,
                    key_storage,
                ),
                caller.declared(s),
            ),
{
    let ghost segs = pre_init_views(pre_init@);
    let mut table = StorageTable::new();
    table.set(bytecode_storage, StorageAccess::ReadOnly);
    let mut i: usize = 0;
    while i < pre_init.len()
        invariant
            i <= pre_init.len(),
            segs == pre_init_views(pre_init@),
            forall|s: StorageId| #[trigger]
                table.declared(s) == (if s == bytecode_storage || exists|k: int|
                    0 <= k < i && (#[trigger] segs[k]).storage == s {
                    Some(StorageAccess::ReadOnly)
                } else {
                    None
                }),
        decreases pre_init.len() - i,
    {
        let ghost before = table;
        table.set(pre_init[i].storage, StorageAccess::ReadOnly);
        proof {
            assert(segs[i as int].storage == pre_init@[i as int].storage);
            assert forall|s: StorageId| #[trigger]
                table.declared(s) == (if s == bytecode_storage || exists|k: int|
                    0 <= k < i + 1 && (#[trigger] segs[k]).storage == s {
                    Some(StorageAccess::ReadOnly)
                } else {
                    None
                }) by {
                assert(before.declared(s) == (if s == bytecode_storage || exists|k: int|
                    0 <= k < i && (#[trigger] segs[k]).storage == s {
                    Some(StorageAccess::ReadOnly)
                } else {
                    None
                }));
                if exists|k: int| 0 <= k < i + 1 && (#[trigger] segs[k]).storage == s {
                    let k = choose|k: int| 0 <= k < i + 1 && (#[trigger] segs[k]).storage == s;
                    if k < i {
                    } else {
                        assert(s == pre_init@[i as int].storage);
                    }
                }
            }
        }
        i += 1;
    }
    let ghost read_only = table;
    let mut f: usize = 0;
    while f < n_files
        invariant
            f <= n_files,
            base + n_files <= u32::MAX,
            forall|s: StorageId| #[trigger]
                table.declared(s) == (if base <= s.0 < base + f {
                    Some(StorageAccess::ReadWrite)
                } else {
                    read_only.declared(s)
                }),
        decreases n_files - f,
    {
        table.set(StorageId(base + f as u32), StorageAccess::ReadWrite);
        f += 1;
    }
    if let Some(k) = key_storage {
        table.set(k, StorageAccess::ReadWrite);
    }
    let ghost generated = table;
    proof {
        assert forall|s: StorageId| #[trigger]
            generated.declared(s) == generated_access(
                s,
                segs,
                bytecode_storage,
                base,
                n_files as nat,
                key_storage,
            ) by {
            assert(read_only.declared(s) == (if s == bytecode_storage || exists|k: int|
                0 <= k < segs.len() && (#[trigger] segs[k]).storage == s {
                Some(StorageAccess::ReadOnly)
            } else {
                None
            }));
        }
    }
    combine_access(&mut table, caller);
    proof {
        assert forall|s: StorageId| #[trigger]
            table.declared(s) == combined_access(
                generated_access(
                    s,
                    segs,
                    bytecode_storage,
                    base,
                    n_files as nat,
                    key_storage,
                ),
                caller.declared(s),
            ) by {
            assert(generated.declared(s) == generated_access(
                s,
                segs,
                bytecode_storage,
                base,
                n_files as nat,
                key_storage,
            ));
        }
    }
    table
}

/// Whether a list of entries declares something for a storage.
proof fn lemma_declared_none(entries: Seq<StorageEntry>, s: StorageId)
    ensures
        crate::common::declared_access(entries, s) is None <==> forall|k: int|
            0 <= k < entries.len() ==> (#[trigger] entries[k]).storage != s,
    decreases entries.len(),
{
    if entries.len() > 0 {
        let rest = entries.drop_first();
        lemma_declared_none(rest, s);
        if entries[0].storage != s {
            if forall|k: int| 0 <= k < entries.len() ==> (#[trigger] entries[k]).storage != s {
                assert forall|k: int| 0 <= k < rest.len() implies (#[trigger] rest[k]).storage
                    != s by {
                    assert(rest[k] == entries[k + 1]);
                }
            }
            if forall|k: int| 0 <= k < rest.len() ==> (#[trigger] rest[k]).storage != s {
                assert forall|k: int| 0 <= k < entries.len() implies (
                #[trigger] entries[k]).storage != s by {
                    if k > 0 {
                        assert(rest[k - 1] == entries[k]);
                    }
                }
            }
        }
    }
}

/// Take the declarations of a table together with those of the caller.
pub fn combine_access(table: &mut StorageTable, caller: &StorageTable)
    ensures
        forall|s: StorageId| #[trigger]
            final(table).declared(s) == combined_access(
                old(table).declared(s),
                caller.declared(s),
            ),
{
    let ghost start = *table;
    let ghost es = caller.entries@;
    let mut done: Vec<StorageId> = Vec::new();
    let mut i: usize = 0;
    while i < caller.entries.len()
        invariant
            i <= caller.entries.len(),
            es == caller.entries@,
            start == *old(table),
            forall|s: StorageId| #[trigger]
                table.declared(s) == (if exists|k: int|
                    0 <= k < i && (#[trigger] es[k]).storage == s {
                    combined_access(start.declared(s), caller.declared(s))
                } else {
                    start.declared(s)
                }),
            done@.len() == i,
            forall|k: int| 0 <= k < i ==> #[trigger] done@[k] == es[k].storage,
        decreases caller.entries.len() - i,
    {
        let storage: StorageId = caller.entries[i].storage;
        let mut seen: bool = false;
        let mut k: usize = 0;
        while k < done.len()
            invariant
                k <= done.len(),
                done@.len() == i,
                i < es.len(),
                storage == es[i as int].storage,
                forall|x: int| 0 <= x < i ==> #[trigger] done@[x] == es[x].storage,
                seen == exists|x: int| 0 <= x < k && (#[trigger] es[x]).storage == storage,
            decreases done.len() - k,
        {
            assert(done@[k as int] == es[k as int].storage);
            if done[k] == storage {
                seen = true;
            }
            k += 1;
        }
        let ghost before = *table;
        if !seen {
            let mine: Option<StorageAccess> = table.declaration_of(storage);
            let theirs: Option<StorageAccess> = caller.declaration_of(storage);
            proof {
                lemma_declared_none(es, storage);
                assert(before.declared(storage) == start.declared(storage));
            }
            let access: StorageAccess = match (mine, theirs) {
                (Some(x), Some(y)) => if x == StorageAccess::ReadOnly && y
                    == StorageAccess::ReadOnly {
                    StorageAccess::ReadOnly
                } else {
                    StorageAccess::ReadWrite
                },
                (_, Some(y)) => y,
                _ => StorageAccess::ReadWrite,
            };
            table.set(storage, access);
        }
        proof {
            assert forall|s: StorageId| #[trigger]
                table.declared(s) == (if exists|x: int|
                    0 <= x < i + 1 && (#[trigger] es[x]).storage == s {
                    combined_access(start.declared(s), caller.declared(s))
                } else {
                    start.declared(s)
                }) by {
                assert(before.declared(s) == (if exists|x: int|
                    0 <= x < i && (#[trigger] es[x]).storage == s {
                    combined_access(start.declared(s), caller.declared(s))
                } else {
                    start.declared(s)
                }));
                assert(es[i as int].storage == storage);
                if exists|x: int| 0 <= x < i + 1 && (#[trigger] es[x]).storage == s {
                    let x = choose|x: int| 0 <= x < i + 1 && (#[trigger] es[x]).storage == s;
                    if x == i {
                        assert(s == storage);
                    }
                }
            }
        }
        done.push(storage);
        i += 1;
    }
    proof {
        assert forall|s: StorageId| #[trigger]
            table.declared(s) == combined_access(start.declared(s), caller.declared(s)) by {
            lemma_declared_none(es, s);
            if exists|x: int| 0 <= x < es.len() && (#[trigger] es[x]).storage == s {
            } else {
                assert(caller.declared(s) is None);
            }
        }
    }
}

// ---------------------------------------------------------------------------
// Provenance
// ---------------------------------------------------------------------------

/// The first statement of a list of blocks.
pub open spec fn first_node<P>(blocks: Seq<IRBlock<P>>) -> Option<Node<IRStmt, P>>
    decreases blocks.len(),
{
    if blocks.len() == 0 {
        None
    } else if blocks[0].stmts@.len() > 0 {
        Some(blocks[0].stmts@[0])
    } else {
        first_node(blocks.drop_first())
    }
}

/// Whether emitted statements of a module may have the provenance `prov`: a
/// copy of that of the first statement of the input, or the default.
pub open spec fn control_prov<P: Clone + Default>(blocks: Seq<IRBlock<P>>, prov: P) -> bool {
    match first_node(blocks) {
        Some(n) => cloned(n.prov, prov),
        None => call_ensures(P::default, (), prov),
    }
}

/// The provenance of emitted statements.
pub fn pick_control_prov<P: Clone + Default>(blocks: &Vec<IRBlock<P>>) -> (r: P)
    ensures
        control_prov(blocks@, r),
{
    let mut i: usize = 0;
    assert(blocks@.skip(0) =~= blocks@);
    while i < blocks.len()
        invariant
            i <= blocks.len(),
            first_node(blocks@) == first_node(blocks@.skip(i as int)),
        decreases blocks.len() - i,
    {
        assert(blocks@.skip(i as int)[0] == blocks@[i as int]);
        assert(blocks@.skip(i as int).drop_first() =~= blocks@.skip(i + 1));
        if blocks[i].stmts.len() > 0 {
            return blocks[i].stmts[0].prov.clone();
        }
        i += 1;
    }
    P::default()
}

// ---------------------------------------------------------------------------
// Virtualisation
// ---------------------------------------------------------------------------

/// The handler of a block is the one with its key.
proof fn lemma_rows<H>(d: DedupTable<IrHandlerKey>, p: IrPlan<H>)
    requires
        p.keys == distinct(block_keys(p.blocks)),
        key_views(d.handler_keys@) == p.keys,
        table_covers(d.per_block@, p.keys, p.blocks),
    ensures
        table_rows(d) == plan_rows(p),
{
    law_distinct(block_keys(p.blocks));
    assert forall|i: int| 0 <= i < p.blocks.len() implies #[trigger] table_rows(d)[i] == plan_rows(
        p,
    )[i] by {
        let key = ir_key(p.blocks[i]);
        let h = d.per_block@[i].0;
        assert(p.keys[h as int] == key);
        assert(p.keys.contains(key));
        p.keys.index_of_first_ensures(key);
    }
    assert(table_rows(d) =~= plan_rows(p));
}

/// Interning adds at most one type.
proof fn lemma_interned_len(types: Seq<IrTypeView>, ty: IrTypeView)
    ensures
        types.len() <= interned(types, ty).len() <= types.len() + 1,
{
}

/// Interning a list of types adds at most as many.
proof fn lemma_interned_all_len(types: Seq<IrTypeView>, ts: Seq<IrTypeView>)
    ensures
        types.len() <= interned_all(types, ts).len(),
    decreases ts.len(),
{
    if ts.len() > 0 {
        lemma_interned_all_len(types, ts.drop_last());
    }
}

/// There is one index for each type.
proof fn lemma_interned_ids_len(types: Seq<IrTypeView>, ts: Seq<IrTypeView>)
    ensures
        interned_ids(types, ts).len() == ts.len(),
    decreases ts.len(),
{
    if ts.len() > 0 {
        lemma_interned_ids_len(types, ts.drop_last());
    }
}

/// The copy of an optional commitment.
pub open spec fn commitment_of<H: IrHashAlgorithm>(c: Option<&CommitmentConfig<H>>) -> Option<
    CommitmentConfig<H>,
> {
    match c {
        Some(x) => Some(*x),
        None => None,
    }
}

/// The key words that the caller passes first, with their types.
pub open spec fn plan_key_params<H: IrHashAlgorithm>(
    p: IrPlan<H>,
    commitment: Option<CommitmentConfig<H>>,
) -> Seq<(Constant, IRTypeId)> {
    match (commitment, p.check) {
        (Some(c), Some(k)) => Seq::new(k.key_tys.len(), |i: int| (c.key@[i], k.key_tys[i])),
        _ => Seq::empty(),
    }
}

/// The storage of the key of an optional commitment.
pub open spec fn key_storage_of<H: IrHashAlgorithm>(c: Option<CommitmentConfig<H>>) -> Option<
    StorageId,
> {
    match c {
        Some(x) => x.key_storage,
        None => None,
    }
}

/// Whether `r` is what is emitted for the module `blocks`, its table aside.
pub open spec fn emits<P: Clone + Default, H: IrHashAlgorithm>(
    blocks: IRBlocks<P>,
    p: IrPlan<H>,
    commitment: Option<CommitmentConfig<H>>,
    caller: StorageTable,
    r: VirtOutput<IRBlocks<P>>,
) -> bool {
    &&& r.blocks@ == virtual_module(blocks@, p, commitment)
    &&& exists|prov: P| #[trigger]
        control_prov(blocks.blocks@, prov) && all_controlled(r.blocks.blocks@, prov)
    &&& forall|s: StorageId| #[trigger]
        r.storage_access.declared(s) == combined_access(
            generated_access(
                s,
                plan_storage(p, commitment),
                p.frame.bytecode,
                p.frame.base,
                p.frame.file.len(),
                key_storage_of(commitment),
            ),
            caller.declared(s),
        )
    &&& r.n_handlers == p.keys.len()
    &&& r.blocks_in == blocks@.blocks.len()
    &&& r.key_params@ == plan_key_params(p, commitment)
}

/// Whether `r` is the virtualisation of the module `blocks`.
pub open spec fn virtualizes<P: Clone + Default, H: IrHashAlgorithm>(
    blocks: IRBlocks<P>,
    p: IrPlan<H>,
    commitment: Option<CommitmentConfig<H>>,
    caller: StorageTable,
    r: VirtOutput<IRBlocks<P>>,
) -> bool {
    &&& emits(blocks, p, commitment, caller, r)
    &&& r.bytecode matches Some(table) && bytecode_of(p, table)
    &&& r.n_appended_regions == 0
}

/// Whether `table` is the bytecode table of a plan: row `i` names the handler
/// of block `i` and the values lifted out of it.
pub open spec fn bytecode_of<H>(p: IrPlan<H>, table: VirtBytecode) -> bool {
    &&& table.n_handlers == p.keys.len()
    &&& table.outer_block_count == p.blocks.len()
    &&& table@.handler_schemas == p.keys.map_values(
        |k: IRBlockView| ir_schema(k),
    )
    &&& table@.regions.len() == 0
    &&& table@.entries.len() == p.blocks.len()
    &&& forall|i: int|
        0 <= i < p.blocks.len() ==> #[trigger] table@.entries[i] == (
        EntryView {
            handler_idx: plan_rows(p)[i],
            consts: ir_immediates(p.blocks[i]).consts,
            targets: ir_immediates(p.blocks[i]).targets,
            row_kind: BytecodeRowKind::Outer,
        })
}

/// The bytecode table of grouped blocks.
proof fn lemma_bytecode_of<H>(
    d: DedupTable<IrHandlerKey>,
    p: IrPlan<H>,
    table: VirtBytecode,
)
    requires
        d.groups(block_keys(p.blocks), block_immediates(p.blocks)),
        p.keys == distinct(block_keys(p.blocks)),
        table_rows(d) == plan_rows(p),
        table@ == d.bytecode(),
        p.blocks.len() <= usize::MAX,
        p.keys.len() <= usize::MAX,
    ensures
        bytecode_of(p, table),
{
    let keys = key_views(d.handler_keys@);
    assert(table@.handler_schemas =~= p.keys.map_values(
        |k: IRBlockView| ir_schema(k),
    )) by {
        assert forall|h: int| 0 <= h < d.handler_keys@.len() implies #[trigger]
            table@.handler_schemas[h] == ir_schema(keys[h]) by {
            assert(d.handler_keys@[h].schema() == ir_schema(
                d.handler_keys@[h]@,
            ));
        }
    }
    assert forall|i: int| 0 <= i < p.blocks.len() implies #[trigger] table@.entries[i] == (
    EntryView {
        handler_idx: plan_rows(p)[i],
        consts: ir_immediates(p.blocks[i]).consts,
        targets: ir_immediates(p.blocks[i]).targets,
        row_kind: BytecodeRowKind::Outer,
    }) by {
        assert(d.per_block@[i].1@ == block_immediates(p.blocks)[i]);
        assert(table_rows(d)[i] == d.per_block@[i].0);
    }
}

/// Virtualise the module `blocks`, run as the blocks of `merged`, without
/// regions.
pub(crate) fn virtualize_ir_outer<P: Clone + Default, H: IrHashAlgorithm>(
    blocks: &IRBlocks<P>,
    merged: &IRBlocks<P>,
    types: &mut TypeTable,
    cfg: &VirtualizeConfig,
    commitment: Option<&CommitmentConfig<H>>,
) -> (r: VirtOutput<IRBlocks<P>>)
    requires
        ({
            let p = plan_of(
                merged@.blocks,
                old(types)@,
                cfg.bytecode_storage,
                cfg.direct_dispatch,
                commitment_of(commitment),
            );
            plan_ready(blocks@, p, commitment_of(commitment))
        }),
    ensures
        ({
            let p = plan_of(
                merged@.blocks,
                old(types)@,
                cfg.bytecode_storage,
                cfg.direct_dispatch,
                commitment_of(commitment),
            );
            &&& virtualizes(*blocks, p, commitment_of(commitment), cfg.storage_access, r)
            &&& final(types)@ == handlers(
                p.frame,
                p.keys,
                p.check,
                p.types,
                p.keys.len() as int,
            ).types
        }),
{
    let ghost com = commitment_of(commitment);
    let ghost t0 = types@;
    let ghost p = plan_of(
        merged@.blocks,
        t0,
        cfg.bytecode_storage,
        cfg.direct_dispatch,
        com,
    );
    proof {
        lemma_interned_len(t0, addr_view());
        lemma_interned_len(interned(t0, addr_view()), bit_view());
        if let Some(c) = com {
            lemma_interned_all_len(with_addr_and_bit(t0), c.algorithm.key_types());
            lemma_interned_ids_len(with_addr_and_bit(t0), c.algorithm.key_types());
            lemma_interned_len(
                interned_all(with_addr_and_bit(t0), c.algorithm.key_types()),
                c.algorithm.output_type(),
            );
        }
    }
    let mut table = TypeTable::new();
    std::mem::swap(&mut table, types);
    let dedup = dedup_all(merged);
    proof {
        lemma_rows(dedup, p);
        law_distinct(block_keys(p.blocks));
    }
    let addr_ty: IRTypeId = table.intern(IrType::Primitive(Type::_32));
    let bit_ty: IRTypeId = table.intern(IrType::Primitive(Type::Bit));
    let base: StorageId = cfg.bytecode_storage;
    let layout = GlobalLayout::from_dedup(&dedup, addr_ty, bit_ty, base);
    let reg_base: u32 = layout.next_free_storage_after_bytecode(base, Ghost(p.keys), addr_ty, bit_ty);
    let key_schema: Vec<IrType> = match commitment {
        Some(c) => c.algorithm.key_schema(),
        None => Vec::new(),
    };
    let ghost t2 = table@;
    proof {
        if let Some(c) = com {
            assert(type_views(key_schema@) == c.algorithm.key_types());
            assert(type_views(key_schema@).len() == key_schema@.len());
        } else {
            assert(type_views(key_schema@) =~= Seq::empty());
        }
    }
    assert(t2 == with_addr_and_bit(t0));
    let key_type_ids = intern_all(&mut table, &key_schema);
    let hash_ty: Option<IRTypeId> = match commitment {
        Some(c) => Some(c.algorithm.output_type_id(&mut table)),
        None => None,
    };
    assert(table@ == p.types);
    proof {
        assert forall|b: int| 0 <= b < p.blocks.len() implies (#[trigger] p.blocks[b]).params.len()
            <= u32::MAX by {
            assert(scoped(p.keys[dedup.per_block@[b].0 as int]));
            assert(p.keys[dedup.per_block@[b].0 as int] == ir_key(p.blocks[b]));
        }
    }
    let reg_alloc = RegAlloc::build(merged, reg_base, &table.0);
    let values = all_slot_values(
        merged,
        &dedup,
        &layout,
        &reg_alloc,
        base,
        addr_ty,
        bit_ty,
        &table.0,
    );
    proof {
        let vals = values@.map_values(|v: Vec<Constant>| v@);
        assert(vals.len() == values@.len());
        assert forall|i: int| 0 <= i < values@.len() implies (#[trigger] dedup.per_block@[i]).0
            < dedup.handler_keys@.len() && values@[i]@.len() == handler_slots(
            dedup.handler_keys@[dedup.per_block@[i].0 as int]@,
            addr_ty,
            bit_ty,
        ).len() by {
            assert(vals[i] == values@[i]@);
            assert(p.keys[dedup.per_block@[i].0 as int] == ir_key(p.blocks[i]));
            lemma_key_slots(p.blocks[i], addr_ty, bit_ty);
            lemma_slot_values_len(p.blocks[i], p.blocks, p.types, addr_ty, bit_ty);
        }
    }
    let mut key_params: Vec<(Constant, IRTypeId)> = Vec::new();
    let mut ctx: Option<CommitmentCtx<H>> = None;
    if let Some(c) = commitment {
        if let Some(ty) = hash_ty {
            let per_block = hash_rows(
                c,
                &dedup,
                &layout,
                &values,
                &key_schema,
                &table.0,
                addr_ty,
                bit_ty,
                base,
                Ghost(p),
            );
            key_params = pair_key(&c.key, &key_type_ids);
            ctx = Some(
                CommitmentCtx { config: c, per_block, hash_output_ty: ty, key_type_ids },
            );
        }
    }
    let prov: P = pick_control_prov(&blocks.blocks);
    let lane_of: Option<CommitmentPreInit> = match &ctx {
        Some(c) => Some(
            CommitmentPreInit {
                storage: c.config.commitment_storage,
                hash_output_ty: c.hash_output_ty,
                per_block: &c.per_block,
            },
        ),
        None => None,
    };
    let key_storage: Option<StorageId> = match commitment {
        Some(c) => c.key_storage,
        None => None,
    };
    proof {
        assert(commitment_lane(lane_of) == plan_lane(p, com));
    }
    let init = build_ir_storage_init(&dedup, &layout, &values, base, addr_ty, bit_ty, lane_of);
    let storage_access = storage_access_for_ir(
        &init.pre_init,
        base,
        reg_alloc.base,
        reg_alloc.file.len(),
        key_storage,
        &cfg.storage_access,
    );
    let pre_init = merge_pre_init(&blocks.pre_init, init.pre_init);
    let env = ModuleEnv {
        addr_ty,
        bit_ty,
        bytecode_storage: base,
        reg_alloc: &reg_alloc,
        direct_dispatch: cfg.direct_dispatch,
    };
    let entry = merged.blocks[0].params.clone();
    let (out, new_types) = emit_output_ir(
        &env,
        &entry,
        Ghost(p.shape),
        &dedup.handler_keys,
        &layout,
        table,
        ctx.as_ref(),
        &prov,
    );
    *types = new_types;
    let out_blocks = IRBlocks {
        oracles: clone_oracles(&blocks.oracles),
        actions: clone_actions(&blocks.actions),
        rngs: clone_rngs(&blocks.rngs),
        blocks: out,
        pre_init,
    };
    proof {
        assert(out_blocks@ == virtual_module(blocks@, p, com));
        assert(control_prov(blocks.blocks@, prov) && all_controlled(out_blocks.blocks@, prov));
        lemma_bytecode_of(dedup, p, init.bytecode);
        assert(key_params@ =~= plan_key_params(p, com));
    }
    VirtOutput {
        blocks: out_blocks,
        storage_access,
        bytecode: Some(init.bytecode),
        n_handlers: dedup.n_handlers(),
        blocks_in: blocks.blocks.len(),
        n_appended_regions: 0,
        key_params,
    }
}

/// The words of a key with their types.
fn pair_key(key: &Vec<Constant>, tys: &Vec<IRTypeId>) -> (r: Vec<(Constant, IRTypeId)>)
    requires
        tys@.len() <= key@.len(),
    ensures
        r@ == Seq::new(tys@.len(), |i: int| (key@[i], tys@[i])),
{
    let mut out: Vec<(Constant, IRTypeId)> = Vec::new();
    let mut i: usize = 0;
    while i < tys.len()
        invariant
            i <= tys.len(),
            tys@.len() <= key@.len(),
            out@.len() == i,
            forall|k: int| 0 <= k < i ==> #[trigger] out@[k] == (key@[k], tys@[k]),
        decreases tys.len() - i,
    {
        out.push((key[i], tys[i]));
        i += 1;
    }
    assert(out@ =~= Seq::new(tys@.len(), |k: int| (key@[k], tys@[k])));
    out
}

// ---------------------------------------------------------------------------
// Entry points
// ---------------------------------------------------------------------------

/// Whether a module gets regions.
pub open spec fn has_regions(m: IRBlocksView, cfg: VirtualizeConfig) -> bool {
    cfg.adaptive_split.enabled && split_view(
        merged_blocks(m.blocks),
        cfg.adaptive_split,
    ).regions.len() > 0
}

/// Whether a module can be virtualised: it has a block, reads no variable that
/// it does not have, and fits the numbers that identify types, variables,
/// blocks and storages.
pub open spec fn virtualizable<H: IrHashAlgorithm>(
    m: IRBlocksView,
    types: Seq<IrTypeView>,
    cfg: VirtualizeConfig,
    commitment: Option<CommitmentConfig<H>>,
) -> bool {
    &&& cfg.dedup == DedupPolicy::ConstantsAndTargets
    &&& cfg.dispatch == DispatchMode::Public
    &&& forall|i: int| 0 <= i < m.blocks.len() ==> reads_in_range(#[trigger] m.blocks[i])
    &&& cfg.adaptive_split.enabled ==> commitment is None && split_ready(
        merged_blocks(m.blocks),
        cfg.adaptive_split,
    )
    &&& if has_regions(m, cfg) {
        &&& can_be_cut(m.blocks, cfg)
        &&& plan_ready(m, adaptive_plan::<H>(m.blocks, types, cfg), None)
    } else {
        plan_ready(
            m,
            ir_plan(m.blocks, types, cfg.bytecode_storage, cfg.direct_dispatch, commitment),
            commitment,
        )
    }
}

/// Whether `r` and `types` are what virtualisation of the module `blocks`
/// yields.
pub open spec fn virtualized<P: Clone + Default, H: IrHashAlgorithm>(
    blocks: IRBlocks<P>,
    old_types: Seq<IrTypeView>,
    cfg: VirtualizeConfig,
    commitment: Option<CommitmentConfig<H>>,
    r: VirtOutput<IRBlocks<P>>,
    types: Seq<IrTypeView>,
) -> bool {
    if has_regions(blocks@, cfg) {
        let p = adaptive_plan::<H>(blocks@.blocks, old_types, cfg);
        &&& adaptively_virtualizes(blocks, p, cfg, r)
        &&& types == handlers(p.frame, p.keys, p.check, p.types, p.keys.len() as int).types
    } else {
        let p = ir_plan(
            blocks@.blocks,
            old_types,
            cfg.bytecode_storage,
            cfg.direct_dispatch,
            commitment,
        );
        &&& virtualizes(blocks, p, commitment, cfg.storage_access, r)
        &&& types == handlers(p.frame, p.keys, p.check, p.types, p.keys.len() as int).types
    }
}

/// Virtualise a typed module.
fn virtualize_ir_impl<P: Clone + Default, H: IrHashAlgorithm>(
    blocks: &IRBlocks<P>,
    types: &mut TypeTable,
    cfg: &VirtualizeConfig,
    commitment: Option<&CommitmentConfig<H>>,
) -> (r: VirtOutput<IRBlocks<P>>)
    requires
        virtualizable(blocks@, old(types)@, *cfg, commitment_of(commitment)),
    ensures
        virtualized(
            *blocks,
            old(types)@,
            *cfg,
            commitment_of(commitment),
            r,
            final(types)@,
        ),
{
    let merged = merge_all(blocks);
    if cfg.adaptive_split.enabled {
        let split_plan = plan_adaptive_split(&merged, &cfg.adaptive_split);
        proof {
            assert(split_plan.layout.regions@.len() == split_plan.layout@.regions.len());
        }
        if split_plan.layout.regions.len() > 0 {
            return virtualize_ir_adaptive::<P, H>(blocks, &merged, types, cfg, &split_plan);
        }
    }
    virtualize_ir_outer(blocks, &merged, types, cfg, commitment)
}

/// Virtualise a typed module.
pub fn virtualize_ir<P: Clone + Default>(
    blocks: &IRBlocks<P>,
    types: &mut TypeTable,
    cfg: &VirtualizeConfig,
) -> (r: VirtOutput<IRBlocks<P>>)
    requires
        virtualizable(blocks@, old(types)@, *cfg, None::<CommitmentConfig<XorFoldHash32>>),
    ensures
        virtualized(
            *blocks,
            old(types)@,
            *cfg,
            None::<CommitmentConfig<XorFoldHash32>>,
            r,
            final(types)@,
        ),
{
    let none: Option<&CommitmentConfig<XorFoldHash32>> = None;
    virtualize_ir_impl(blocks, types, cfg, none)
}

/// Virtualise a typed module whose rows are committed to: every handler hashes
/// its row and adds the difference from the committed hash to the next row.
pub fn virtualize_ir_committed<P: Clone + Default, H: IrHashAlgorithm>(
    blocks: &IRBlocks<P>,
    types: &mut TypeTable,
    cfg: &VirtualizeConfig,
    commitment_cfg: &CommitmentConfig<H>,
) -> (r: VirtOutput<IRBlocks<P>>)
    requires
        virtualizable(blocks@, old(types)@, *cfg, Some(*commitment_cfg)),
    ensures
        virtualized(
            *blocks,
            old(types)@,
            *cfg,
            Some(*commitment_cfg),
            r,
            final(types)@,
        ),
{
    virtualize_ir_impl(blocks, types, cfg, Some(commitment_cfg))
}

} // verus!
